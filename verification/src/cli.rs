use vstd::prelude::*;

use crate::route::{RouteOption, UnorderedRoute};
use crate::system::System;

verus! {

/// The command line of a run: the systems to travel through, the start, the
/// end (if any), the kind of route, systems to avoid (if any) and how many
/// lookups run at once.
#[derive(Debug)]
pub struct Args {
    pub route: UnorderedRoute,
    pub start: System,
    pub end: Option<System>,
    pub route_option: RouteOption,
    pub avoid: Option<UnorderedRoute>,
    pub concurrent: usize,
}

} // verus!
