use vstd::prelude::*;

verus! {

/// Separator between system names in a route given on the command line.
pub const ROUTE_SPLIT_CHAR: char = ',';

/// How many route lookups run at once unless told otherwise.
pub const DEFAULT_PARAREL_REQUEST: usize = 8;

/// Start of a DOTLAN route query.
pub const ROUTE_SEARCH_URL_PREFIX: &'static str = "https://evemaps.dotlan.net/route/";

/// End of a DOTLAN route query.
pub const ROUTE_SEARCH_URL_SUFFIX: &'static str = "";

/// Start of an EVE gatecheck route link.
pub const ROUTE_GATECHECK_URL_PREFIX: &'static str = "https://eve-gatecheck.space/eve/#";

/// End of an EVE gatecheck route link.
pub const ROUTE_GATECHECK_URL_POSTFIX: &'static str = "";

/// User agent of the HTTP client.
pub const USER_AGENT: &'static str = "route-optimizer";

/// Requests sent in a row before the heatsink makes the fetcher cool down.
pub const REQUEST_OVERHEAT: usize = 30;

/// Pause of one cooldown step, in milliseconds.
pub const COOLDOWN_INTERVAL_MILLS: u64 = 100;

} // verus!
