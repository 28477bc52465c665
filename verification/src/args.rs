use vstd::prelude::*;

use crate::config;
use crate::route::{RouteOption, route_names};
use crate::system::System;
use crate::text::{chars_of, split_on, string_from_chars, spec_to_uppercase};

verus! {

/// The systems to visit, in the order given.
#[derive(Debug)]
pub struct Route {
    systems: Vec<System>,
}

impl Route {
    /// The systems of the route.
    pub closed spec fn systems_view(&self) -> Seq<System> {
        self.systems@
    }

    /// The names of the systems of the route.
    pub open spec fn names(&self) -> Seq<Seq<char>> {
        self.systems_view().map_values(|s: System| s.name_view())
    }

    /// The systems named in a text of names separated by `ROUTE_SPLIT_CHAR`,
    /// in order, in upper case, with no distance known.
    pub fn new(str_route: &str) -> (r: Route)
        ensures
            r.names() == route_names(str_route@),
            forall|i: int| 0 <= i < r.systems_view().len() ==> #[trigger] r.systems_view()[i].table().len() == 0,
    {
        let chars = chars_of(str_route);
        let pieces = split_on(&chars, config::ROUTE_SPLIT_CHAR);
        let ghost all = route_names(str_route@);
        let mut systems: Vec<System> = Vec::new();
        let mut i: usize = 0;
        while i < pieces.len()
            invariant
                i <= pieces@.len(),
                all == pieces@.map_values(|p: Vec<char>| p@).map_values(|p: Seq<char>| spec_to_uppercase(p)),
                systems@.map_values(|s: System| s.name_view()) == all.take(i as int),
                forall|k: int| 0 <= k < systems@.len() ==> #[trigger] systems@[k].table().len() == 0,
            decreases pieces@.len() - i,
        {
            let name = string_from_chars(&pieces[i]);
            let system = System::new(name.as_str());
            let ghost before = systems@.map_values(|s: System| s.name_view());
            systems.push(system);
            assert(systems@.map_values(|s: System| s.name_view()) =~= before.push(system.name_view()));
            assert(all.take(i + 1) =~= all.take(i as int).push(all[i as int]));
            i = i + 1;
        }
        assert(all.take(pieces@.len() as int) =~= all);
        Route { systems }
    }

    /// The systems of the route, in order.
    pub fn systems(&self) -> (r: &Vec<System>)
        ensures
            r@ == self.systems_view(),
    {
        &self.systems
    }
}

/// What a run needs to know: the systems to visit, where to start, where to
/// end (if anywhere in particular), the kind of route and how many lookups
/// run at once.
#[derive(Debug)]
pub struct Args {
    pub route: Route,
    pub start: System,
    pub end: Option<System>,
    pub route_option: RouteOption,
    pub concurrent: usize,
}

impl Args {
    /// A builder with nothing set.
    pub fn builder() -> (r: ArgBuilder)
        ensures
            r.route_set() is None,
            r.start_set() is None,
            r.end_set() is None,
            r.route_option_set() is None,
            r.concurrent_set() is None,
    {
        ArgBuilder::new()
    }
}

/// Collects the parts of `Args` one by one.
pub struct ArgBuilder {
    route: Option<Route>,
    start: Option<System>,
    end: Option<System>,
    route_option: Option<RouteOption>,
    concurrent: Option<usize>,
}

/// The message of `build` when no route was set.
pub open spec fn route_unset_msg() -> Seq<char> {
    "'route' must be set"@
}

/// The message of `build` when no start was set.
pub open spec fn start_unset_msg() -> Seq<char> {
    "'start' must be set"@
}

impl ArgBuilder {
    pub closed spec fn route_set(&self) -> Option<Route> {
        self.route
    }

    pub closed spec fn start_set(&self) -> Option<System> {
        self.start
    }

    pub closed spec fn end_set(&self) -> Option<System> {
        self.end
    }

    pub closed spec fn route_option_set(&self) -> Option<RouteOption> {
        self.route_option
    }

    pub closed spec fn concurrent_set(&self) -> Option<usize> {
        self.concurrent
    }

    fn new() -> (r: ArgBuilder)
        ensures
            r.route_set() is None,
            r.start_set() is None,
            r.end_set() is None,
            r.route_option_set() is None,
            r.concurrent_set() is None,
    {
        ArgBuilder { route: None, start: None, end: None, route_option: None, concurrent: None }
    }

    /// The arguments, once route and start are set; an unset route option is
    /// `Fastest`, an unset concurrency `DEFAULT_PARAREL_REQUEST`.
    pub fn build(self) -> (r: Result<Args, String>)
        ensures
            self.route_set() is None ==> (r matches Err(e) && e@ == route_unset_msg()),
            self.route_set() is Some && self.start_set() is None ==> (r matches Err(e) && e@ == start_unset_msg()),
            self.route_set() is Some && self.start_set() is Some ==> (r matches Ok(a) && {
                &&& a.route == self.route_set()->0
                &&& a.start == self.start_set()->0
                &&& a.end == self.end_set()
                &&& a.route_option == match self.route_option_set() {
                    Some(o) => o,
                    None => RouteOption::Fastest,
                }
                &&& a.concurrent == match self.concurrent_set() {
                    Some(c) => c,
                    None => config::DEFAULT_PARAREL_REQUEST,
                }
            }),
    {
        if self.route.is_none() {
            return Err("'route' must be set".to_owned());
        }
        if self.start.is_none() {
            return Err("'start' must be set".to_owned());
        }
        let route_option = match self.route_option {
            Some(o) => o,
            None => RouteOption::Fastest,
        };
        let concurrent = match self.concurrent {
            Some(c) => c,
            None => config::DEFAULT_PARAREL_REQUEST,
        };
        let args = Args {
            route: self.route.unwrap(),
            start: self.start.unwrap(),
            end: self.end,
            route_option,
            concurrent,
        };
        Ok(args)
    }

    /// Sets the route from a text of names, unless the text is empty.
    pub fn set_route(&mut self, str_route: &str) -> (r: &mut Self)
        ensures
            str_route@.len() > 0 ==> (r.route_set() matches Some(route)
                && route.names() == route_names(str_route@)),
            str_route@.len() == 0 ==> r.route_set() == old(self).route_set(),
            r.start_set() == old(self).start_set(),
            r.end_set() == old(self).end_set(),
            r.route_option_set() == old(self).route_option_set(),
            r.concurrent_set() == old(self).concurrent_set(),
            *final(self) == *final(r),
    {
        if !str_route.is_empty() {
            self.route = Some(Route::new(str_route));
        }
        self
    }

    /// Sets the start system from its name, unless the name is empty.
    pub fn set_start(&mut self, str_start: &str) -> (r: &mut Self)
        ensures
            str_start@.len() > 0 ==> (r.start_set() matches Some(s)
                && s.name_view() == spec_to_uppercase(str_start@) && s.table().len() == 0),
            str_start@.len() == 0 ==> r.start_set() == old(self).start_set(),
            r.route_set() == old(self).route_set(),
            r.end_set() == old(self).end_set(),
            r.route_option_set() == old(self).route_option_set(),
            r.concurrent_set() == old(self).concurrent_set(),
            *final(self) == *final(r),
    {
        if !str_start.is_empty() {
            self.start = Some(System::new(str_start));
        }
        self
    }

    /// Sets the end system from its name, unless the name is empty.
    pub fn set_end(&mut self, str_end: &str) -> (r: &mut Self)
        ensures
            str_end@.len() > 0 ==> (r.end_set() matches Some(s)
                && s.name_view() == spec_to_uppercase(str_end@) && s.table().len() == 0),
            str_end@.len() == 0 ==> r.end_set() == old(self).end_set(),
            r.route_set() == old(self).route_set(),
            r.start_set() == old(self).start_set(),
            r.route_option_set() == old(self).route_option_set(),
            r.concurrent_set() == old(self).concurrent_set(),
            *final(self) == *final(r),
    {
        if !str_end.is_empty() {
            self.end = Some(System::new(str_end));
        }
        self
    }

    /// Sets the route option.
    pub fn set_route_option(&mut self, route_option: &RouteOption) -> (r: &mut Self)
        ensures
            r.route_option_set() == Some(*route_option),
            r.route_set() == old(self).route_set(),
            r.start_set() == old(self).start_set(),
            r.end_set() == old(self).end_set(),
            r.concurrent_set() == old(self).concurrent_set(),
            *final(self) == *final(r),
    {
        self.route_option = Some(*route_option);
        self
    }

    /// Sets how many lookups run at once.
    pub fn set_concurrent(&mut self, concurrent: usize) -> (r: &mut Self)
        ensures
            r.concurrent_set() == Some(concurrent),
            r.route_set() == old(self).route_set(),
            r.start_set() == old(self).start_set(),
            r.end_set() == old(self).end_set(),
            r.route_option_set() == old(self).route_option_set(),
            *final(self) == *final(r),
    {
        self.concurrent = Some(concurrent);
        self
    }
}

} // verus!
