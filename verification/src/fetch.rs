use vstd::prelude::*;

use crate::config;

verus! {

/// The heat after a request passes a heatsink of heat `temp`: at the limit it
/// cools down to nothing first; then the request adds one unit.
pub open spec fn heat_after_request(temp: int) -> int {
    if temp >= config::REQUEST_OVERHEAT { 1 } else { temp + 1 }
}

/// The pauses a request waits out at heat `temp`: one per unit of heat when
/// the limit is reached, none before.
pub open spec fn pauses_at(temp: int) -> int {
    if temp >= config::REQUEST_OVERHEAT { temp } else { 0 }
}

/// Law: from any heat within the limit, a request leaves the heat between one
/// and the limit, so requests never heat it past the limit.
pub proof fn lemma_heat_stays_within_limit(temp: int)
    requires
        0 <= temp <= config::REQUEST_OVERHEAT,
    ensures
        1 <= heat_after_request(temp) <= config::REQUEST_OVERHEAT,
{
}

/// What a lookup does to the counters `(running, succeeded, failed)`.
pub enum FetchEvent {
    Fetching,
    Success,
    Failure,
}

/// The counters after `event`.
pub open spec fn fetch_step(counters: (int, int, int), event: FetchEvent) -> (int, int, int) {
    match event {
        FetchEvent::Fetching => (counters.0 + 1, counters.1, counters.2),
        FetchEvent::Success => (counters.0 - 1, counters.1 + 1, counters.2),
        FetchEvent::Failure => (counters.0 - 1, counters.1, counters.2 + 1),
    }
}

/// The counters after each of `events` in turn, from `counters`.
pub open spec fn fetch_run(counters: (int, int, int), events: Seq<FetchEvent>) -> (int, int, int)
    decreases events.len(),
{
    if events.len() == 0 {
        counters
    } else {
        fetch_step(fetch_run(counters, events.drop_last()), events.last())
    }
}

/// How many of `events` are `event`.
pub open spec fn event_count(events: Seq<FetchEvent>, event: FetchEvent) -> int
    decreases events.len(),
{
    if events.len() == 0 {
        0
    } else {
        event_count(events.drop_last(), event) + if events.last() == event { 1int } else { 0int }
    }
}

/// Law: counting from zero, the failed lookups are the failures, the
/// succeeded ones the successes, and the running ones the starts less those
/// two; so running, succeeded and failed together are the lookups started.
pub proof fn lemma_fetch_run(events: Seq<FetchEvent>)
    ensures
        fetch_run((0, 0, 0), events) == (
            event_count(events, FetchEvent::Fetching) - event_count(events, FetchEvent::Success)
                - event_count(events, FetchEvent::Failure),
            event_count(events, FetchEvent::Success),
            event_count(events, FetchEvent::Failure),
        ),
        fetch_run((0, 0, 0), events).0 + fetch_run((0, 0, 0), events).1 + fetch_run((0, 0, 0), events).2
            == event_count(events, FetchEvent::Fetching),
    decreases events.len(),
{
    if events.len() > 0 {
        lemma_fetch_run(events.drop_last());
    }
}

/// Law over a run of calls: when `states` are the states of a `FetchState`
/// along a run of `add_fetching`, `add_success` and `add_failure` calls made
/// after counting started from zero (each step as the calls' contracts give
/// it), the last state has counted each kind of call, and running, succeeded
/// and failed lookups together are the lookups started.
pub proof fn lemma_fetch_states(states: Seq<(int, int, int)>, events: Seq<FetchEvent>)
    requires
        states.len() == events.len() + 1,
        states[0] == (0int, 0int, 0int),
        forall|i: int| 0 <= i < events.len() ==> #[trigger] states[i + 1] == fetch_step(states[i], events[i]),
    ensures
        states.last() == fetch_run((0, 0, 0), events),
        states.last().1 == event_count(events, FetchEvent::Success),
        states.last().2 == event_count(events, FetchEvent::Failure),
        states.last().0 + states.last().1 + states.last().2 == event_count(events, FetchEvent::Fetching),
    decreases events.len(),
{
    if events.len() > 0 {
        let n = events.len() - 1;
        assert forall|i: int| 0 <= i < events.drop_last().len() implies #[trigger] states.drop_last()[i + 1]
            == fetch_step(states.drop_last()[i], events.drop_last()[i]) by {
            assert(states[i + 1] == fetch_step(states[i], events[i]));
        }
        lemma_fetch_states(states.drop_last(), events.drop_last());
        assert(states[n + 1] == fetch_step(states[n], events[n]));
    }
    lemma_fetch_run(events);
}

/// Counts requests sent in a row; once it reaches `REQUEST_OVERHEAT` the
/// fetcher has to pause once per unit of heat before it may go on.
struct Heatsink {
    pub temp: usize,
    overheated: bool,
}

impl Heatsink {
    /// Between two waits the heat stays below the limit and nothing is
    /// overheated.
    spec fn wf(&self) -> bool {
        &&& self.temp <= config::REQUEST_OVERHEAT
        &&& !self.overheated
    }

    fn new() -> (r: Heatsink)
        ensures
            r.wf(),
            r.temp == 0,
    {
        Heatsink { temp: 0, overheated: false }
    }

    /// Lets one request pass: when the heat has reached the limit it cools
    /// down to nothing first, one pause per unit of heat (the returned count
    /// of pauses, which the caller waits out); then the request adds one unit.
    fn wait(&mut self) -> (pauses: usize)
        requires
            old(self).wf(),
        ensures
            final(self).wf(),
            old(self).temp >= config::REQUEST_OVERHEAT ==> pauses == old(self).temp && final(self).temp == 1,
            old(self).temp < config::REQUEST_OVERHEAT ==> pauses == 0 && final(self).temp == old(self).temp + 1,
    {
        if !self.overheated && self.temp >= config::REQUEST_OVERHEAT {
            self.overheated = true;
        }
        let mut pauses: usize = 0;
        if self.overheated {
            loop
                invariant_except_break
                    self.overheated,
                    self.temp >= 1,
                invariant
                    self.temp + pauses == old(self).temp,
                    old(self).temp == config::REQUEST_OVERHEAT,
                ensures
                    !self.overheated,
                    self.temp == 0,
                    pauses == old(self).temp,
                decreases self.temp,
            {
                self.temp = self.temp - 1;
                pauses = pauses + 1;
                if self.temp == 0 {
                    self.overheated = false;
                    break;
                }
            }
        }
        self.temp = self.temp + 1;
        pauses
    }

    /// The heat as a percentage of the limit.
    fn temp_threshold_percentile(&self) -> (r: usize)
        requires
            self.wf(),
        ensures
            r == (100 * self.temp) / (config::REQUEST_OVERHEAT as int),
    {
        100 * self.temp / config::REQUEST_OVERHEAT
    }
}

/// The counters of a batch of route lookups.
pub struct FetchState {
    init: bool,
    heatsink: Heatsink,
    total: usize,
    fetching: usize,
    success: usize,
    failure: usize,
}

impl FetchState {
    /// The state is well formed.
    pub closed spec fn wf(&self) -> bool {
        self.heatsink.wf()
    }

    /// Whether the total has been set (counting starts then).
    pub closed spec fn init_view(&self) -> bool {
        self.init
    }

    pub closed spec fn total_view(&self) -> usize {
        self.total
    }

    pub closed spec fn fetching_view(&self) -> usize {
        self.fetching
    }

    pub closed spec fn success_view(&self) -> usize {
        self.success
    }

    pub closed spec fn failure_view(&self) -> usize {
        self.failure
    }

    /// The heat of the request heatsink.
    pub closed spec fn heat_view(&self) -> usize {
        self.heatsink.temp
    }

    /// The counters `(running, succeeded, failed)`.
    pub open spec fn counters(&self) -> (int, int, int) {
        (self.fetching_view() as int, self.success_view() as int, self.failure_view() as int)
    }

    /// Law: a well-formed state keeps its heat within the limit.
    pub proof fn lemma_heat_within_limit(&self)
        requires
            self.wf(),
        ensures
            self.heat_view() <= config::REQUEST_OVERHEAT,
    {
    }

    /// Nothing counted yet, total not set.
    pub fn new() -> (r: FetchState)
        ensures
            r.wf(),
            !r.init_view(),
            r.total_view() == 0,
            r.fetching_view() == 0,
            r.success_view() == 0,
            r.failure_view() == 0,
            r.heat_view() == 0,
    {
        FetchState { init: false, heatsink: Heatsink::new(), total: 0, fetching: 0, success: 0, failure: 0 }
    }

    /// Sets the number of lookups and starts counting.
    pub fn set_total(&mut self, total: usize)
        requires
            old(self).wf(),
        ensures
            final(self).wf(),
            final(self).init_view(),
            final(self).total_view() == total,
            final(self).fetching_view() == old(self).fetching_view(),
            final(self).success_view() == old(self).success_view(),
            final(self).failure_view() == old(self).failure_view(),
            final(self).heat_view() == old(self).heat_view(),
    {
        self.init = true;
        self.total = total;
    }

    /// A lookup starts: it passes the heatsink (the returned count of pauses
    /// is for the caller to wait out) and, once counting, is counted as
    /// running.
    pub fn add_fetching(&mut self) -> (pauses: usize)
        requires
            old(self).wf(),
            old(self).init_view() ==> old(self).fetching_view() < usize::MAX,
        ensures
            final(self).wf(),
            pauses == pauses_at(old(self).heat_view() as int),
            final(self).heat_view() == heat_after_request(old(self).heat_view() as int),
            old(self).init_view() ==> final(self).counters() == fetch_step(old(self).counters(), FetchEvent::Fetching),
            final(self).init_view() == old(self).init_view(),
            final(self).total_view() == old(self).total_view(),
            final(self).fetching_view() == if old(self).init_view() { old(self).fetching_view() + 1 } else { old(self).fetching_view() as int },
            final(self).success_view() == old(self).success_view(),
            final(self).failure_view() == old(self).failure_view(),
    {
        let pauses = self.heatsink.wait();
        if self.init {
            self.fetching = self.fetching + 1;
        }
        pauses
    }

    /// A running lookup succeeded.
    pub fn add_success(&mut self)
        requires
            old(self).wf(),
            old(self).init_view() ==> old(self).fetching_view() > 0 && old(self).success_view() < usize::MAX,
        ensures
            final(self).wf(),
            final(self).init_view() == old(self).init_view(),
            final(self).total_view() == old(self).total_view(),
            final(self).fetching_view() == if old(self).init_view() { old(self).fetching_view() - 1 } else { old(self).fetching_view() as int },
            final(self).success_view() == if old(self).init_view() { old(self).success_view() + 1 } else { old(self).success_view() as int },
            final(self).failure_view() == old(self).failure_view(),
            final(self).heat_view() == old(self).heat_view(),
            old(self).init_view() ==> final(self).counters() == fetch_step(old(self).counters(), FetchEvent::Success),
    {
        if self.init {
            self.fetching = self.fetching - 1;
            self.success = self.success + 1;
        }
    }

    /// A running lookup failed.
    pub fn add_failure(&mut self)
        requires
            old(self).wf(),
            old(self).init_view() ==> old(self).fetching_view() > 0 && old(self).failure_view() < usize::MAX,
        ensures
            final(self).wf(),
            final(self).init_view() == old(self).init_view(),
            final(self).total_view() == old(self).total_view(),
            final(self).fetching_view() == if old(self).init_view() { old(self).fetching_view() - 1 } else { old(self).fetching_view() as int },
            final(self).success_view() == old(self).success_view(),
            final(self).failure_view() == if old(self).init_view() { old(self).failure_view() + 1 } else { old(self).failure_view() as int },
            final(self).heat_view() == old(self).heat_view(),
            old(self).init_view() ==> final(self).counters() == fetch_step(old(self).counters(), FetchEvent::Failure),
    {
        if self.init {
            self.fetching = self.fetching - 1;
            self.failure = self.failure + 1;
        }
    }

    /// The number of lookups.
    pub fn total(&self) -> (r: usize)
        ensures
            r == self.total_view(),
    {
        self.total
    }

    /// The number of running lookups.
    pub fn fetching(&self) -> (r: usize)
        ensures
            r == self.fetching_view(),
    {
        self.fetching
    }

    /// The number of finished lookups, successful or not.
    pub fn done(&self) -> (r: u128)
        ensures
            r == self.success_view() + self.failure_view(),
    {
        self.success as u128 + self.failure as u128
    }

    /// The heat as a percentage of the overheat limit.
    pub fn heat_percentile(&self) -> (r: usize)
        requires
            self.wf(),
        ensures
            r == (100 * self.heat_view()) / (config::REQUEST_OVERHEAT as int),
    {
        self.heatsink.temp_threshold_percentile()
    }
}

} // verus!
