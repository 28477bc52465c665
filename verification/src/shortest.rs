use vstd::prelude::*;

use crate::manager::SystemManager;

verus! {

/// A registration: a route (a sequence of system indices) and its length.
pub type Registration = (Seq<usize>, u64);

/// The state after registering `route` with `length`: a strictly shorter route
/// replaces all kept ones, an equally long one joins them, a longer one is
/// dropped.
pub open spec fn register_step(state: (Seq<Seq<usize>>, u64), route: Seq<usize>, length: u64) -> (Seq<Seq<usize>>, u64) {
    if length < state.1 {
        (seq![route], length)
    } else if length == state.1 {
        (state.0.push(route), state.1)
    } else {
        state
    }
}

/// Law: a registration never makes the recorded length grow, and the length
/// it leaves is the smaller of the length before and the registered one.
pub proof fn lemma_register_step_shrinks(state: (Seq<Seq<usize>>, u64), route: Seq<usize>, length: u64)
    ensures
        register_step(state, route, length).1 <= state.1,
        register_step(state, route, length).1 == if length < state.1 { length } else { state.1 },
{
}

/// The state of a fresh record: no route, and the largest length as the bound
/// to beat.
pub open spec fn empty_shortest() -> (Seq<Seq<usize>>, u64) {
    (Seq::empty(), u64::MAX)
}

/// The state after registering each of `regs`, in order, on a fresh record.
pub open spec fn after_registrations(regs: Seq<Registration>) -> (Seq<Seq<usize>>, u64)
    decreases regs.len(),
{
    if regs.len() == 0 {
        empty_shortest()
    } else {
        let prev = after_registrations(regs.drop_last());
        register_step(prev, regs.last().0, regs.last().1)
    }
}

/// The smallest registered length, or `u64::MAX` if it is smaller.
pub open spec fn min_length(regs: Seq<Registration>) -> u64
    decreases regs.len(),
{
    if regs.len() == 0 {
        u64::MAX
    } else {
        let m = min_length(regs.drop_last());
        if regs.last().1 < m { regs.last().1 } else { m }
    }
}

/// The registered routes whose length is `length`, in registration order.
pub open spec fn routes_of_length(regs: Seq<Registration>, length: u64) -> Seq<Seq<usize>>
    decreases regs.len(),
{
    if regs.len() == 0 {
        Seq::empty()
    } else {
        let rest = routes_of_length(regs.drop_last(), length);
        if regs.last().1 == length { rest.push(regs.last().0) } else { rest }
    }
}

/// `min_length` is a lower bound of every registered length and is reached
/// by one of them unless it is `u64::MAX`.
pub proof fn lemma_min_length(regs: Seq<Registration>)
    ensures
        forall|i: int| 0 <= i < regs.len() ==> min_length(regs) <= #[trigger] regs[i].1,
        min_length(regs) == u64::MAX || exists|i: int| 0 <= i < regs.len() && #[trigger] regs[i].1 == min_length(regs),
    decreases regs.len(),
{
    if regs.len() > 0 {
        lemma_min_length(regs.drop_last());
        let m = min_length(regs.drop_last());
        if min_length(regs) != u64::MAX && regs.last().1 >= m {
            let i = choose|i: int| 0 <= i < regs.drop_last().len() && #[trigger] regs.drop_last()[i].1 == m;
            assert(regs[i].1 == min_length(regs));
        }
        if min_length(regs) != u64::MAX && regs.last().1 < m {
            assert(regs[regs.len() - 1].1 == min_length(regs));
        }
        assert forall|i: int| 0 <= i < regs.len() implies min_length(regs) <= #[trigger] regs[i].1 by {
            if i < regs.len() - 1 {
                assert(regs.drop_last()[i] == regs[i]);
            }
        }
    }
}

/// No registered route is shorter than `length` gives no route of a smaller
/// length.
proof fn lemma_routes_of_length_none(regs: Seq<Registration>, length: u64)
    requires
        forall|i: int| 0 <= i < regs.len() ==> length < #[trigger] regs[i].1,
    ensures
        routes_of_length(regs, length) == Seq::<Seq<usize>>::empty(),
    decreases regs.len(),
{
    if regs.len() > 0 {
        assert forall|i: int| 0 <= i < regs.drop_last().len() implies length < #[trigger] regs.drop_last()[i].1 by {
            assert(regs.drop_last()[i] == regs[i]);
        }
        lemma_routes_of_length_none(regs.drop_last(), length);
    }
}

/// Law of the record: after any registrations, its length is the smallest
/// registered length (or `u64::MAX` if none is smaller) and its routes are
/// exactly the routes registered with that length, in registration order.
pub proof fn lemma_after_registrations(regs: Seq<Registration>)
    ensures
        after_registrations(regs) == (routes_of_length(regs, min_length(regs)), min_length(regs)),
    decreases regs.len(),
{
    if regs.len() > 0 {
        let prev = regs.drop_last();
        lemma_after_registrations(prev);
        lemma_min_length(prev);
        let m = min_length(prev);
        let x = regs.last();
        if x.1 < m {
            assert forall|i: int| 0 <= i < prev.len() implies x.1 < #[trigger] prev[i].1 by {}
            lemma_routes_of_length_none(prev, x.1);
            assert(routes_of_length(regs, x.1) =~= seq![x.0]);
        }
    }
}

/// The currently shortest routes (sequences of system indices) and their length.
pub struct CurrentShortest {
    routes: Vec<Vec<usize>>,
    length: u64,
}

/// A copy of a route.
pub fn copy_route(route: &Vec<usize>) -> (r: Vec<usize>)
    ensures
        r@ == route@,
{
    let r = route.clone();
    assert(r@ =~= route@);
    r
}

impl CurrentShortest {
    /// The kept routes.
    pub closed spec fn routes_view(&self) -> Seq<Seq<usize>> {
        self.routes@.map_values(|r: Vec<usize>| r@)
    }

    /// The kept routes and their length.
    pub open spec fn state(&self) -> (Seq<Seq<usize>>, u64) {
        (self.routes_view(), self.length_view())
    }

    /// The length of the kept routes.
    pub closed spec fn length_view(&self) -> u64 {
        self.length
    }

    /// A fresh record: no route, length `u64::MAX`.
    pub fn new() -> (r: CurrentShortest)
        ensures
            r.state() == empty_shortest(),
    {
        let r = CurrentShortest { routes: Vec::new(), length: u64::MAX };
        assert(r.routes_view() =~= Seq::empty());
        r
    }

    /// The length of the kept routes.
    pub fn len(&self) -> (r: u64)
        ensures
            r == self.state().1,
    {
        self.length
    }

    /// The length and a copy of the kept routes.
    pub fn inner(&self) -> (r: (u64, Vec<Vec<usize>>))
        ensures
            r.0 == self.state().1,
            r.1@.map_values(|v: Vec<usize>| v@) == self.state().0,
    {
        let mut out: Vec<Vec<usize>> = Vec::new();
        let mut i: usize = 0;
        while i < self.routes.len()
            invariant
                i <= self.routes@.len(),
                out@.len() == i,
                forall|j: int| 0 <= j < i ==> #[trigger] out@[j]@ == self.routes@[j]@,
            decreases self.routes@.len() - i,
        {
            out.push(copy_route(&self.routes[i]));
            i = i + 1;
        }
        assert(out@.map_values(|v: Vec<usize>| v@) =~= self.routes_view());
        (self.length, out)
    }

    /// Whether a route of length `length` would be kept by `register`.
    pub fn weak_check_registerable(&self, length: u64) -> (r: bool)
        ensures
            r == (length <= self.state().1),
    {
        length <= self.length
    }

    /// Registers `route` of length `length`.
    pub fn register(&mut self, route: &Vec<usize>, length: u64)
        ensures
            final(self).state() == register_step(old(self).state(), route@, length),
    {
        if length < self.length {
            self.routes.clear();
            self.routes.push(copy_route(route));
            self.length = length;
            assert(self.routes_view() =~= seq![route@]);
        } else if length == self.length {
            let ghost before = self.routes_view();
            self.routes.push(copy_route(route));
            assert(self.routes_view() =~= before.push(route@));
        }
    }
}

/// The shortest routes spelled with system names.
#[derive(Debug)]
pub struct StringCurrentShortest {
    pub routes: Vec<Vec<String>>,
    pub length: u64,
}

impl CurrentShortest {
    /// The kept routes with each system given by its name.
    pub fn to_named(&self, system_holder: &SystemManager) -> (r: StringCurrentShortest)
        requires
            forall|i: int, j: int| 0 <= i < self.state().0.len() && 0 <= j < self.state().0[i].len()
                ==> #[trigger] self.state().0[i][j] < system_holder.systems().len(),
        ensures
            r.length == self.state().1,
            r.routes@.len() == self.state().0.len(),
            forall|i: int| 0 <= i < r.routes@.len() ==> #[trigger] r.routes@[i]@.len() == self.state().0[i].len(),
            forall|i: int, j: int| 0 <= i < r.routes@.len() && 0 <= j < r.routes@[i]@.len()
                ==> #[trigger] r.routes@[i]@[j]@ == system_holder.systems()[self.state().0[i][j] as int].name_view(),
    {
        let mut routes: Vec<Vec<String>> = Vec::new();
        let mut i: usize = 0;
        while i < self.routes.len()
            invariant
                i <= self.routes@.len(),
                self.routes_view() == self.state().0,
                forall|a: int, b: int| 0 <= a < self.state().0.len() && 0 <= b < self.state().0[a].len()
                    ==> #[trigger] self.state().0[a][b] < system_holder.systems().len(),
                routes@.len() == i,
                forall|a: int| 0 <= a < i ==> #[trigger] routes@[a]@.len() == self.state().0[a].len(),
                forall|a: int, b: int| 0 <= a < i && 0 <= b < routes@[a]@.len()
                    ==> #[trigger] routes@[a]@[b]@ == system_holder.systems()[self.state().0[a][b] as int].name_view(),
            decreases self.routes@.len() - i,
        {
            let route = &self.routes[i];
            assert(route@ == self.state().0[i as int]);
            let mut names: Vec<String> = Vec::new();
            let mut j: usize = 0;
            while j < route.len()
                invariant
                    j <= route@.len(),
                    route@ == self.state().0[i as int],
                    forall|b: int| 0 <= b < route@.len() ==> #[trigger] route@[b] < system_holder.systems().len(),
                    names@.len() == j,
                    forall|b: int| 0 <= b < j ==> #[trigger] names@[b]@ == system_holder.systems()[route@[b] as int].name_view(),
                decreases route@.len() - j,
            {
                names.push(system_holder.system(route[j]).name().clone());
                j = j + 1;
            }
            routes.push(names);
            i = i + 1;
        }
        StringCurrentShortest { routes, length: self.length }
    }
}

/// Law: `weak_check_registerable` holds of a length exactly when registering a
/// route of that length changes the record.
pub proof fn lemma_weak_check_iff_register_changes(state: (Seq<Seq<usize>>, u64), route: Seq<usize>, length: u64)
    ensures
        (length <= state.1) <==> register_step(state, route, length) != state,
{
    if length == state.1 {
        assert(register_step(state, route, length).0.len() == state.0.len() + 1);
    }
}

} // verus!
