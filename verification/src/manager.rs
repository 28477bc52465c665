use vstd::prelude::*;

use crate::system::System;
use crate::combinatorics::{
    arrangements_left, arrangements_of, checked_factorial_u128, factorial, is_arrangement, next_arrangement, pairs_of,
};
use crate::shortest::{
    after_registrations, lemma_after_registrations, lemma_min_length, min_length, register_step, routes_of_length,
    CurrentShortest, Registration,
};
use crate::args::{Args, Route};
use crate::cli;
use crate::pair::SystemPair;
use crate::progress::ProgressHolder;
use crate::pretty::{decimal_chars, decimal_string};

verus! {

/// No two registered systems (those whose slot is live) share a name.
pub open spec fn names_unique(s: Seq<System>, live: Seq<bool>) -> bool {
    forall|i: int, j: int| 0 <= i < s.len() && 0 <= j < s.len() && i != j && live[i] && live[j]
        ==> #[trigger] s[i].name_view() != #[trigger] s[j].name_view()
}

/// The number of live slots.
pub open spec fn live_count(live: Seq<bool>) -> nat
    decreases live.len(),
{
    if live.len() == 0 {
        0
    } else {
        live_count(live.drop_last()) + if live.last() { 1nat } else { 0nat }
    }
}

/// A live slot makes the count positive.
proof fn lemma_live_count_pos(live: Seq<bool>, i: int)
    requires
        0 <= i < live.len(),
        live[i],
    ensures
        live_count(live) >= 1,
    decreases live.len(),
{
    if i < live.len() - 1 {
        lemma_live_count_pos(live.drop_last(), i);
    }
}

/// A system as plain values: its name and its distance table.
pub type SystemEntry = (Seq<char>, Seq<(Seq<char>, u64)>);

/// A registry as plain values: every system stored so far, by slot, and
/// whether each slot still holds a registered system. A slot is given up
/// when a system of the same name is registered after it; what was stored
/// there stays, so that pairs made before still reach it.
pub type Registry = (Seq<SystemEntry>, Seq<bool>);

/// One flag per slot, and no two registered systems share a name.
pub open spec fn registry_wf(st: Registry) -> bool {
    &&& st.0.len() == st.1.len()
    &&& forall|i: int, j: int| 0 <= i < st.0.len() && 0 <= j < st.0.len() && i != j && st.1[i] && st.1[j]
        ==> #[trigger] st.0[i].0 != #[trigger] st.0[j].0
}

/// The slot of the registered system named `name`, if there is one.
pub open spec fn live_index(st: Registry, name: Seq<char>) -> Option<int> {
    if exists|i: int| 0 <= i < st.0.len() && st.1[i] && #[trigger] st.0[i].0 == name {
        Some(choose|i: int| 0 <= i < st.0.len() && st.1[i] && #[trigger] st.0[i].0 == name)
    } else {
        None
    }
}

/// Registering `e`: it is stored in a new slot, and the slot of the system of
/// the same name, if one is registered, is given up.
pub open spec fn register_entry(st: Registry, e: SystemEntry) -> Registry {
    let live = match live_index(st, e.0) {
        Some(i) => st.1.update(i, false),
        None => st.1,
    };
    (st.0.push(e), live.push(true))
}

/// Registering each of `es` in turn.
pub open spec fn register_entries(st: Registry, es: Seq<SystemEntry>) -> Registry
    decreases es.len(),
{
    if es.len() == 0 {
        st
    } else {
        register_entry(register_entries(st, es.drop_last()), es.last())
    }
}

/// In a well-formed registry the slot found for a name is the one slot that
/// is live and holds that name.
pub proof fn lemma_live_index(st: Registry, name: Seq<char>, i: int)
    requires
        registry_wf(st),
        0 <= i < st.0.len(),
        st.1[i],
        st.0[i].0 == name,
    ensures
        live_index(st, name) == Some(i),
{
    let j = choose|j: int| 0 <= j < st.0.len() && st.1[j] && #[trigger] st.0[j].0 == name;
    assert(st.0[j].0 == name);
}

/// Law (what a registration does): the registry stays well formed; the name
/// of the registered system leads to the new slot, which holds the system as
/// it was given, name and distance table; every other name leads where it led
/// before; and what the slots held before stays.
pub proof fn lemma_register_entry(st: Registry, e: SystemEntry)
    requires
        registry_wf(st),
    ensures
        registry_wf(register_entry(st, e)),
        live_index(register_entry(st, e), e.0) == Some(st.0.len() as int),
        register_entry(st, e).0[st.0.len() as int] == e,
        register_entry(st, e).0.len() == st.0.len() + 1,
        forall|k: int| 0 <= k < st.0.len() ==> #[trigger] register_entry(st, e).0[k] == st.0[k],
        forall|name: Seq<char>| name != e.0 ==> #[trigger] live_index(register_entry(st, e), name) == live_index(st, name),
{
    let n = st.0.len() as int;
    let nst = register_entry(st, e);
    let old_i = live_index(st, e.0);
    assert forall|i: int, j: int| 0 <= i < nst.0.len() && 0 <= j < nst.0.len() && i != j && nst.1[i] && nst.1[j]
        implies #[trigger] nst.0[i].0 != #[trigger] nst.0[j].0 by {
        if i == n {
            if let Some(k) = old_i {
                assert(j != k);
            }
            if nst.0[j].0 == e.0 {
                assert(st.1[j] && st.0[j].0 == e.0);
                assert(old_i is Some);
            }
        } else if j == n {
            if let Some(k) = old_i {
                assert(i != k);
            }
            if nst.0[i].0 == e.0 {
                assert(st.1[i] && st.0[i].0 == e.0);
                assert(old_i is Some);
            }
        } else {
            assert(nst.0[i] == st.0[i] && nst.0[j] == st.0[j]);
        }
    }
    lemma_live_index(nst, e.0, n);
    assert forall|name: Seq<char>| name != e.0 implies #[trigger] live_index(nst, name) == live_index(st, name) by {
        if exists|i: int| 0 <= i < st.0.len() && st.1[i] && #[trigger] st.0[i].0 == name {
            let i = choose|i: int| 0 <= i < st.0.len() && st.1[i] && #[trigger] st.0[i].0 == name;
            if let Some(k) = old_i {
                assert(i != k);
            }
            assert(nst.0[i] == st.0[i]);
            lemma_live_index(nst, name, i);
        } else {
            if exists|i: int| 0 <= i < nst.0.len() && nst.1[i] && #[trigger] nst.0[i].0 == name {
                let i = choose|i: int| 0 <= i < nst.0.len() && nst.1[i] && #[trigger] nst.0[i].0 == name;
                assert(i != n);
                assert(nst.0[i] == st.0[i]);
                assert(st.1[i]);
            }
        }
    }
}

/// Law: registering several systems in turn keeps a registry well formed.
pub proof fn lemma_register_entries(st: Registry, es: Seq<SystemEntry>)
    requires
        registry_wf(st),
    ensures
        registry_wf(register_entries(st, es)),
    decreases es.len(),
{
    if es.len() > 0 {
        lemma_register_entries(st, es.drop_last());
        lemma_register_entry(register_entries(st, es.drop_last()), es.last());
    }
}

/// The distance recorded from system `a` to system `b`.
pub open spec fn leg(s: Seq<System>, a: usize, b: usize) -> Option<u64> {
    s[a as int].distance_to(s[b as int].name_view())
}

/// The length of the walk through `nodes`, leg by leg; `None` when a leg is
/// not recorded.
pub open spec fn path_total(s: Seq<System>, nodes: Seq<usize>) -> Option<int>
    decreases nodes.len(),
{
    if nodes.len() <= 1 {
        Some(0)
    } else {
        match (path_total(s, nodes.drop_last()), leg(s, nodes[nodes.len() - 2], nodes.last())) {
            (Some(a), Some(b)) => Some(a + b),
            _ => None,
        }
    }
}

/// A length that fits a `u64`, as one.
pub open spec fn fitting(t: Option<int>) -> Option<u64> {
    match t {
        Some(v) => if v <= u64::MAX { Some(v as u64) } else { None },
        None => None,
    }
}

/// A known total of a prefix of a walk is at most the known total of the walk.
pub proof fn lemma_path_total_prefix(s: Seq<System>, nodes: Seq<usize>, k: int)
    requires
        1 <= k <= nodes.len(),
        path_total(s, nodes) is Some,
    ensures
        path_total(s, nodes.take(k)) is Some,
        path_total(s, nodes.take(k))->0 <= path_total(s, nodes)->0,
        path_total(s, nodes.take(k))->0 >= 0,
    decreases nodes.len(),
{
    if k == nodes.len() {
        assert(nodes.take(k) =~= nodes);
        lemma_path_total_nonneg(s, nodes);
    } else {
        assert(nodes.drop_last().take(k) =~= nodes.take(k));
        lemma_path_total_prefix(s, nodes.drop_last(), k);
    }
}

/// A known total is never negative.
pub proof fn lemma_path_total_nonneg(s: Seq<System>, nodes: Seq<usize>)
    requires
        path_total(s, nodes) is Some,
    ensures
        path_total(s, nodes)->0 >= 0,
    decreases nodes.len(),
{
    if nodes.len() > 1 {
        lemma_path_total_nonneg(s, nodes.drop_last());
    }
}

/// The live slots below `k` other than `start` and `end`, increasing: the
/// systems that a route visits between its two ends.
pub open spec fn middle_upto(k: nat, live: Seq<bool>, start: usize, end: Option<usize>) -> Seq<usize>
    decreases k,
{
    if k == 0 {
        Seq::empty()
    } else {
        let r = middle_upto((k - 1) as nat, live, start, end);
        let x = (k - 1) as usize;
        if live[k - 1] && x != start && end != Some(x) { r.push(x) } else { r }
    }
}

/// `middle_upto` holds each live slot below `k` but the two ends, once, in
/// increasing order.
#[verifier::spinoff_prover]
pub proof fn lemma_middle_upto(k: nat, live: Seq<bool>, start: usize, end: Option<usize>)
    requires
        k <= usize::MAX + 1,
    ensures
        middle_upto(k, live, start, end).no_duplicates(),
        forall|x: usize| middle_upto(k, live, start, end).contains(x)
            <==> (x < k && live[x as int] && x != start && end != Some(x)),
        forall|a: int| 0 <= a < middle_upto(k, live, start, end).len() ==> #[trigger] middle_upto(k, live, start, end)[a] < k,
        forall|a: int, b: int| 0 <= a < b < middle_upto(k, live, start, end).len()
            ==> middle_upto(k, live, start, end)[a] < middle_upto(k, live, start, end)[b],
    decreases k,
{
    if k > 0 {
        lemma_middle_upto((k - 1) as nat, live, start, end);
        let r = middle_upto((k - 1) as nat, live, start, end);
        let x = (k - 1) as usize;
        assert(x as int == k - 1);
        if live[k - 1] && x != start && end != Some(x) {
            assert(!r.contains(x));
            assert forall|y: usize| r.push(x).contains(y) <==> (y < k && live[y as int] && y != start && end != Some(y)) by {
                if y == x {
                    assert(r.push(x)[r.len() as int] == x);
                } else {
                    assert(r.contains(y) <==> (y < k - 1 && live[y as int] && y != start && end != Some(y)));
                    assert((y as int) != k - 1);
                    if r.push(x).contains(y) {
                        let i = choose|i: int| 0 <= i < r.push(x).len() && r.push(x)[i] == y;
                        if i < r.len() {
                            assert(r[i] == y);
                            assert(r.contains(y));
                        }
                    }
                    if r.contains(y) {
                        let i = choose|i: int| 0 <= i < r.len() && r[i] == y;
                        assert(r.push(x)[i] == y);
                    }
                }
            }
            assert forall|a: int, b: int| 0 <= a < r.push(x).len() && 0 <= b < r.push(x).len() && a != b
                implies r.push(x)[a] != r.push(x)[b] by {
                if a == r.len() {
                    assert(r.contains(r[b]));
                } else if b == r.len() {
                    assert(r.contains(r[a]));
                }
            }
            assert forall|a: int| 0 <= a < r.push(x).len() implies #[trigger] r.push(x)[a] < k by {
                if a < r.len() {
                    assert(r.push(x)[a] == r[a]);
                }
            }
            assert forall|a: int, b: int| 0 <= a < b < r.push(x).len() implies r.push(x)[a] < r.push(x)[b] by {
                assert(r.push(x)[a] == r[a]);
                if b == r.len() {
                    assert(r[a] < k - 1);
                } else {
                    assert(r.push(x)[b] == r[b]);
                }
            }
        } else {
            assert forall|y: usize| r.contains(y) <==> (y < k && live[y as int] && y != start && end != Some(y)) by {
                if y as int == k - 1 {
                    assert(y == x);
                    assert(!r.contains(x));
                }
            }
        }
    }
}

/// The walk of a route: the start, the visited systems, and the end if any.
pub open spec fn route_nodes(start: usize, end: Option<usize>, p: Seq<usize>) -> Seq<usize> {
    seq![start] + p + match end {
        Some(e) => seq![e],
        None => Seq::<usize>::empty(),
    }
}

/// The length of a route that visits `p` between the ends, when every leg is
/// recorded and the total fits a `u64`.
pub open spec fn candidate_total(s: Seq<System>, start: usize, end: Option<usize>, p: Seq<usize>) -> Option<u64> {
    fitting(path_total(s, route_nodes(start, end, p)))
}

/// The registrations made for the routes `ps`, in order: each route with a
/// known length that fits, with that length.
pub open spec fn registrations(s: Seq<System>, start: usize, end: Option<usize>, ps: Seq<Seq<usize>>) -> Seq<Registration>
    decreases ps.len(),
{
    if ps.len() == 0 {
        Seq::empty()
    } else {
        let r = registrations(s, start, end, ps.drop_last());
        match candidate_total(s, start, end, ps.last()) {
            Some(v) => r.push((ps.last(), v)),
            None => r,
        }
    }
}

/// What the registrations of distinct routes hold: each comes from one of the
/// routes with its length, each route of known length is registered, and no
/// route is registered twice.
proof fn lemma_registrations(s: Seq<System>, start: usize, end: Option<usize>, ps: Seq<Seq<usize>>)
    requires
        ps.no_duplicates(),
    ensures
        forall|j: int| 0 <= j < registrations(s, start, end, ps).len() ==> {
            &&& ps.contains(#[trigger] registrations(s, start, end, ps)[j].0)
            &&& candidate_total(s, start, end, registrations(s, start, end, ps)[j].0)
                == Some(registrations(s, start, end, ps)[j].1)
        },
        forall|i: int| 0 <= i < ps.len() && #[trigger] candidate_total(s, start, end, ps[i]) is Some
            ==> registrations(s, start, end, ps).contains((ps[i], candidate_total(s, start, end, ps[i])->0)),
        forall|j1: int, j2: int| 0 <= j1 < j2 < registrations(s, start, end, ps).len()
            ==> #[trigger] registrations(s, start, end, ps)[j1].0 != #[trigger] registrations(s, start, end, ps)[j2].0,
    decreases ps.len(),
{
    if ps.len() > 0 {
        let prev = ps.drop_last();
        lemma_registrations(s, start, end, prev);
        let r = registrations(s, start, end, prev);
        let regs = registrations(s, start, end, ps);
        let x = ps.last();
        assert forall|j: int| 0 <= j < regs.len() implies {
            &&& ps.contains(#[trigger] regs[j].0)
            &&& candidate_total(s, start, end, regs[j].0) == Some(regs[j].1)
        } by {
            if j < r.len() {
                assert(regs[j] == r[j]);
                let i = choose|i: int| 0 <= i < prev.len() && prev[i] == r[j].0;
                assert(ps[i] == prev[i]);
            } else {
                assert(ps[ps.len() - 1] == x);
            }
        }
        assert forall|i: int| 0 <= i < ps.len() && #[trigger] candidate_total(s, start, end, ps[i]) is Some
            implies regs.contains((ps[i], candidate_total(s, start, end, ps[i])->0)) by {
            if i < prev.len() {
                assert(prev[i] == ps[i]);
                let j = choose|j: int| 0 <= j < r.len() && r[j] == (prev[i], candidate_total(s, start, end, prev[i])->0);
                assert(regs[j] == r[j]);
            } else {
                assert(regs[regs.len() - 1] == (x, candidate_total(s, start, end, x)->0));
            }
        }
        assert forall|j1: int, j2: int| 0 <= j1 < j2 < regs.len()
            implies #[trigger] regs[j1].0 != #[trigger] regs[j2].0 by {
            if j2 < r.len() {
                assert(regs[j1] == r[j1] && regs[j2] == r[j2]);
            } else {
                assert(regs[j1] == r[j1]);
                let i = choose|i: int| 0 <= i < prev.len() && prev[i] == r[j1].0;
                assert(ps[i] == prev[i]);
                assert(ps[ps.len() - 1] == x);
            }
        }
    }
}

/// What `routes_of_length` keeps: routes registered with that length, each
/// of them, and each once when no route is registered twice.
proof fn lemma_routes_of_length(regs: Seq<Registration>, l: u64)
    ensures
        forall|i: int| 0 <= i < routes_of_length(regs, l).len() ==> exists|j: int|
            0 <= j < regs.len() && regs[j].0 == #[trigger] routes_of_length(regs, l)[i] && regs[j].1 == l,
        forall|r: Seq<usize>| #[trigger] regs.contains((r, l)) ==> routes_of_length(regs, l).contains(r),
        (forall|j1: int, j2: int| 0 <= j1 < j2 < regs.len() ==> #[trigger] regs[j1].0 != #[trigger] regs[j2].0)
            ==> routes_of_length(regs, l).no_duplicates(),
    decreases regs.len(),
{
    if regs.len() > 0 {
        let prev = regs.drop_last();
        lemma_routes_of_length(prev, l);
        let rp = routes_of_length(prev, l);
        let ro = routes_of_length(regs, l);
        let x = regs.last();
        assert forall|i: int| 0 <= i < ro.len() implies exists|j: int|
            0 <= j < regs.len() && regs[j].0 == #[trigger] ro[i] && regs[j].1 == l by {
            if i < rp.len() {
                assert(ro[i] == rp[i]);
                let j = choose|j: int| 0 <= j < prev.len() && prev[j].0 == rp[i] && prev[j].1 == l;
                assert(regs[j] == prev[j]);
            } else {
                assert(regs[regs.len() - 1] == x);
            }
        }
        assert forall|r: Seq<usize>| #[trigger] regs.contains((r, l)) implies ro.contains(r) by {
            let j = choose|j: int| 0 <= j < regs.len() && regs[j] == (r, l);
            if j < prev.len() {
                assert(prev[j] == regs[j]);
                assert(prev.contains((r, l)));
                let k = choose|k: int| 0 <= k < rp.len() && rp[k] == r;
                assert(ro[k] == rp[k]);
            } else {
                assert(ro[ro.len() - 1] == r);
            }
        }
        if forall|j1: int, j2: int| 0 <= j1 < j2 < regs.len() ==> #[trigger] regs[j1].0 != #[trigger] regs[j2].0 {
            assert forall|j1: int, j2: int| 0 <= j1 < j2 < prev.len() implies #[trigger] prev[j1].0 != #[trigger] prev[j2].0 by {
                assert(prev[j1] == regs[j1] && prev[j2] == regs[j2]);
            }
            if x.1 == l {
                assert forall|a: int, b: int| 0 <= a < ro.len() && 0 <= b < ro.len() && a != b implies ro[a] != ro[b] by {
                    if a < rp.len() && b < rp.len() {
                        assert(ro[a] == rp[a] && ro[b] == rp[b]);
                    } else if a < rp.len() {
                        assert(ro[a] == rp[a]);
                        let j = choose|j: int| 0 <= j < prev.len() && prev[j].0 == rp[a] && prev[j].1 == l;
                        assert(regs[j] == prev[j]);
                        assert(regs[j].0 != regs[regs.len() - 1].0);
                    } else if b < rp.len() {
                        assert(ro[b] == rp[b]);
                        let j = choose|j: int| 0 <= j < prev.len() && prev[j].0 == rp[b] && prev[j].1 == l;
                        assert(regs[j] == prev[j]);
                        assert(regs[j].0 != regs[regs.len() - 1].0);
                    }
                }
            }
        }
    }
}

/// The outcome of registering every route of `ps` in turn, when `ps` lists
/// every arrangement of `items` once: its length is the least known length of
/// an arrangement (or `u64::MAX`), and its routes are exactly the arrangements
/// of that length, each once.
pub proof fn lemma_search_outcome(s: Seq<System>, start: usize, end: Option<usize>, ps: Seq<Seq<usize>>, items: Seq<usize>)
    requires
        ps.no_duplicates(),
        forall|q: Seq<usize>| ps.contains(q) <==> is_arrangement(q, items),
    ensures
        ({
            let st = after_registrations(registrations(s, start, end, ps));
            &&& forall|p: Seq<usize>| is_arrangement(p, items) && #[trigger] candidate_total(s, start, end, p) is Some
                ==> st.1 <= candidate_total(s, start, end, p)->0
            &&& forall|i: int| 0 <= i < st.0.len() ==> is_arrangement(#[trigger] st.0[i], items)
                && candidate_total(s, start, end, st.0[i]) == Some(st.1)
            &&& forall|p: Seq<usize>| is_arrangement(p, items) && #[trigger] candidate_total(s, start, end, p) == Some(st.1)
                ==> st.0.contains(p)
            &&& st.0.no_duplicates()
            &&& st.0.len() == 0 ==> st.1 == u64::MAX
        }),
{
    let regs = registrations(s, start, end, ps);
    lemma_registrations(s, start, end, ps);
    lemma_after_registrations(regs);
    lemma_min_length(regs);
    let m = min_length(regs);
    lemma_routes_of_length(regs, m);
    let st = after_registrations(regs);
    assert forall|p: Seq<usize>| is_arrangement(p, items) && #[trigger] candidate_total(s, start, end, p) is Some
        implies st.1 <= candidate_total(s, start, end, p)->0 by {
        assert(ps.contains(p));
        let i = choose|i: int| 0 <= i < ps.len() && ps[i] == p;
        assert(candidate_total(s, start, end, ps[i]) is Some);
        let j = choose|j: int| 0 <= j < regs.len() && regs[j] == (ps[i], candidate_total(s, start, end, ps[i])->0);
        assert(m <= regs[j].1);
    }
    assert forall|i: int| 0 <= i < st.0.len() implies is_arrangement(#[trigger] st.0[i], items)
        && candidate_total(s, start, end, st.0[i]) == Some(st.1) by {
        let j = choose|j: int| 0 <= j < regs.len() && regs[j].0 == st.0[i] && regs[j].1 == m;
        assert(ps.contains(regs[j].0));
    }
    assert forall|p: Seq<usize>| is_arrangement(p, items) && #[trigger] candidate_total(s, start, end, p) == Some(st.1)
        implies st.0.contains(p) by {
        assert(ps.contains(p));
        let i = choose|i: int| 0 <= i < ps.len() && ps[i] == p;
        assert(candidate_total(s, start, end, ps[i]) is Some);
        assert(regs.contains((p, m)));
    }
    if m != u64::MAX {
        let j = choose|j: int| 0 <= j < regs.len() && #[trigger] regs[j].1 == m;
        assert(regs.contains((regs[j].0, m)));
        assert(st.0.contains(regs[j].0));
    }
}

/// Some registered system of `s` is named `name`.
pub open spec fn has_name_in(s: Seq<System>, live: Seq<bool>, name: Seq<char>) -> bool {
    exists|i: int| 0 <= i < s.len() && live[i] && #[trigger] s[i].name_view() == name
}

/// One of `pairs` joins the systems at `i` and `j`, in this order.
pub open spec fn pairs_contain(pairs: Seq<SystemPair>, i: usize, j: usize) -> bool {
    exists|k: int| 0 <= k < pairs.len() && #[trigger] pairs[k].left_view() == i && pairs[k].right_view() == j
}

/// `v` is `[i, j]` with `i < j < n`.
pub open spec fn is_index_pair(v: Seq<usize>, n: int) -> bool {
    v.len() == 2 && v[0] < v[1] && v[1] < n
}

/// The message that reports the search at the order numbered `idx`.
pub open spec fn building_msg(idx: nat) -> Seq<char> {
    "Building shortest path ( "@ + decimal_chars(idx) + " )"@
}

/// The message that reports a leg whose distance is not recorded.
pub open spec fn skip_msg(from: Seq<char>, to: Seq<char>) -> Seq<char> {
    "Distance from '"@ + from + "' to '"@ + to + "' not set. Skipping"@
}

/// The first leg between consecutive systems of `p` whose distance is not
/// recorded.
pub open spec fn missing_window(s: Seq<System>, p: Seq<usize>) -> Option<(usize, usize)>
    decreases p.len(),
{
    if p.len() < 2 {
        None
    } else {
        match missing_window(s, p.drop_last()) {
            Some(w) => Some(w),
            None => if leg(s, p[p.len() - 2], p.last()) is None { Some((p[p.len() - 2], p.last())) } else { None },
        }
    }
}

/// The first leg of the route through `p` whose distance is not recorded, in
/// the order the search checks them: from the start to the first visited
/// system, from the last visited system to the end (if any), then between
/// the visited systems in turn.
pub open spec fn first_missing_leg(s: Seq<System>, start: usize, end: Option<usize>, p: Seq<usize>) -> Option<(usize, usize)> {
    if leg(s, start, p[0]) is None {
        Some((start, p[0]))
    } else if end is Some && leg(s, p.last(), end->0) is None {
        Some((p.last(), end->0))
    } else {
        missing_window(s, p)
    }
}

/// The reports made while the routes through `routes` are searched, in
/// turn: for the route numbered `idx` (from 0, wrapping to 0 after
/// `usize::MAX`), a report of the search when `idx` is a multiple of `step`,
/// then a report of its first leg of unknown distance, if it has one.
pub open spec fn search_log(s: Seq<System>, start: usize, end: Option<usize>, routes: Seq<Seq<usize>>, step: nat) -> Seq<(u128, Seq<char>)>
    decreases routes.len(),
{
    if routes.len() == 0 {
        Seq::empty()
    } else {
        let prev = search_log(s, start, end, routes.drop_last(), step);
        let idx = ((routes.len() - 1) % (usize::MAX as int + 1)) as nat;
        let building = if idx % step == 0 { prev.push((idx as u128, building_msg(idx))) } else { prev };
        match first_missing_leg(s, start, end, routes.last()) {
            Some(w) => building.push((idx as u128, skip_msg(s[w.0 as int].name_view(), s[w.1 as int].name_view()))),
            None => building,
        }
    }
}

/// A missing leg found in a prefix of a walk is the first missing leg of
/// the whole walk.
proof fn lemma_missing_window_prefix(s: Seq<System>, p: Seq<usize>, j: int)
    requires
        0 <= j <= p.len(),
        missing_window(s, p.take(j)) is Some,
    ensures
        missing_window(s, p) == missing_window(s, p.take(j)),
    decreases p.len() - j,
{
    if j < p.len() {
        assert(p.take(j + 1).drop_last() =~= p.take(j));
        assert(p.take(j + 1).len() >= 2);
        lemma_missing_window_prefix(s, p, j + 1);
    } else {
        assert(p.take(j) =~= p);
    }
}

/// The message that reports a leg whose distance is not recorded.
fn skip_message(from: &String, to: &String) -> (r: String)
    ensures
        r@ == skip_msg(from@, to@),
{
    let mut s = String::new();
    s.append("Distance from '");
    s.append(from.as_str());
    s.append("' to '");
    s.append(to.as_str());
    s.append("' not set. Skipping");
    assert(s@ =~= skip_msg(from@, to@));
    s
}

/// The message that reports the search at the order numbered `idx`.
fn building_message(idx: usize) -> (r: String)
    ensures
        r@ == building_msg(idx as nat),
{
    let mut s = String::new();
    s.append("Building shortest path ( ");
    let digits = decimal_string(idx as u64);
    s.append(digits.as_str());
    s.append(" )");
    assert(s@ =~= building_msg(idx as nat));
    s
}

/// The order counter wraps as the count goes up by one.
proof fn lemma_count_step(k: int, idx: usize)
    requires
        k >= 0,
        idx as int == k % (usize::MAX as int + 1),
    ensures
        (if idx as int + 1 > usize::MAX { idx as int + 1 - (usize::MAX as int + 1) } else { idx as int + 1 })
            == (k + 1) % (usize::MAX as int + 1),
{
    let m = usize::MAX as int + 1;
    vstd::arithmetic::div_mod::lemma_add_mod_noop(k, 1, m);
    vstd::arithmetic::div_mod::lemma_small_mod(1, m as nat);
    if idx as int + 1 < m {
        vstd::arithmetic::div_mod::lemma_small_mod((idx as int + 1) as nat, m as nat);
    } else {
        vstd::arithmetic::div_mod::lemma_mod_self_0(m);
    }
}

/// The registered systems, at most one per name. Each system is stored in a
/// slot of its own; registering a system under a name already registered
/// stores it in a new slot and gives up the old one, whose system stays where
/// it is for the pairs made before.
pub struct SystemManager {
    systems: Vec<System>,
    live: Vec<bool>,
}

impl SystemManager {
    /// The stored systems, by slot, in registration order.
    pub closed spec fn systems(&self) -> Seq<System> {
        self.systems@
    }

    /// Whether each slot holds a registered system.
    pub closed spec fn live_view(&self) -> Seq<bool> {
        self.live@
    }

    /// The registry as plain values.
    pub closed spec fn registry(&self) -> Registry {
        (self.systems@.map_values(|s: System| s.entry()), self.live@)
    }

    /// The registry is well formed: one flag per slot, and names are unique
    /// among the registered systems.
    pub open spec fn wf(&self) -> bool {
        &&& self.live_view().len() == self.systems().len()
        &&& names_unique(self.systems(), self.live_view())
    }

    /// The slot `i` holds a registered system.
    pub open spec fn is_live(&self, i: int) -> bool {
        0 <= i < self.systems().len() && self.live_view()[i]
    }

    /// The number of registered systems.
    pub open spec fn registered_count(&self) -> nat {
        live_count(self.live_view())
    }

    /// Whether a system named `name` is registered.
    pub open spec fn has_name(&self, name: Seq<char>) -> bool {
        has_name_in(self.systems(), self.live_view(), name)
    }

    /// The registry seen slot by slot.
    pub proof fn lemma_registry(&self)
        requires
            self.wf(),
        ensures
            registry_wf(self.registry()),
            self.registry().0.len() == self.systems().len(),
            self.registry().1 == self.live_view(),
            forall|i: int| 0 <= i < self.systems().len() ==> #[trigger] self.registry().0[i] == self.systems()[i].entry(),
            forall|name: Seq<char>| #[trigger] self.has_name(name) <==> live_index(self.registry(), name) is Some,
            forall|name: Seq<char>| #[trigger] live_index(self.registry(), name) is Some
                ==> self.is_live(live_index(self.registry(), name)->0)
                && self.systems()[live_index(self.registry(), name)->0].name_view() == name,
    {
        let st = self.registry();
        assert forall|i: int| 0 <= i < self.systems().len() implies #[trigger] st.0[i] == self.systems()[i].entry() by {}
        assert forall|i: int, j: int| 0 <= i < st.0.len() && 0 <= j < st.0.len() && i != j && st.1[i] && st.1[j]
            implies #[trigger] st.0[i].0 != #[trigger] st.0[j].0 by {
            assert(st.0[i] == self.systems()[i].entry() && st.0[j] == self.systems()[j].entry());
        }
        assert forall|name: Seq<char>| #[trigger] self.has_name(name) <==> live_index(st, name) is Some by {
            if self.has_name(name) {
                let i = choose|i: int| 0 <= i < self.systems().len() && self.live_view()[i] && #[trigger] self.systems()[i].name_view() == name;
                assert(st.0[i] == self.systems()[i].entry());
                assert(st.0[i].0 == name);
            }
            if live_index(st, name) is Some {
                let i = choose|i: int| 0 <= i < st.0.len() && st.1[i] && #[trigger] st.0[i].0 == name;
                assert(st.0[i] == self.systems()[i].entry());
                assert(self.systems()[i].name_view() == name);
            }
        }
        assert forall|name: Seq<char>| #[trigger] live_index(st, name) is Some
            implies self.is_live(live_index(st, name)->0) && self.systems()[live_index(st, name)->0].name_view() == name by {
            let i = choose|i: int| 0 <= i < st.0.len() && st.1[i] && #[trigger] st.0[i].0 == name;
            assert(st.0[i] == self.systems()[i].entry());
        }
    }

    /// An empty registry.
    pub fn new() -> (r: SystemManager)
        ensures
            r.wf(),
            r.systems() == Seq::<System>::empty(),
            r.registry() == (Seq::<SystemEntry>::empty(), Seq::<bool>::empty()),
    {
        let r = SystemManager { systems: Vec::new(), live: Vec::new() };
        assert(r.registry().0 =~= Seq::<SystemEntry>::empty());
        r
    }

    /// The number of registered systems.
    pub fn len(&self) -> (r: usize)
        ensures
            r == self.registered_count(),
    {
        let mut c: usize = 0;
        let mut i: usize = 0;
        while i < self.live.len()
            invariant
                i <= self.live@.len(),
                c <= i,
                c == live_count(self.live@.take(i as int)),
            decreases self.live@.len() - i,
        {
            assert(self.live@.take(i + 1).drop_last() =~= self.live@.take(i as int));
            if self.live[i] {
                c = c + 1;
            }
            i = i + 1;
        }
        assert(self.live@.take(self.live@.len() as int) =~= self.live@);
        c
    }

    /// The system stored in slot `index`.
    pub fn system(&self, index: usize) -> (r: &System)
        requires
            index < self.systems().len(),
        ensures
            *r == self.systems()[index as int],
    {
        &self.systems[index]
    }

    /// The slot of the registered system named `name`, if there is one.
    pub fn index_of(&self, name: &String) -> (r: Option<usize>)
        requires
            self.wf(),
        ensures
            match r {
                Some(i) => self.is_live(i as int) && self.systems()[i as int].name_view() == name@,
                None => !self.has_name(name@),
            },
            r matches Some(i) ==> self.index_of_spec(name@) == Some(i as int),
            r is None ==> self.index_of_spec(name@) is None,
    {
        proof { self.lemma_registry(); }
        let mut i: usize = 0;
        while i < self.systems.len()
            invariant
                i <= self.systems@.len(),
                self.wf(),
                self.live@.len() == self.systems@.len(),
                forall|j: int| 0 <= j < i ==> !(self.live@[j] && #[trigger] self.systems@[j].name_view() == name@),
            decreases self.systems@.len() - i,
        {
            if self.live[i] && *self.systems[i].name() == *name {
                proof { self.lemma_index_of_spec(i as int, name@); }
                return Some(i);
            }
            i = i + 1;
        }
        None
    }

    /// The registered system named `name`.
    pub fn get(&self, name: &String) -> (r: &System)
        requires
            self.wf(),
            self.has_name(name@),
        ensures
            r.name_view() == name@,
            exists|i: int| self.is_live(i) && *r == self.systems()[i],
    {
        let i = self.index_of(name).unwrap();
        &self.systems[i]
    }

    /// Registers a copy of `system`: it is stored in a new slot, and the slot
    /// of the system of the same name, if one was registered, is given up.
    pub fn register_system(&mut self, system: &System)
        requires
            old(self).wf(),
        ensures
            final(self).wf(),
            final(self).registry() == register_entry(old(self).registry(), system.entry()),
            final(self).systems().len() == old(self).systems().len() + 1,
            final(self).systems().last().entry() == system.entry(),
            forall|j: int| 0 <= j < old(self).systems().len() ==> #[trigger] final(self).systems()[j] == old(self).systems()[j],
            final(self).live_view() == match old(self).index_of_spec(system.name_view()) {
                Some(i) => old(self).live_view().update(i, false).push(true),
                None => old(self).live_view().push(true),
            },
            forall|nm: Seq<char>| #[trigger] final(self).has_name(nm) <==> (old(self).has_name(nm) || nm == system.name_view()),
    {
        let copy = system.duplicate();
        let ghost before = *self;
        let ghost name = system.name_view();
        proof { before.lemma_registry(); }
        match self.index_of(system.name()) {
            Some(i) => {
                self.live.set(i, false);
            },
            None => {},
        }
        self.systems.push(copy);
        self.live.push(true);
        proof {
            let n = before.systems().len() as int;
            let st0 = before.registry();
            lemma_register_entry(st0, system.entry());
            assert(self.registry().0 =~= st0.0.push(system.entry()));
            assert(self.registry() == register_entry(st0, system.entry()));
            assert(self.systems()[n] == copy);
            assert forall|j: int| 0 <= j < n implies #[trigger] self.systems()[j] == before.systems()[j] by {}
            self.lemma_registry_of_wf_registry();
            assert forall|nm: Seq<char>| #[trigger] self.has_name(nm) <==> (before.has_name(nm) || nm == name) by {
                self.lemma_registry();
                if nm != name {
                    assert(live_index(self.registry(), nm) == live_index(st0, nm));
                } else {
                    assert(live_index(self.registry(), nm) is Some);
                }
            }
        }
    }

    /// A registry whose plain view is well formed is well formed.
    proof fn lemma_registry_of_wf_registry(&self)
        requires
            registry_wf(self.registry()),
            self.live_view().len() == self.systems().len(),
        ensures
            self.wf(),
    {
        let st = self.registry();
        assert forall|i: int, j: int| 0 <= i < self.systems().len() && 0 <= j < self.systems().len() && i != j
            && self.live_view()[i] && self.live_view()[j]
            implies #[trigger] self.systems()[i].name_view() != #[trigger] self.systems()[j].name_view() by {
            assert(st.0[i] == self.systems()[i].entry() && st.0[j] == self.systems()[j].entry());
            assert(st.0[i].0 != st.0[j].0);
        }
    }

    /// The slot of the registered system named `name`, if there is one.
    pub open spec fn index_of_spec(&self, name: Seq<char>) -> Option<int> {
        live_index(self.registry(), name)
    }

    proof fn lemma_index_of_spec(&self, i: int, name: Seq<char>)
        requires
            self.wf(),
            self.is_live(i),
            self.systems()[i].name_view() == name,
        ensures
            self.index_of_spec(name) == Some(i),
    {
        self.lemma_registry();
        assert(self.registry().0[i] == self.systems()[i].entry());
        lemma_live_index(self.registry(), name, i);
    }

    /// The number of orders in which all registered systems but one can be
    /// visited: `(n - 1)!`, or `None` if it does not fit a `u128`.
    pub fn permutation_size_hint(&self) -> (r: Option<u128>)
        requires
            self.registered_count() >= 1,
        ensures
            r == if factorial((self.registered_count() - 1) as nat) <= u128::MAX {
                Some(factorial((self.registered_count() - 1) as nat) as u128)
            } else {
                None
            },
    {
        let n = self.len();
        checked_factorial_u128((n - 1) as u128)
    }

    /// The length of the walk through `nodes`, if every leg is recorded and the
    /// total fits a `u64`.
    pub fn path_length(&self, nodes: &Vec<usize>) -> (r: Option<u64>)
        requires
            forall|i: int| 0 <= i < nodes@.len() ==> #[trigger] nodes@[i] < self.systems().len(),
        ensures
            r == fitting(path_total(self.systems(), nodes@)),
    {
        if nodes.len() <= 1 {
            return Some(0);
        }
        let mut acc: u64 = 0;
        let mut i: usize = 1;
        assert(nodes@.take(1).len() == 1);
        while i < nodes.len()
            invariant
                1 <= i <= nodes@.len(),
                forall|k: int| 0 <= k < nodes@.len() ==> #[trigger] nodes@[k] < self.systems().len(),
                path_total(self.systems(), nodes@.take(i as int)) == Some(acc as int),
            decreases nodes@.len() - i,
        {
            let a = nodes[i - 1];
            let b = nodes[i];
            let d = self.systems[a].get_distance_to(&self.systems[b]);
            let ghost pre = nodes@.take(i as int);
            let ghost ext = nodes@.take(i + 1);
            assert(ext.drop_last() =~= pre);
            assert(ext[ext.len() - 2] == a && ext.last() == b);
            match d {
                None => {
                    proof {
                        if path_total(self.systems(), nodes@) is Some {
                            lemma_path_total_prefix(self.systems(), nodes@, i + 1);
                        }
                    }
                    return None;
                },
                Some(d) => {
                    if d > u64::MAX - acc {
                        proof {
                            if path_total(self.systems(), nodes@) is Some {
                                lemma_path_total_prefix(self.systems(), nodes@, i + 1);
                            }
                        }
                        return None;
                    }
                    acc = acc + d;
                },
            }
            i = i + 1;
        }
        assert(nodes@.take(nodes@.len() as int) =~= nodes@);
        Some(acc)
    }

    /// The slots of the registered systems other than `start` and `end`,
    /// increasing.
    pub fn middle_indices(&self, start: usize, end: Option<usize>) -> (r: Vec<usize>)
        requires
            self.wf(),
        ensures
            r@ == middle_upto(self.systems().len() as nat, self.live_view(), start, end),
    {
        let mut r: Vec<usize> = Vec::new();
        let mut i: usize = 0;
        while i < self.systems.len()
            invariant
                i <= self.systems@.len(),
                self.live@.len() == self.systems@.len(),
                r@ == middle_upto(i as nat, self.live@, start, end),
            decreases self.systems@.len() - i,
        {
            if self.live[i] && i != start && !matches!(end, Some(e) if e == i) {
                r.push(i);
            }
            i = i + 1;
        }
        r
    }

    /// The length of the route that starts at `start`, visits `route` in
    /// order and ends at `end` (if any), when every leg is recorded and the
    /// total fits a `u64`.
    pub fn route_length(&self, start: usize, end: Option<usize>, route: &Vec<usize>) -> (r: Option<u64>)
        requires
            start < self.systems().len(),
            end matches Some(e) ==> e < self.systems().len(),
            forall|i: int| 0 <= i < route@.len() ==> #[trigger] route@[i] < self.systems().len(),
        ensures
            r == candidate_total(self.systems(), start, end, route@),
    {
        let mut nodes: Vec<usize> = Vec::new();
        nodes.push(start);
        let mut i: usize = 0;
        while i < route.len()
            invariant
                i <= route@.len(),
                nodes@ == seq![start] + route@.take(i as int),
            decreases route@.len() - i,
        {
            nodes.push(route[i]);
            assert(route@.take(i + 1) =~= route@.take(i as int).push(route@[i as int]));
            i = i + 1;
        }
        assert(route@.take(route@.len() as int) =~= route@);
        if let Some(e) = end {
            nodes.push(e);
        }
        assert(nodes@ =~= route_nodes(start, end, route@));
        self.path_length(&nodes)
    }

    /// Registers the route that starts at `start`, visits `route` and ends at
    /// `end` (if any) with its length, when that length is known and fits.
    pub fn register_candidate(&self, current: &mut CurrentShortest, start: usize, end: Option<usize>, route: &Vec<usize>)
        requires
            start < self.systems().len(),
            end matches Some(e) ==> e < self.systems().len(),
            forall|i: int| 0 <= i < route@.len() ==> #[trigger] route@[i] < self.systems().len(),
        ensures
            final(current).state() == match candidate_total(self.systems(), start, end, route@) {
                Some(v) => register_step(old(current).state(), route@, v),
                None => old(current).state(),
            },
    {
        if let Some(length) = self.route_length(start, end, route) {
            if current.weak_check_registerable(length) {
                current.register(route, length);
            }
        }
    }

    /// The first leg of the route from `start` through `route` to `end` (if
    /// any) whose distance is not recorded, in the order the search checks
    /// them.
    pub fn first_missing_leg(&self, start: usize, end: Option<usize>, route: &Vec<usize>) -> (r: Option<(usize, usize)>)
        requires
            start < self.systems().len(),
            end matches Some(e) ==> e < self.systems().len(),
            route@.len() > 0,
            forall|i: int| 0 <= i < route@.len() ==> #[trigger] route@[i] < self.systems().len(),
        ensures
            r == first_missing_leg(self.systems(), start, end, route@),
            r matches Some(w) ==> w.0 < self.systems().len() && w.1 < self.systems().len(),
    {
        let first = route[0];
        if self.systems[start].get_distance_to(&self.systems[first]).is_none() {
            return Some((start, first));
        }
        if let Some(e) = end {
            let last = route[route.len() - 1];
            if self.systems[last].get_distance_to(&self.systems[e]).is_none() {
                return Some((last, e));
            }
        }
        let mut i: usize = 1;
        assert(route@.take(1).len() == 1);
        while i < route.len()
            invariant
                1 <= i <= route@.len(),
                forall|k: int| 0 <= k < route@.len() ==> #[trigger] route@[k] < self.systems().len(),
                missing_window(self.systems(), route@.take(i as int)) is None,
                leg(self.systems(), start, route@[0]) is Some,
                end matches Some(e) ==> leg(self.systems(), route@.last(), e) is Some,
            decreases route@.len() - i,
        {
            let a = route[i - 1];
            let b = route[i];
            let ghost t = route@.take(i + 1);
            assert(t.drop_last() =~= route@.take(i as int));
            assert(t[t.len() - 2] == a && t.last() == b);
            if self.systems[a].get_distance_to(&self.systems[b]).is_none() {
                proof {
                    assert(leg(self.systems(), a, b) is None);
                    assert(t.len() >= 2);
                    assert(missing_window(self.systems(), t) == Some((a, b)));
                    lemma_missing_window_prefix(self.systems(), route@, i + 1);
                    assert(missing_window(self.systems(), route@) == Some((a, b)));
                }
                return Some((a, b));
            }
            i = i + 1;
        }
        assert(route@.take(route@.len() as int) =~= route@);
        None
    }

    /// The index of the system where a run starts.
    pub open spec fn start_index(&self, args: &Args) -> usize {
        self.index_of_spec(args.start.name_view())->0 as usize
    }

    /// The index of the system where a run ends, if it ends anywhere in
    /// particular.
    pub open spec fn end_index(&self, args: &Args) -> Option<usize> {
        match args.end {
            Some(e) => Some(self.index_of_spec(e.name_view())->0 as usize),
            None => None,
        }
    }

    /// `p` lists every registered system but the start and the end once.
    pub open spec fn is_candidate(&self, args: &Args, p: Seq<usize>) -> bool {
        is_arrangement(p, middle_upto(self.systems().len() as nat, self.live_view(), self.start_index(args), self.end_index(args)))
    }

    /// The length of the route from the start through `p` to the end, if
    /// every leg is recorded and the total fits a `u64`.
    pub open spec fn candidate_length(&self, args: &Args, p: Seq<usize>) -> Option<u64> {
        candidate_total(self.systems(), self.start_index(args), self.end_index(args), p)
    }

    /// `ps` lists every order in which the systems between the two ends of a
    /// run can be visited, once each.
    pub open spec fn is_search_order(&self, args: &Args, ps: Seq<Seq<usize>>) -> bool {
        &&& ps.no_duplicates()
        &&& forall|q: Seq<usize>| #[trigger] ps.contains(q) <==> self.is_candidate(args, q)
    }

    /// The step that the search reports last: `(n - 1)!` for `n` registered
    /// systems, or `u128::MAX` if that does not fit.
    pub open spec fn search_steps(&self) -> u128 {
        if factorial((self.registered_count() - 1) as nat) <= u128::MAX {
            factorial((self.registered_count() - 1) as nat) as u128
        } else {
            u128::MAX
        }
    }

    /// Searches every order in which the registered systems other than the
    /// start and the end can be visited, and keeps the shortest routes: their
    /// length is the least length of a route whose every leg is recorded (and
    /// whose total fits a `u64`), and they are exactly the routes of that
    /// length, each once. The orders are searched one after the other (in an
    /// order that is not stated): the order numbered `idx` (from 0) is
    /// reported to `progress` when `idx` is a multiple of `feedback_step`, and
    /// so is its first leg of unknown distance. A route with any leg of
    /// unknown distance is skipped, as that report says, also when the leg
    /// lies between two visited systems (it is not scored without that leg),
    /// and only its first such leg is reported. At the end `progress` shows
    /// `(n - 1)!` steps done (or `u128::MAX`) and reports that the search is
    /// over.
    pub fn build_shortest_path(&self, args: &Args, feedback_step: usize, progress: &mut ProgressHolder) -> (r: CurrentShortest)
        requires
            self.wf(),
            self.has_name(args.start.name_view()),
            args.end matches Some(e) ==> self.has_name(e.name_view()),
            exists|i: int| self.is_live(i)
                && #[trigger] self.systems()[i].name_view() != args.start.name_view()
                && (args.end matches Some(e) ==> self.systems()[i].name_view() != e.name_view()),
            feedback_step > 0,
        ensures
            forall|p: Seq<usize>| self.is_candidate(args, p) && #[trigger] self.candidate_length(args, p) is Some
                ==> r.state().1 <= self.candidate_length(args, p)->0,
            forall|i: int| 0 <= i < r.state().0.len() ==> self.is_candidate(args, #[trigger] r.state().0[i])
                && self.candidate_length(args, r.state().0[i]) == Some(r.state().1),
            forall|p: Seq<usize>| self.is_candidate(args, p) && #[trigger] self.candidate_length(args, p) == Some(r.state().1)
                ==> r.state().0.contains(p),
            r.state().0.no_duplicates(),
            r.state().0.len() == 0 ==> r.state().1 == u64::MAX,
            final(progress).total_view() == old(progress).total_view(),
            final(progress).done_view() == self.search_steps(),
            exists|ps: Seq<Seq<usize>>| #[trigger] self.is_search_order(args, ps)
                && final(progress).reports_view() == old(progress).reports_view()
                + search_log(self.systems(), self.start_index(args), self.end_index(args), ps, feedback_step as nat)
                + seq![(self.search_steps(), "Shortest path built"@)],
    {
        let start = self.index_of(args.start.name()).unwrap();
        let end: Option<usize> = match &args.end {
            Some(e) => {
                let i = self.index_of(e.name()).unwrap();
                Some(i)
            },
            None => None,
        };
        let n = self.systems.len();
        let middle = self.middle_indices(start, end);
        proof { lemma_middle_upto(n as nat, self.live_view(), start, end); }
        let ghost items = middle@;
        let mut perms = arrangements_of(middle);
        let ghost all = arrangements_left(perms);
        let mut current = CurrentShortest::new();
        let mut idx: usize = 0;
        let ghost mut k: int = 0;
        assert(all.take(0) =~= Seq::<Seq<usize>>::empty());
        proof {
            let w = choose|i: int| self.is_live(i)
                && #[trigger] self.systems()[i].name_view() != args.start.name_view()
                && (args.end matches Some(e) ==> self.systems()[i].name_view() != e.name_view());
            assert(self.systems()[w].name_view() != self.systems()[start as int].name_view());
            if let Some(e) = end {
                assert(self.systems()[w].name_view() != self.systems()[e as int].name_view());
            }
            assert(items.contains(w as usize));
            assert forall|q: Seq<usize>| all.contains(q) implies q.len() > 0 by {
                assert(is_arrangement(q, items));
            }
        }
        assert(old(progress).reports_view() + search_log(self.systems(), start, end, all.take(0), feedback_step as nat)
            =~= old(progress).reports_view());
        loop
            invariant
                0 <= k <= all.len(),
                arrangements_left(perms) == all.skip(k),
                all.no_duplicates(),
                forall|q: Seq<usize>| all.contains(q) <==> is_arrangement(q, items),
                forall|x: usize| items.contains(x) <==> (x < n && self.live_view()[x as int] && x != start && end != Some(x)),
                start < n,
                end matches Some(e) ==> e < n,
                n == self.systems().len(),
                feedback_step > 0,
                current.state() == after_registrations(registrations(self.systems(), start, end, all.take(k))),
                progress.total_view() == old(progress).total_view(),
                idx as int == k % (usize::MAX as int + 1),
                progress.reports_view() == old(progress).reports_view()
                    + search_log(self.systems(), start, end, all.take(k), feedback_step as nat),
                forall|q: Seq<usize>| all.contains(q) ==> q.len() > 0,
            ensures
                k == all.len(),
                current.state() == after_registrations(registrations(self.systems(), start, end, all.take(k))),
                progress.total_view() == old(progress).total_view(),
                progress.reports_view() == old(progress).reports_view()
                    + search_log(self.systems(), start, end, all.take(k), feedback_step as nat),
            decreases all.len() - k,
        {
            match next_arrangement(&mut perms) {
                None => {
                    break;
                },
                Some(route) => {
                    assert(all.skip(k)[0] == all[k]);
                    assert(all.contains(all[k]));
                    assert forall|i: int| 0 <= i < route@.len() implies #[trigger] route@[i] < self.systems().len() by {
                        assert(items.contains(route@[i]));
                    }
                    let ghost log_before = progress.reports_view();
                    if idx % feedback_step == 0 {
                        let msg = building_message(idx);
                        progress.feedback(idx as u128, msg.as_str());
                    }
                    let ghost log_building = progress.reports_view();
                    assert(route@.len() > 0);
                    match self.first_missing_leg(start, end, &route) {
                        Some((a, b)) => {
                            let msg = skip_message(self.systems[a].name(), self.systems[b].name());
                            progress.feedback(idx as u128, msg.as_str());
                        },
                        None => {},
                    }
                    proof {
                        let prev = search_log(self.systems(), start, end, all.take(k), feedback_step as nat);
                        let t = all.take(k + 1);
                        assert(t.drop_last() =~= all.take(k));
                        assert(t.last() == route@);
                        let building = if idx as nat % feedback_step as nat == 0 {
                            prev.push((idx as u128, building_msg(idx as nat)))
                        } else {
                            prev
                        };
                        assert(log_building =~= old(progress).reports_view() + building);
                        match first_missing_leg(self.systems(), start, end, route@) {
                            Some(w) => {
                                let m = (idx as u128, skip_msg(self.systems()[w.0 as int].name_view(), self.systems()[w.1 as int].name_view()));
                                assert(progress.reports_view() =~= old(progress).reports_view() + building.push(m));
                            },
                            None => {},
                        }
                        assert(progress.reports_view() =~= old(progress).reports_view()
                            + search_log(self.systems(), start, end, t, feedback_step as nat));
                    }
                    self.register_candidate(&mut current, start, end, &route);
                    proof { lemma_count_step(k, idx); }
                    idx = idx.wrapping_add(1);
                    proof {
                        let regs = registrations(self.systems(), start, end, all.take(k));
                        assert(all.take(k + 1).drop_last() =~= all.take(k));
                        assert(all.take(k + 1).last() == route@);
                        match candidate_total(self.systems(), start, end, route@) {
                            Some(v) => {
                                assert(regs.push((route@, v)).drop_last() =~= regs);
                            },
                            None => {},
                        }
                        assert(all.skip(k).drop_first() =~= all.skip(k + 1));
                        k = k + 1;
                    }
                },
            }
        }
        assert(all.take(k) =~= all);
        proof {
            lemma_search_outcome(self.systems(), start, end, all, items);
            assert(self.is_search_order(args, all));
            assert(self.registered_count() >= 1) by {
                lemma_live_count_pos(self.live_view(), start as int);
            }
        }
        let total_steps = match self.permutation_size_hint() {
            Some(t) => t,
            None => u128::MAX,
        };
        progress.feedback(total_steps, "Shortest path built");
        assert(self.start_index(args) == start);
        assert(self.end_index(args) == end);
        assert(progress.reports_view() =~= old(progress).reports_view()
            + search_log(self.systems(), self.start_index(args), self.end_index(args), all, feedback_step as nat)
            + seq![(self.search_steps(), "Shortest path built"@)]);
        current
    }

    /// Records `distance` both ways between the systems in slots `left` and
    /// `right`, registered or given up.
    pub fn set_distance_between(&mut self, left: usize, right: usize, distance: u64)
        requires
            left < old(self).systems().len(),
            right < old(self).systems().len(),
        ensures
            final(self).systems().len() == old(self).systems().len(),
            final(self).live_view() == old(self).live_view(),
            old(self).wf() ==> final(self).wf(),
            forall|i: int| 0 <= i < old(self).systems().len()
                ==> #[trigger] final(self).systems()[i].name_view() == old(self).systems()[i].name_view(),
            forall|i: int, k: Seq<char>| 0 <= i < old(self).systems().len()
                ==> #[trigger] final(self).systems()[i].distance_to(k) == if i == left && k == old(self).systems()[right as int].name_view() {
                    Some(distance)
                } else if i == right && k == old(self).systems()[left as int].name_view() {
                    Some(distance)
                } else {
                    old(self).systems()[i].distance_to(k)
                },
    {
        let left_name = self.systems[left].name().clone();
        let right_name = self.systems[right].name().clone();
        let mut a = self.systems[left].duplicate();
        a.set_distance_to_name(&right_name, distance);
        assert(a.name_view() == old(self).systems()[left as int].name_view());
        self.systems.set(left, a);
        let mut b = self.systems[right].duplicate();
        b.set_distance_to_name(&left_name, distance);
        self.systems.set(right, b);
        proof {
            if old(self).wf() {
                assert forall|i: int, j: int| 0 <= i < self.systems().len() && 0 <= j < self.systems().len() && i != j
                    && self.live_view()[i] && self.live_view()[j]
                    implies #[trigger] self.systems()[i].name_view() != #[trigger] self.systems()[j].name_view() by {
                    assert(self.systems()[i].name_view() == old(self).systems()[i].name_view());
                    assert(self.systems()[j].name_view() == old(self).systems()[j].name_view());
                }
            }
        }
    }

    /// Registers a copy of each of `systems`, in order.
    pub fn register_systems(&mut self, systems: &Vec<System>)
        requires
            old(self).wf(),
        ensures
            final(self).wf(),
            final(self).registry() == register_entries(old(self).registry(), systems@.map_values(|s: System| s.entry())),
            forall|nm: Seq<char>| #[trigger] final(self).has_name(nm) <==> (old(self).has_name(nm)
                || exists|i: int| 0 <= i < systems@.len() && #[trigger] systems@[i].name_view() == nm),
    {
        let ghost es = systems@.map_values(|s: System| s.entry());
        let mut i: usize = 0;
        assert(es.take(0) =~= Seq::<SystemEntry>::empty());
        while i < systems.len()
            invariant
                i <= systems@.len(),
                es == systems@.map_values(|s: System| s.entry()),
                self.wf(),
                self.registry() == register_entries(old(self).registry(), es.take(i as int)),
                forall|nm: Seq<char>| #[trigger] self.has_name(nm) <==> (old(self).has_name(nm)
                    || exists|j: int| 0 <= j < i && #[trigger] systems@[j].name_view() == nm),
            decreases systems@.len() - i,
        {
            self.register_system(&systems[i]);
            proof {
                assert(es.take(i + 1).drop_last() =~= es.take(i as int));
                assert(es.take(i + 1).last() == systems@[i as int].entry());
                assert forall|nm: Seq<char>| #[trigger] self.has_name(nm) <==> (old(self).has_name(nm)
                    || exists|j: int| 0 <= j < i + 1 && #[trigger] systems@[j].name_view() == nm) by {
                    if exists|j: int| 0 <= j < i + 1 && #[trigger] systems@[j].name_view() == nm {
                        let j = choose|j: int| 0 <= j < i + 1 && #[trigger] systems@[j].name_view() == nm;
                        if j < i {
                            assert(exists|j2: int| 0 <= j2 < i && #[trigger] systems@[j2].name_view() == nm);
                        }
                    }
                }
            }
            i = i + 1;
        }
        assert(es.take(systems@.len() as int) =~= es);
    }

    /// Registers a copy of each system of the route, in order.
    pub fn register_route(&mut self, route: &Route)
        requires
            old(self).wf(),
        ensures
            final(self).wf(),
            final(self).registry() == register_entries(old(self).registry(), route.systems_view().map_values(|s: System| s.entry())),
            forall|nm: Seq<char>| #[trigger] final(self).has_name(nm) <==> (old(self).has_name(nm)
                || exists|i: int| 0 <= i < route.systems_view().len() && #[trigger] route.systems_view()[i].name_view() == nm),
    {
        self.register_systems(route.systems());
    }

    /// A registry of the systems of a command line: those of the route in
    /// order, then the start, then the end if there is one.
    pub fn from_cli_args(args: &cli::Args) -> (r: SystemManager)
        ensures
            r.wf(),
            r.registry() == ({
                let routed = register_entries(
                    (Seq::<SystemEntry>::empty(), Seq::<bool>::empty()),
                    args.route.systems_view().map_values(|s: System| s.entry()),
                );
                let started = register_entry(routed, args.start.entry());
                match args.end {
                    Some(e) => register_entry(started, e.entry()),
                    None => started,
                }
            }),
            forall|nm: Seq<char>| #[trigger] r.has_name(nm) <==> (
                (exists|i: int| 0 <= i < args.route.systems_view().len() && #[trigger] args.route.systems_view()[i].name_view() == nm)
                || nm == args.start.name_view()
                || (args.end matches Some(e) && nm == e.name_view())),
    {
        let mut holder = SystemManager::new();
        holder.register_systems(args.route.systems());
        holder.register_system(&args.start);
        if let Some(e) = &args.end {
            holder.register_system(e);
        }
        holder
    }

    /// Whether some registered system is neither `start` nor `end` (by name):
    /// a route then has something to visit.
    pub fn has_middle_system(&self, start: &System, end: &Option<System>) -> (r: bool)
        requires
            self.wf(),
        ensures
            r == exists|i: int| self.is_live(i)
                && #[trigger] self.systems()[i].name_view() != start.name_view()
                && (end matches Some(e) ==> self.systems()[i].name_view() != e.name_view()),
    {
        let mut i: usize = 0;
        while i < self.systems.len()
            invariant
                i <= self.systems@.len(),
                self.live@.len() == self.systems@.len(),
                forall|j: int| 0 <= j < i ==> !(self.is_live(j) && #[trigger] self.systems()[j].name_view() != start.name_view()
                    && (end matches Some(e) ==> self.systems()[j].name_view() != e.name_view())),
            decreases self.systems@.len() - i,
        {
            let name = self.systems[i].name();
            let differs_from_end = match end {
                Some(e) => *name != *e.name(),
                None => true,
            };
            if self.live[i] && *name != *start.name() && differs_from_end {
                assert(self.systems()[i as int].name_view() == name@);
                return true;
            }
            i = i + 1;
        }
        false
    }

    /// Every pair of two different registered systems, once each (the lower
    /// slot on the left).
    pub fn all_inter_systems_iter(&self) -> (r: Vec<SystemPair>)
        requires
            self.wf(),
        ensures
            forall|k: int| 0 <= k < r@.len() ==> #[trigger] r@[k].left_view() < r@[k].right_view()
                && self.is_live(r@[k].left_view() as int) && self.is_live(r@[k].right_view() as int),
            forall|i: usize, j: usize| i < j && self.is_live(i as int) && self.is_live(j as int)
                ==> #[trigger] pairs_contain(r@, i, j),
            forall|k1: int, k2: int| 0 <= k1 < r@.len() && 0 <= k2 < r@.len() && k1 != k2
                ==> (#[trigger] r@[k1].left_view(), r@[k1].right_view()) != (#[trigger] r@[k2].left_view(), r@[k2].right_view()),
    {
        let n = self.systems.len();
        let indices = self.middle_indices(n, None);
        let ghost items = indices@;
        proof { lemma_middle_upto(n as nat, self.live_view(), n, None); }
        let pairs = pairs_of(indices);
        let ghost pv = pairs@.map_values(|v: Vec<usize>| v@);
        assert forall|m: int| 0 <= m < pv.len() implies is_index_pair(#[trigger] pv[m], n as int)
            && self.is_live(pv[m][0] as int) && self.is_live(pv[m][1] as int) by {
            assert(pv[m] == pairs@[m]@);
            let ij = choose|i: int, j: int| 0 <= i < j < items.len() && pairs@[m]@ == seq![items[i], items[j]];
            assert(items.contains(items[ij.0]) && items.contains(items[ij.1]));
        }
        let mut out: Vec<SystemPair> = Vec::new();
        let mut k: usize = 0;
        while k < pairs.len()
            invariant
                k <= pairs@.len(),
                n == self.systems().len(),
                pv == pairs@.map_values(|v: Vec<usize>| v@),
                forall|m: int| 0 <= m < pv.len() ==> is_index_pair(#[trigger] pv[m], n as int)
                    && self.is_live(pv[m][0] as int) && self.is_live(pv[m][1] as int),
                out@.len() == k,
                forall|m: int| 0 <= m < k ==> #[trigger] out@[m].left_view() == pv[m][0] && out@[m].right_view() == pv[m][1],
            decreases pairs@.len() - k,
        {
            let v = &pairs[k];
            assert(v@ == pv[k as int]);
            assert(is_index_pair(pv[k as int], n as int));
            let mut two: Vec<usize> = Vec::new();
            two.push(v[0]);
            two.push(v[1]);
            out.push(SystemPair::from_vec(two));
            k = k + 1;
        }
        proof {
            assert forall|m: int| 0 <= m < out@.len() implies #[trigger] out@[m].left_view() < out@[m].right_view()
                && self.is_live(out@[m].left_view() as int) && self.is_live(out@[m].right_view() as int) by {
                assert(is_index_pair(pv[m], n as int));
            }
            assert forall|i: usize, j: usize| i < j && self.is_live(i as int) && self.is_live(j as int)
                implies #[trigger] pairs_contain(out@, i, j) by {
                assert(items.contains(i) && items.contains(j));
                let a = choose|a: int| 0 <= a < items.len() && items[a] == i;
                let b = choose|b: int| 0 <= b < items.len() && items[b] == j;
                if b < a {
                    assert(items[b] < items[a]);
                }
                assert(a != b);
                assert(a < b);
                assert(pv.contains(seq![items[a], items[b]]));
                let m = choose|m: int| 0 <= m < pv.len() && pv[m] == seq![items[a], items[b]];
                assert(seq![items[a], items[b]][0] == i);
                assert(seq![items[a], items[b]][1] == j);
                assert(pv[m][0] == i && pv[m][1] == j);
                assert(out@[m].left_view() == pv[m][0]);
                assert(out@[m].right_view() == pv[m][1]);
            }
            assert forall|k1: int, k2: int| 0 <= k1 < out@.len() && 0 <= k2 < out@.len() && k1 != k2
                implies (#[trigger] out@[k1].left_view(), out@[k1].right_view()) != (#[trigger] out@[k2].left_view(), out@[k2].right_view()) by {
                assert(is_index_pair(pv[k1], n as int) && is_index_pair(pv[k2], n as int));
                assert(pv[k1] != pv[k2]);
                if out@[k1].left_view() == out@[k2].left_view() && out@[k1].right_view() == out@[k2].right_view() {
                    assert(pv[k1] =~= pv[k2]);
                }
            }
        }
        out
    }
}

} // verus!
