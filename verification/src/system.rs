use vstd::prelude::*;

use crate::text::{to_uppercase, spec_to_uppercase};

verus! {

/// The distance looked up in a table of `(name, distance)` entries: the last
/// entry whose name matches wins.
pub open spec fn lookup(table: Seq<(Seq<char>, u64)>, key: Seq<char>) -> Option<u64>
    decreases table.len(),
{
    if table.len() == 0 {
        None
    } else if table.last().0 == key {
        Some(table.last().1)
    } else {
        lookup(table.drop_last(), key)
    }
}

/// Writing `d` under `key` at the last position that holds `key` changes the
/// lookup of `key` to `d` and no other lookup.
proof fn lemma_lookup_update(table: Seq<(Seq<char>, u64)>, i: int, key: Seq<char>, d: u64, other: Seq<char>)
    requires
        0 <= i < table.len(),
        table[i].0 == key,
        forall|j: int| i < j < table.len() ==> table[j].0 != key,
    ensures
        lookup(table.update(i, (key, d)), other) == if other == key { Some(d) } else { lookup(table, other) },
    decreases table.len(),
{
    let t2 = table.update(i, (key, d));
    if i == table.len() - 1 {
        assert(t2.drop_last() =~= table.drop_last());
    } else {
        assert(t2.drop_last() =~= table.drop_last().update(i, (key, d)));
        lemma_lookup_update(table.drop_last(), i, key, d, other);
    }
}

/// Appending an entry for a key that is not in the table.
proof fn lemma_lookup_push(table: Seq<(Seq<char>, u64)>, key: Seq<char>, d: u64, other: Seq<char>)
    ensures
        lookup(table.push((key, d)), other) == if other == key { Some(d) } else { lookup(table, other) },
{
    assert(table.push((key, d)).drop_last() =~= table);
}

/// A solar system: its name (upper case) and the distances (in jumps) known
/// from it to other systems, keyed by their names.
#[derive(Debug, Clone)]
pub struct System {
    name: String,
    distance_table: Vec<(String, u64)>,
}

impl System {
    /// The table as plain values.
    pub closed spec fn table(&self) -> Seq<(Seq<char>, u64)> {
        self.distance_table@.map_values(|e: (String, u64)| (e.0@, e.1))
    }

    /// The name of the system.
    pub closed spec fn name_view(&self) -> Seq<char> {
        self.name@
    }

    /// The system as plain values: its name and its distance table.
    pub open spec fn entry(&self) -> (Seq<char>, Seq<(Seq<char>, u64)>) {
        (self.name_view(), self.table())
    }

    /// The distance recorded from this system to the system named `other`.
    pub open spec fn distance_to(&self, other: Seq<char>) -> Option<u64> {
        lookup(self.table(), other)
    }

    /// A system named after `name`, in upper case, with no distance known.
    pub fn new(name: &str) -> (s: System)
        ensures
            s.name_view() == spec_to_uppercase(name@),
            s.table().len() == 0,
            forall|k: Seq<char>| s.distance_to(k) is None,
    {
        let s = System { name: to_uppercase(name), distance_table: Vec::new() };
        assert(s.table() =~= Seq::empty());
        s
    }

    /// The name of the system.
    pub fn name(&self) -> (r: &String)
        ensures
            r@ == self.name_view(),
    {
        &self.name
    }

    /// Position of the last table entry for `key`, if any.
    fn find_entry(&self, key: &String) -> (r: Option<usize>)
        ensures
            match r {
                Some(i) => {
                    &&& i < self.table().len()
                    &&& self.table()[i as int].0 == key@
                    &&& forall|j: int| i < j < self.table().len() ==> self.table()[j].0 != key@
                },
                None => forall|j: int| 0 <= j < self.table().len() ==> self.table()[j].0 != key@,
            },
    {
        let mut i = self.distance_table.len();
        while i > 0
            invariant
                i <= self.distance_table.len(),
                forall|j: int| i <= j < self.table().len() ==> self.table()[j].0 != key@,
            decreases i,
        {
            i = i - 1;
            if self.distance_table[i].0 == *key {
                return Some(i);
            }
        }
        None
    }

    /// Records `distance` from this system to the system named `other_name`,
    /// replacing what was recorded for it before.
    pub fn set_distance_to_name(&mut self, other_name: &String, distance: u64)
        ensures
            final(self).name_view() == old(self).name_view(),
            forall|k: Seq<char>| #[trigger] final(self).distance_to(k)
                == if k == other_name@ { Some(distance) } else { old(self).distance_to(k) },
    {
        let ghost old_table = self.table();
        match self.find_entry(other_name) {
            Some(i) => {
                self.distance_table.set(i, (other_name.clone(), distance));
                assert(self.table() =~= old_table.update(i as int, (other_name@, distance)));
                assert forall|k: Seq<char>| #[trigger] self.distance_to(k)
                    == if k == other_name@ { Some(distance) } else { lookup(old_table, k) } by {
                    lemma_lookup_update(old_table, i as int, other_name@, distance, k);
                }
            },
            None => {
                self.distance_table.push((other_name.clone(), distance));
                assert(self.table() =~= old_table.push((other_name@, distance)));
                assert forall|k: Seq<char>| #[trigger] self.distance_to(k)
                    == if k == other_name@ { Some(distance) } else { lookup(old_table, k) } by {
                    lemma_lookup_push(old_table, other_name@, distance, k);
                }
            },
        }
    }

    /// Records `distance` from this system to `other`.
    pub fn set_distance_to(&mut self, other: &System, distance: u64)
        ensures
            final(self).name_view() == old(self).name_view(),
            forall|k: Seq<char>| #[trigger] final(self).distance_to(k)
                == if k == other.name_view() { Some(distance) } else { old(self).distance_to(k) },
    {
        self.set_distance_to_name(&other.name, distance);
    }

    /// The distance recorded from this system to `other`, if any.
    pub fn get_distance_to(&self, other: &System) -> (r: Option<u64>)
        ensures
            r == self.distance_to(other.name_view()),
    {
        match self.find_entry(&other.name) {
            Some(i) => {
                proof { self.lemma_lookup_last(i as int, other.name@); }
                Some(self.distance_table[i].1)
            },
            None => {
                proof { self.lemma_lookup_absent(self.table(), other.name@); }
                None
            },
        }
    }

    proof fn lemma_lookup_last(&self, i: int, key: Seq<char>)
        requires
            0 <= i < self.table().len(),
            self.table()[i].0 == key,
            forall|j: int| i < j < self.table().len() ==> self.table()[j].0 != key,
        ensures
            lookup(self.table(), key) == Some(self.table()[i].1),
    {
        lemma_lookup_found(self.table(), i, key);
    }

    proof fn lemma_lookup_absent(&self, t: Seq<(Seq<char>, u64)>, key: Seq<char>)
        requires
            forall|j: int| 0 <= j < t.len() ==> t[j].0 != key,
        ensures
            lookup(t, key) is None,
        decreases t.len(),
    {
        if t.len() > 0 {
            self.lemma_lookup_absent(t.drop_last(), key);
        }
    }

    /// An equal copy of the system.
    pub fn duplicate(&self) -> (r: System)
        ensures
            r.name_view() == self.name_view(),
            r.table() == self.table(),
    {
        let mut table: Vec<(String, u64)> = Vec::new();
        let mut i: usize = 0;
        while i < self.distance_table.len()
            invariant
                i <= self.distance_table.len(),
                table@.len() == i,
                forall|j: int| 0 <= j < i ==> #[trigger] table@[j].0@ == self.distance_table@[j].0@
                    && table@[j].1 == self.distance_table@[j].1,
            decreases self.distance_table.len() - i,
        {
            let e = &self.distance_table[i];
            let name = e.0.clone();
            table.push((name, e.1));
            i = i + 1;
        }
        let r = System { name: self.name.clone(), distance_table: table };
        assert(r.table() =~= self.table());
        r
    }
}

/// Law: distances are kept by name. Once `after` is `before` with `d`
/// recorded to `target` (what `set_distance_to` makes of it), reading the
/// distance to any system named as `target` gives `d`, and reading it to any
/// other name gives what `before` gave.
pub proof fn lemma_distance_kept_by_name(before: System, after: System, target: System, d: u64, other: System)
    requires
        forall|k: Seq<char>| #[trigger] after.distance_to(k)
            == if k == target.name_view() { Some(d) } else { before.distance_to(k) },
    ensures
        other.name_view() == target.name_view() ==> after.distance_to(other.name_view()) == Some(d),
        other.name_view() != target.name_view() ==> after.distance_to(other.name_view()) == before.distance_to(other.name_view()),
{
    assert(after.distance_to(other.name_view()) == if other.name_view() == target.name_view() { Some(d) } else { before.distance_to(other.name_view()) });
}

/// Law over a run of writes: when `states` are a system along a run of
/// `set_distance_to` calls (each step as its contract gives it), the first
/// writing `d` to the name `target` and no later one writing to that name,
/// the distance read to any system named `target` at the end is `d`.
pub proof fn lemma_distance_survives_other_writes(
    states: Seq<System>,
    names: Seq<Seq<char>>,
    distances: Seq<u64>,
    target: Seq<char>,
    d: u64,
)
    requires
        states.len() == names.len() + 1,
        distances.len() == names.len(),
        names.len() >= 1,
        names[0] == target,
        distances[0] == d,
        forall|j: int| 1 <= j < names.len() ==> #[trigger] names[j] != target,
        forall|j: int, k: Seq<char>| 0 <= j < names.len() ==> #[trigger] states[j + 1].distance_to(k)
            == if k == names[j] { Some(distances[j]) } else { states[j].distance_to(k) },
    ensures
        states.last().distance_to(target) == Some(d),
    decreases names.len(),
{
    if names.len() == 1 {
        assert(states[1].distance_to(target) == if target == names[0] { Some(distances[0]) } else { states[0].distance_to(target) });
    } else {
        let n = names.len() - 1;
        assert forall|j: int, k: Seq<char>| 0 <= j < names.drop_last().len() implies #[trigger] states.drop_last()[j + 1].distance_to(k)
            == if k == names.drop_last()[j] { Some(distances.drop_last()[j]) } else { states.drop_last()[j].distance_to(k) } by {
            assert(states[j + 1].distance_to(k) == if k == names[j] { Some(distances[j]) } else { states[j].distance_to(k) });
        }
        lemma_distance_survives_other_writes(states.drop_last(), names.drop_last(), distances.drop_last(), target, d);
        assert(states[n + 1].distance_to(target) == if target == names[n] { Some(distances[n]) } else { states[n].distance_to(target) });
    }
}

/// Two systems are the same system when their names are equal.
impl PartialEq for System {
    fn eq(&self, other: &Self) -> (r: bool) {
        self.name == other.name
    }
}

impl vstd::std_specs::cmp::PartialEqSpecImpl for System {
    open spec fn obeys_eq_spec() -> bool {
        true
    }

    open spec fn eq_spec(&self, other: &Self) -> bool {
        self.name_view() == other.name_view()
    }
}

impl Eq for System {}

/// The last entry for a key is what the lookup finds.
proof fn lemma_lookup_found(t: Seq<(Seq<char>, u64)>, i: int, key: Seq<char>)
    requires
        0 <= i < t.len(),
        t[i].0 == key,
        forall|j: int| i < j < t.len() ==> t[j].0 != key,
    ensures
        lookup(t, key) == Some(t[i].1),
    decreases t.len(),
{
    if i < t.len() - 1 {
        lemma_lookup_found(t.drop_last(), i, key);
    }
}

} // verus!
