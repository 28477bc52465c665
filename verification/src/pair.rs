use vstd::prelude::*;

use crate::manager::SystemManager;
use crate::system::System;

verus! {

/// Two systems of a `SystemManager`, by their slots.
pub struct SystemPair {
    system1: usize,
    system2: usize,
}

impl SystemPair {
    pub closed spec fn left_view(&self) -> usize {
        self.system1
    }

    pub closed spec fn right_view(&self) -> usize {
        self.system2
    }

    /// The pair of the registered systems named `system1_name` and
    /// `system2_name`.
    pub fn from_name(system_holder: &SystemManager, system1_name: &String, system2_name: &String) -> (r: SystemPair)
        requires
            system_holder.wf(),
            system_holder.has_name(system1_name@),
            system_holder.has_name(system2_name@),
        ensures
            r.left_view() < system_holder.systems().len(),
            r.right_view() < system_holder.systems().len(),
            system_holder.systems()[r.left_view() as int].name_view() == system1_name@,
            system_holder.systems()[r.right_view() as int].name_view() == system2_name@,
            system_holder.is_live(r.left_view() as int),
            system_holder.is_live(r.right_view() as int),
            system_holder.index_of_spec(system1_name@) == Some(r.left_view() as int),
            system_holder.index_of_spec(system2_name@) == Some(r.right_view() as int),
    {
        let a = system_holder.index_of(system1_name).unwrap();
        let b = system_holder.index_of(system2_name).unwrap();
        SystemPair { system1: a, system2: b }
    }

    /// The pair of the two indices of `systems`.
    pub fn from_vec(systems: Vec<usize>) -> (r: SystemPair)
        requires
            systems@.len() == 2,
        ensures
            r.left_view() == systems@[0],
            r.right_view() == systems@[1],
    {
        SystemPair { system1: systems[0], system2: systems[1] }
    }

    /// The index of the first system.
    pub fn left(&self) -> (r: usize)
        ensures
            r == self.left_view(),
    {
        self.system1
    }

    /// The index of the second system.
    pub fn right(&self) -> (r: usize)
        ensures
            r == self.right_view(),
    {
        self.system2
    }

    /// The first system.
    pub fn left_rlock<'a>(&self, system_holder: &'a SystemManager) -> (r: &'a System)
        requires
            self.left_view() < system_holder.systems().len(),
        ensures
            *r == system_holder.systems()[self.left_view() as int],
    {
        system_holder.system(self.system1)
    }

    /// The second system.
    pub fn right_rlock<'a>(&self, system_holder: &'a SystemManager) -> (r: &'a System)
        requires
            self.right_view() < system_holder.systems().len(),
        ensures
            *r == system_holder.systems()[self.right_view() as int],
    {
        system_holder.system(self.system2)
    }

    /// Records `distance` from each system of the pair to the other.
    pub fn set_distance(&self, system_holder: &mut SystemManager, distance: u64)
        requires
            self.left_view() < old(system_holder).systems().len(),
            self.right_view() < old(system_holder).systems().len(),
        ensures
            final(system_holder).systems().len() == old(system_holder).systems().len(),
            final(system_holder).live_view() == old(system_holder).live_view(),
            old(system_holder).wf() ==> final(system_holder).wf(),
            forall|i: int| 0 <= i < old(system_holder).systems().len()
                ==> #[trigger] final(system_holder).systems()[i].name_view() == old(system_holder).systems()[i].name_view(),
            final(system_holder).systems()[self.left_view() as int].distance_to(
                old(system_holder).systems()[self.right_view() as int].name_view()) == Some(distance),
            final(system_holder).systems()[self.right_view() as int].distance_to(
                old(system_holder).systems()[self.left_view() as int].name_view()) == Some(distance),
            forall|i: int, k: Seq<char>| 0 <= i < old(system_holder).systems().len()
                && !(i == self.left_view() && k == old(system_holder).systems()[self.right_view() as int].name_view())
                && !(i == self.right_view() && k == old(system_holder).systems()[self.left_view() as int].name_view())
                ==> #[trigger] final(system_holder).systems()[i].distance_to(k) == old(system_holder).systems()[i].distance_to(k),
    {
        system_holder.set_distance_between(self.system1, self.system2, distance);
    }

    /// `( LEFT : RIGHT )`
    pub fn try_to_string(&self, system_holder: &SystemManager) -> (r: String)
        requires
            self.left_view() < system_holder.systems().len(),
            self.right_view() < system_holder.systems().len(),
        ensures
            r@ == seq!['(', ' '] + system_holder.systems()[self.left_view() as int].name_view()
                + seq![' ', ':', ' '] + system_holder.systems()[self.right_view() as int].name_view()
                + seq![' ', ')'],
    {
        let mut s = String::new();
        proof {
            reveal_strlit("( ");
            reveal_strlit(" : ");
            reveal_strlit(" )");
        }
        s.append("( ");
        s.append(self.left_rlock(system_holder).name().as_str());
        s.append(" : ");
        s.append(self.right_rlock(system_holder).name().as_str());
        s.append(" )");
        s
    }
}

} // verus!
