use vstd::prelude::*;

verus! {

/// How far the search for the shortest route has come: `done` steps out of
/// `total`, and the reports made so far, each the step it was made at and
/// its message, oldest first.
pub struct ProgressHolder {
    total: u128,
    done: u128,
    reports: Vec<(u128, String)>,
}

impl ProgressHolder {
    pub closed spec fn total_view(&self) -> u128 {
        self.total
    }

    pub closed spec fn done_view(&self) -> u128 {
        self.done
    }

    /// The reports not yet taken, oldest first.
    pub closed spec fn reports_view(&self) -> Seq<(u128, Seq<char>)> {
        self.reports@.map_values(|e: (u128, String)| (e.0, e.1@))
    }

    /// Nothing to do, nothing done, nothing reported.
    pub fn new() -> (r: ProgressHolder)
        ensures
            r.total_view() == 0,
            r.done_view() == 0,
            r.reports_view() == Seq::<(u128, Seq<char>)>::empty(),
    {
        let r = ProgressHolder { total: 0, done: 0, reports: Vec::new() };
        assert(r.reports_view() =~= Seq::<(u128, Seq<char>)>::empty());
        r
    }

    /// Sets the number of steps to do.
    pub fn set_total(&mut self, total: u128)
        ensures
            final(self).total_view() == total,
            final(self).done_view() == old(self).done_view(),
            final(self).reports_view() == old(self).reports_view(),
    {
        self.total = total;
    }

    /// Records that `current_step` steps are done, and reports it with `msg`.
    pub fn feedback(&mut self, current_step: u128, msg: &str)
        ensures
            final(self).done_view() == current_step,
            final(self).total_view() == old(self).total_view(),
            final(self).reports_view() == old(self).reports_view().push((current_step, msg@)),
    {
        self.done = current_step;
        self.reports.push((current_step, msg.to_owned()));
        assert(self.reports_view() =~= old(self).reports_view().push((current_step, msg@)));
    }

    /// Hands out the reports made so far, oldest first, and forgets them.
    pub fn take_reports(&mut self) -> (r: Vec<(u128, String)>)
        ensures
            r@.map_values(|e: (u128, String)| (e.0, e.1@)) == old(self).reports_view(),
            final(self).reports_view() == Seq::<(u128, Seq<char>)>::empty(),
            final(self).total_view() == old(self).total_view(),
            final(self).done_view() == old(self).done_view(),
    {
        let mut taken: Vec<(u128, String)> = Vec::new();
        std::mem::swap(&mut taken, &mut self.reports);
        assert(self.reports_view() =~= Seq::<(u128, Seq<char>)>::empty());
        taken
    }

    /// The number of steps to do.
    pub fn total(&self) -> (r: u128)
        ensures
            r == self.total_view(),
    {
        self.total
    }

    /// The number of steps done.
    pub fn done(&self) -> (r: u128)
        ensures
            r == self.done_view(),
    {
        self.done
    }
}

/// How many permutations pass between two progress reports: one two-hundredth
/// of the calculations (at least one), cut to `usize` and capped at a million.
pub fn feedback_step(calculation_count: u128) -> (r: usize)
    ensures
        r == if (if calculation_count / 200 > 1 { calculation_count / 200 } else { 1 }) as usize > 1_000_000 {
            1_000_000usize
        } else {
            (if calculation_count / 200 > 1 { calculation_count / 200 } else { 1 }) as usize
        },
{
    let per = calculation_count / 200;
    let at_least_one: u128 = if per > 1 { per } else { 1 };
    #[verifier::truncate]
    let cut = at_least_one as usize;
    if cut > 1_000_000 { 1_000_000 } else { cut }
}

} // verus!
