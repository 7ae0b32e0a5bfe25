use vstd::prelude::*;

use crate::tally::{merge_order_irrelevant, merged, Tally};

verus! {

/// What was read from one repository that opened.
pub struct RepoOutcome {
    /// The commit counts of the repository (see `count_authors`), or `None`
    /// where HEAD or the walk failed.
    pub counts: Option<Tally>,
    /// The URL of the remote named "origin", where there is one.
    pub origin: Option<String>,
}

/// The totals of `before` after one repository's outcome is merged in.
pub open spec fn totals_after(before: Map<Seq<char>, nat>, o: RepoOutcome) -> Map<Seq<char>, nat> {
    match o.counts {
        Some(t) => merged(before, t@),
        None => before,
    }
}

/// The origin list `before` after one repository's outcome is merged in.
pub open spec fn origins_after(before: Seq<Seq<char>>, o: RepoOutcome) -> Seq<Seq<char>> {
    match o.origin {
        Some(url) => before.push(url@),
        None => before,
    }
}

/// The commit totals do not depend on the order in which two repositories'
/// outcomes are merged: running over the same repositories again, with tasks
/// finishing in another order, gives the same totals.
pub proof fn absorb_order_irrelevant(t: Map<Seq<char>, nat>, o1: RepoOutcome, o2: RepoOutcome)
    ensures
        totals_after(totals_after(t, o1), o2) == totals_after(totals_after(t, o2), o1),
{
    match (o1.counts, o2.counts) {
        (Some(t1), Some(t2)) => {
            merge_order_irrelevant(t, t1@, t2@);
        },
        _ => {},
    }
}

/// A repository whose commits could not be walked adds no counts, and its
/// origin URL, where it has one, is still recorded.
pub proof fn failed_walk_keeps_origin(
    t: Map<Seq<char>, nat>,
    l: Seq<Seq<char>>,
    o: RepoOutcome,
)
    requires
        o.counts.is_none(),
    ensures
        totals_after(t, o) == t,
        o.origin.is_some() ==> origins_after(l, o) == l.push(o.origin.unwrap()@),
{
}

/// Commit totals and origin URLs gathered over all repositories.
pub struct Report {
    totals: Tally,
    origins: Vec<String>,
}

impl Report {
    pub closed spec fn wf(&self) -> bool {
        self.totals.wf()
    }

    /// Commit counts by identity.
    pub closed spec fn totals(&self) -> Map<Seq<char>, nat> {
        self.totals@
    }

    /// Origin URLs, in the order in which they were merged in.
    pub closed spec fn origin_list(&self) -> Seq<Seq<char>> {
        self.origins@.map_values(|u: String| u@)
    }

    /// A report with no counts and no origins.
    pub fn new() -> (r: Report)
        ensures
            r.wf(),
            r.totals() == Map::<Seq<char>, nat>::empty(),
            r.origin_list() == Seq::<Seq<char>>::empty(),
    {
        let r = Report { totals: Tally::new(), origins: Vec::new() };
        assert(r.origin_list() =~= Seq::<Seq<char>>::empty());
        r
    }

    /// Merges one repository's outcome: its commit counts, where its walk
    /// succeeded, and its origin URL, where it has one, each independently.
    pub fn absorb(&mut self, outcome: RepoOutcome)
        requires
            old(self).wf(),
            outcome.counts matches Some(t) ==> t.wf(),
        ensures
            final(self).wf(),
            final(self).totals() == totals_after(old(self).totals(), outcome),
            final(self).origin_list() == origins_after(old(self).origin_list(), outcome),
    {
        let ghost o = outcome;
        let RepoOutcome { counts, origin } = outcome;
        match counts {
            Some(local) => {
                self.totals.merge(&local);
            },
            None => {},
        }
        match origin {
            Some(url) => {
                self.origins.push(url);
                assert(self.origin_list() =~= origins_after(old(self).origin_list(), o));
            },
            None => {
                assert(self.origin_list() =~= origins_after(old(self).origin_list(), o));
            },
        }
    }

    /// The count of `key` over all repositories merged so far.
    pub fn count_of(&self, key: &str) -> (r: u64)
        requires
            self.wf(),
        ensures
            r as nat == crate::tally::count_in(self.totals(), key@),
    {
        self.totals.count_of(key)
    }

    /// Identities with their totals, from the largest count down.
    pub fn ranked(&self) -> (r: Vec<(String, u64)>)
        requires
            self.wf(),
        ensures
            r@.len() == self.totals().dom().len(),
            forall|p: int|
                0 <= p < r@.len() ==> self.totals().contains_key(#[trigger] r@[p].0@)
                    && self.totals()[r@[p].0@] == r@[p].1 as nat,
            forall|p: int, q: int| 0 <= p < q < r@.len() ==> r@[p].0@ != r@[q].0@,
            forall|p: int, q: int| 0 <= p < q < r@.len() ==> r@[p].1 >= r@[q].1,
    {
        self.totals.ranked()
    }

    /// The origin URLs, in the order in which they were merged in.
    pub fn origins(&self) -> (r: &Vec<String>)
        ensures
            r@.map_values(|u: String| u@) == self.origin_list(),
    {
        &self.origins
    }
}

} // verus!
