//! The contract a snapshot type meets to be watched, and the decision step
//! of the poll loop that owns the previous snapshot.

use crate::ranking::{changed_subset, Ranking};
use crate::tournaments::{
    diff_model, single_ruleset, tournaments_diff, TournamentStatuses,
    Tournaments,
};
use vstd::prelude::*;

verus! {

/// A snapshot type that a watcher can compare and store.
pub trait WatchableData: Sized {
    /// What a comparison reports.
    type Diff;

    /// What a snapshot must meet to be compared.
    spec fn well_formed(&self) -> bool;

    /// Whether `diff` is what comparing `self` with `new` reports.
    spec fn notify_spec(&self, new: &Self, diff: Option<Self::Diff>) -> bool;

    /// The stored snapshot after `new` was handed to `update`.
    spec fn update_spec(self, new: Self) -> Self;

    /// The change to report from `self` to `new`, if any.
    fn should_notify(&self, new: &Self) -> (r: Option<Self::Diff>)
        requires
            self.well_formed(),
            new.well_formed(),
        ensures
            self.notify_spec(new, r),
    ;

    /// Stores `new` in place of `self`.
    fn update(&mut self, new: Self)
        requires
            old(self).well_formed(),
            new.well_formed(),
        ensures
            *final(self) == old(self).update_spec(new),
            final(self).well_formed(),
    ;
}

impl WatchableData for Tournaments {
    type Diff = TournamentStatuses;

    open spec fn well_formed(&self) -> bool {
        single_ruleset(self@)
    }

    open spec fn notify_spec(&self, new: &Self, diff: Option<TournamentStatuses>) -> bool {
        match diff {
            None => diff_model(self@, new@).len() == 0,
            Some(d) => d@ == diff_model(self@, new@) && d@.len() > 0,
        }
    }

    open spec fn update_spec(self, new: Self) -> Self {
        new
    }

    fn should_notify(&self, new: &Self) -> (r: Option<TournamentStatuses>) {
        let diff = tournaments_diff(self, new);
        if diff.0.len() == 0 {
            None
        } else {
            Some(diff)
        }
    }

    fn update(&mut self, new: Self) {
        *self = new;
    }
}

impl WatchableData for Ranking {
    type Diff = Ranking;

    open spec fn well_formed(&self) -> bool {
        true
    }

    open spec fn notify_spec(&self, new: &Self, diff: Option<Ranking>) -> bool {
        match diff {
            None => changed_subset(self@) == changed_subset(new@),
            Some(d) => changed_subset(self@) != changed_subset(new@) && d@ == new@,
        }
    }

    open spec fn update_spec(self, new: Self) -> Self {
        new
    }

    fn should_notify(&self, new: &Self) -> (r: Option<Ranking>) {
        if *self == *new {
            None
        } else {
            Some(new.duplicate())
        }
    }

    fn update(&mut self, new: Self) {
        *self = new;
    }
}

/// A stored snapshot that may be absent: nothing was fetched yet, or the
/// fetch failed.
impl<T: WatchableData> WatchableData for Option<T> {
    type Diff = T::Diff;

    open spec fn well_formed(&self) -> bool {
        match self {
            Some(t) => t.well_formed(),
            None => true,
        }
    }

    open spec fn notify_spec(&self, new: &Self, diff: Option<T::Diff>) -> bool {
        match (self, new) {
            (Some(o), Some(n)) => o.notify_spec(n, diff),
            _ => diff is None,
        }
    }

    open spec fn update_spec(self, new: Self) -> Self {
        match (self, new) {
            (Some(o), Some(n)) => Some(o.update_spec(n)),
            (Some(o), None) => Some(o),
            (None, n) => n,
        }
    }

    fn should_notify(&self, new: &Self) -> (r: Option<T::Diff>) {
        match (self, new) {
            (Some(o), Some(n)) => o.should_notify(n),
            _ => None,
        }
    }

    fn update(&mut self, new: Self) {
        match new {
            None => {},
            Some(n) => match self {
                Some(o) => o.update(n),
                None => *self = Some(n),
            },
        }
    }
}

/// Interval between two polls of a watched source, in seconds.
pub const DATA_UPDATE_INTERVAL_SECS: u64 = 600;

/// One watched source: the last snapshot fetched, the notifier that receives
/// each change and the function that fetches the next snapshot.
pub struct DataWatcher<T, F, H> {
    previous_data: Option<T>,
    update_notifier: F,
    get_next: H,
}

impl<T: WatchableData, F, H> DataWatcher<T, F, H> {
    /// The snapshot stored now.
    pub closed spec fn previous_spec(&self) -> Option<T> {
        self.previous_data
    }

    pub closed spec fn notifier_spec(&self) -> F {
        self.update_notifier
    }

    pub closed spec fn fetcher_spec(&self) -> H {
        self.get_next
    }

    /// What the poll loop keeps true of its state.
    pub open spec fn wf(&self) -> bool {
        self.previous_spec().well_formed()
    }

    /// A watcher that has not fetched anything yet.
    pub fn new(update_notifier: F, get_next: H) -> (r: Self)
        ensures
            r.previous_spec() is None,
            r.notifier_spec() == update_notifier,
            r.fetcher_spec() == get_next,
            r.wf(),
    {
        DataWatcher { previous_data: None, update_notifier, get_next }
    }

    /// The snapshot stored now.
    pub fn previous(&self) -> (r: &Option<T>)
        ensures
            *r == self.previous_spec(),
    {
        &self.previous_data
    }

    /// The notifier that receives each change.
    pub fn notifier(&self) -> (r: &F)
        ensures
            *r == self.notifier_spec(),
    {
        &self.update_notifier
    }

    /// The function that fetches the next snapshot.
    pub fn fetcher(&self) -> (r: &H)
        ensures
            *r == self.fetcher_spec(),
    {
        &self.get_next
    }

    /// One poll cycle once the fetch has returned: the change to hand to the
    /// notifier, if any, after which the fetched snapshot is stored. A failed
    /// fetch reports nothing and keeps the stored snapshot.
    pub fn handle_fetch<E>(&mut self, fetched: Result<T, E>) -> (r: Option<T::Diff>)
        requires
            old(self).wf(),
            match fetched {
                Ok(t) => t.well_formed(),
                Err(_) => true,
            },
        ensures
            final(self).wf(),
            final(self).notifier_spec() == old(self).notifier_spec(),
            final(self).fetcher_spec() == old(self).fetcher_spec(),
            match fetched {
                Ok(t) => {
                    &&& old(self).previous_spec().notify_spec(&Some(t), r)
                    &&& final(self).previous_spec() == old(self).previous_spec().update_spec(
                        Some(t),
                    )
                },
                Err(_) => r is None && final(self).previous_spec() == old(self).previous_spec(),
            },
    {
        let new_data = match fetched {
            Ok(t) => Some(t),
            Err(_) => None,
        };
        let diff = self.previous_data.should_notify(&new_data);
        self.previous_data.update(new_data);
        diff
    }
}

/// A failed fetch leaves the stored snapshot as it was and reports nothing.
pub proof fn lemma_failed_fetch_keeps_previous<T: WatchableData>(previous: Option<T>)
    ensures
        previous.notify_spec(&None, None),
        previous.update_spec(None) == previous,
{
}

/// Two rankings whose changed subsets agree give the watcher nothing to
/// report, whatever their unchanged rows hold.
pub proof fn lemma_ranking_equal_changes_silent(before: Ranking, new: Ranking)
    requires
        changed_subset(before@) == changed_subset(new@),
    ensures
        before.notify_spec(&new, None),
        forall|d: Option<Ranking>| before.notify_spec(&new, d) ==> d is None,
{
}

} // verus!
