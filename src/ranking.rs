//! Player ranking snapshots, whose rows come pre-classified by change, and
//! their changed subset.

use crate::numbers::{parse_i32, parsed_i32};
use vstd::prelude::*;
use vstd::std_specs::cmp::PartialEqSpec;

verus! {

/// How a value of a ranking row moved since the previous rendering.
#[derive(Clone, Copy, Debug, PartialEq, Eq, Structural)]
pub enum PositionChangeInfo {
    New,
    Diff(i32),
}

pub open spec fn marker_changed(p: PositionChangeInfo) -> bool {
    p != PositionChangeInfo::Diff(0)
}

impl PositionChangeInfo {
    /// Anything but an unchanged value.
    pub fn has_changed(&self) -> (r: bool)
        ensures
            r == marker_changed(*self),
    {
        !matches!(self, PositionChangeInfo::Diff(0))
    }
}

/// One row of the ranking table.
#[derive(Clone, Debug, PartialEq, Eq)]
pub struct RankingEntry {
    pub pos: u32,
    pub pos_diff: PositionChangeInfo,
    pub name: String,
    pub points: u32,
    pub points_diff: PositionChangeInfo,
}

/// Mathematical model of a [`RankingEntry`].
pub struct RankingEntryModel {
    pub pos: u32,
    pub pos_diff: PositionChangeInfo,
    pub name: Seq<char>,
    pub points: u32,
    pub points_diff: PositionChangeInfo,
}

impl View for RankingEntry {
    type V = RankingEntryModel;

    open spec fn view(&self) -> RankingEntryModel {
        RankingEntryModel {
            pos: self.pos,
            pos_diff: self.pos_diff,
            name: self.name@,
            points: self.points,
            points_diff: self.points_diff,
        }
    }
}

pub open spec fn entry_changed(e: RankingEntryModel) -> bool {
    marker_changed(e.points_diff) || marker_changed(e.pos_diff)
}

impl RankingEntry {
    /// Whether the row's position or its points moved.
    pub fn has_changed(&self) -> (r: bool)
        ensures
            r == entry_changed(self@),
    {
        self.points_diff.has_changed() || self.pos_diff.has_changed()
    }
}

/// A rendering of the ranking table, in table order.
#[derive(Clone, Debug)]
pub struct Ranking(pub Vec<RankingEntry>);

pub open spec fn ranking_entries_view(v: Seq<RankingEntry>) -> Seq<RankingEntryModel> {
    v.map_values(|e: RankingEntry| e@)
}

impl View for Ranking {
    type V = Seq<RankingEntryModel>;

    open spec fn view(&self) -> Seq<RankingEntryModel> {
        ranking_entries_view(self.0@)
    }
}

/// The rows whose position or points moved, in table order.
pub open spec fn changed_subset(s: Seq<RankingEntryModel>) -> Seq<RankingEntryModel> {
    s.filter(|e: RankingEntryModel| entry_changed(e))
}

pub open spec fn ranking_refs_view(v: Seq<&RankingEntry>) -> Seq<RankingEntryModel> {
    v.map_values(|e: &RankingEntry| e@)
}

fn same_ranking_entry(a: &RankingEntry, b: &RankingEntry) -> (r: bool)
    ensures
        r == (a@ == b@),
{
    a.pos == b.pos && a.pos_diff == b.pos_diff && a.name == b.name && a.points == b.points
        && a.points_diff == b.points_diff
}

pub(crate) fn copy_ranking_entry(e: &RankingEntry) -> (r: RankingEntry)
    ensures
        r@ == e@,
{
    RankingEntry {
        pos: e.pos,
        pos_diff: e.pos_diff,
        name: e.name.clone(),
        points: e.points,
        points_diff: e.points_diff,
    }
}

impl Ranking {
    /// The rows whose position or points moved, in table order.
    pub fn get_changed(&self) -> (r: Vec<&RankingEntry>)
        ensures
            ranking_refs_view(r@) == changed_subset(self@),
    {
        let ghost s = self@;
        let mut changed: Vec<&RankingEntry> = Vec::new();
        let mut i: usize = 0;
        while i < self.0.len()
            invariant
                0 <= i <= self.0@.len(),
                s == self@,
                ranking_refs_view(changed@) == changed_subset(s.take(i as int)),
            decreases self.0@.len() - i,
        {
            let ghost t = s.take(i as int + 1);
            assert(t.drop_last() =~= s.take(i as int));
            assert(t.last() == s[i as int]);
            reveal(Seq::filter);
            assert(changed_subset(t) == if entry_changed(t.last()) {
                changed_subset(t.drop_last()).push(t.last())
            } else {
                changed_subset(t.drop_last())
            });
            let e = &self.0[i];
            if e.has_changed() {
                changed.push(e);
                assert(ranking_refs_view(changed@) =~= ranking_refs_view(changed@).drop_last().push(
                    s[i as int],
                ));
            }
            i = i + 1;
        }
        assert(s.take(i as int) =~= s);
        changed
    }

    /// A copy of the ranking.
    pub fn duplicate(&self) -> (r: Ranking)
        ensures
            r@ == self@,
    {
        let mut entries: Vec<RankingEntry> = Vec::new();
        let mut i: usize = 0;
        while i < self.0.len()
            invariant
                0 <= i <= self.0@.len(),
                entries@.len() == i,
                ranking_entries_view(entries@) == self@.take(i as int),
            decreases self.0@.len() - i,
        {
            let e = copy_ranking_entry(&self.0[i]);
            assert(e@ == self.0@[i as int]@);
            entries.push(e);
            assert(entries@[i as int]@ == self.0@[i as int]@);
            assert(ranking_entries_view(entries@) =~= self@.take(i as int + 1));
            i = i + 1;
        }
        assert(self@.take(i as int) =~= self@);
        Ranking(entries)
    }
}

impl PartialEq for Ranking {
    fn eq(&self, other: &Self) -> (r: bool) {
        let a = self.get_changed();
        let b = other.get_changed();
        if a.len() != b.len() {
            assert(ranking_refs_view(a@).len() != ranking_refs_view(b@).len());
            return false;
        }
        let mut i: usize = 0;
        while i < a.len()
            invariant
                0 <= i <= a@.len(),
                a@.len() == b@.len(),
                ranking_refs_view(a@) == changed_subset(self@),
                ranking_refs_view(b@) == changed_subset(other@),
                forall|j: int| 0 <= j < i ==> (#[trigger] a@[j])@ == b@[j]@,
            decreases a@.len() - i,
        {
            if !same_ranking_entry(a[i], b[i]) {
                assert(ranking_refs_view(a@)[i as int] != ranking_refs_view(b@)[i as int]);
                return false;
            }
            i = i + 1;
        }
        assert(ranking_refs_view(a@) =~= ranking_refs_view(b@));
        true
    }
}

impl vstd::std_specs::cmp::PartialEqSpecImpl for Ranking {
    open spec fn obeys_eq_spec() -> bool {
        true
    }

    open spec fn eq_spec(&self, other: &Ranking) -> bool {
        changed_subset(self@) == changed_subset(other@)
    }
}

impl Eq for Ranking {

}

/// Two rankings whose changed subsets agree are equal, whatever their
/// unchanged rows hold.
pub proof fn lemma_equal_by_changed_subset(a: Ranking, b: Ranking)
    requires
        changed_subset(a@) == changed_subset(b@),
    ensures
        a.eq_spec(&b),
{
}

/// Why a ranking could not be had.
#[derive(Clone, Debug, PartialEq, Eq)]
pub struct RankingFetchError {
    pub cause: String,
}

/// What a ranking cell shows beside its value: nothing, a red (falling),
/// green (rising) or blue (new) mark, or a mark of another kind.
#[derive(Clone, Copy, Debug, PartialEq, Eq, Structural)]
pub enum CellMarker {
    Absent,
    Danger,
    Success,
    Info,
    Other,
}

pub open spec fn opt_str_view(text: Option<&str>) -> Option<Seq<char>> {
    match text {
        Some(t) => Some(t@),
        None => None,
    }
}

/// The change that a marked cell stands for, given the first text of the
/// cell: a red number is a fall by it, a green number a rise by it, a blue
/// mark a new row, and no mark no change.
pub open spec fn marker_change(marker: CellMarker, text: Option<Seq<char>>) -> Option<PositionChangeInfo> {
    match marker {
        CellMarker::Absent => Some(PositionChangeInfo::Diff(0)),
        CellMarker::Info => Some(PositionChangeInfo::New),
        CellMarker::Other => None,
        CellMarker::Success => match text {
            Some(t) => match parsed_i32(t) {
                Some(v) => Some(PositionChangeInfo::Diff(v)),
                None => None,
            },
            None => None,
        },
        CellMarker::Danger => match text {
            Some(t) => match parsed_i32(t) {
                Some(v) => if v == i32::MIN {
                    None
                } else {
                    Some(PositionChangeInfo::Diff((-v) as i32))
                },
                None => None,
            },
            None => None,
        },
    }
}

/// The change that a ranking cell shows; fails on an unknown mark or a
/// number that cannot be read.
pub fn parse_diff_column(marker: CellMarker, text: Option<&str>) -> (r: Result<PositionChangeInfo, RankingFetchError>)
    ensures
        match r {
            Ok(p) => marker_change(marker, opt_str_view(text)) == Some(p),
            Err(_) => marker_change(marker, opt_str_view(text)) is None,
        },
{
    let unreadable = RankingFetchError { cause: String::from_str("Unreadable change column") };
    match marker {
        CellMarker::Absent => Ok(PositionChangeInfo::Diff(0)),
        CellMarker::Info => Ok(PositionChangeInfo::New),
        CellMarker::Other => Err(
            RankingFetchError { cause: String::from_str("Unexpected element without expected classes") },
        ),
        CellMarker::Success => match text {
            Some(t) => match parse_i32(t) {
                Some(v) => Ok(PositionChangeInfo::Diff(v)),
                None => Err(unreadable),
            },
            None => Err(unreadable),
        },
        CellMarker::Danger => match text {
            Some(t) => match parse_i32(t) {
                Some(v) => if v == i32::MIN {
                    Err(unreadable)
                } else {
                    Ok(PositionChangeInfo::Diff(-v))
                },
                None => Err(unreadable),
            },
            None => Err(unreadable),
        },
    }
}

} // verus!
