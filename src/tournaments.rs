//! Tournament calendar snapshots and the keyed, field-level diff between two of them.

use itertools::Itertools;
use vstd::prelude::*;

verus! {

/// Name of the only ruleset the calendar watcher follows.
pub const RCR_RULES_NAME: &'static str = "Riichi";

/// One row of the tournament calendar.
#[derive(Clone, Debug, PartialEq, Eq)]
pub struct TournamentEntry {
    pub name: String,
    pub url: String,
    pub rules: String,
    pub date: String,
    pub place: String,
    pub approval_status: String,
    pub results_status: String,
}

/// Mathematical model of a [`TournamentEntry`].
pub struct EntryModel {
    pub name: Seq<char>,
    pub url: Seq<char>,
    pub rules: Seq<char>,
    pub date: Seq<char>,
    pub place: Seq<char>,
    pub approval_status: Seq<char>,
    pub results_status: Seq<char>,
}

impl View for TournamentEntry {
    type V = EntryModel;

    open spec fn view(&self) -> EntryModel {
        EntryModel {
            name: self.name@,
            url: self.url@,
            rules: self.rules@,
            date: self.date@,
            place: self.place@,
            approval_status: self.approval_status@,
            results_status: self.results_status@,
        }
    }
}

/// An ordered snapshot of the calendar.
#[derive(Clone, Debug, PartialEq, Eq)]
pub struct Tournaments(pub Vec<TournamentEntry>);

pub open spec fn entries_view(v: Seq<TournamentEntry>) -> Seq<EntryModel> {
    v.map_values(|e: TournamentEntry| e@)
}

impl View for Tournaments {
    type V = Seq<EntryModel>;

    open spec fn view(&self) -> Seq<EntryModel> {
        entries_view(self.0@)
    }
}

/// The fields of an entry that changed; `None` where the old value was kept.
#[derive(Clone, Debug, PartialEq, Eq)]
pub struct TournamentChange {
    pub name: String,
    pub url: Option<String>,
    pub rules: Option<String>,
    pub date: Option<String>,
    pub place: Option<String>,
    pub approval_status: Option<String>,
    pub results_status: Option<String>,
}

/// Mathematical model of a [`TournamentChange`].
pub struct ChangeModel {
    pub name: Seq<char>,
    pub url: Option<Seq<char>>,
    pub rules: Option<Seq<char>>,
    pub date: Option<Seq<char>>,
    pub place: Option<Seq<char>>,
    pub approval_status: Option<Seq<char>>,
    pub results_status: Option<Seq<char>>,
}

pub open spec fn opt_view(o: Option<String>) -> Option<Seq<char>> {
    match o {
        Some(s) => Some(s@),
        None => None,
    }
}

impl View for TournamentChange {
    type V = ChangeModel;

    open spec fn view(&self) -> ChangeModel {
        ChangeModel {
            name: self.name@,
            url: opt_view(self.url),
            rules: opt_view(self.rules),
            date: opt_view(self.date),
            place: opt_view(self.place),
            approval_status: opt_view(self.approval_status),
            results_status: opt_view(self.results_status),
        }
    }
}

/// What happened to one tournament between two snapshots.
#[derive(Clone, Debug, PartialEq, Eq)]
pub enum TournamentStatus {
    New(TournamentEntry),
    Changed(TournamentChange),
}

/// Mathematical model of a [`TournamentStatus`].
pub enum StatusModel {
    New(EntryModel),
    Changed(ChangeModel),
}

impl View for TournamentStatus {
    type V = StatusModel;

    open spec fn view(&self) -> StatusModel {
        match self {
            TournamentStatus::New(e) => StatusModel::New(e@),
            TournamentStatus::Changed(c) => StatusModel::Changed(c@),
        }
    }
}

/// The ordered change set between two snapshots.
#[derive(Clone, Debug, PartialEq, Eq)]
pub struct TournamentStatuses(pub Vec<TournamentStatus>);

pub open spec fn statuses_view(v: Seq<TournamentStatus>) -> Seq<StatusModel> {
    v.map_values(|s: TournamentStatus| s@)
}

impl View for TournamentStatuses {
    type V = Seq<StatusModel>;

    open spec fn view(&self) -> Seq<StatusModel> {
        statuses_view(self.0@)
    }
}

/// Why a calendar snapshot could not be had.
#[derive(Clone, Debug, PartialEq, Eq)]
pub enum TournamentsFetchError {
    FetchError(String),
    ParseError(String),
}

/// All entries of the snapshot follow one ruleset.
pub open spec fn single_ruleset(s: Seq<EntryModel>) -> bool {
    forall|i: int, j: int| 0 <= i < s.len() && 0 <= j < s.len() ==> s[i].rules == s[j].rules
}

pub open spec fn names_of(s: Seq<EntryModel>) -> Seq<Seq<char>> {
    s.map_values(|e: EntryModel| e.name)
}

/// Indices of the first occurrence of each key, in increasing order.
pub open spec fn first_occurrences(keys: Seq<Seq<char>>) -> Seq<int>
    decreases keys.len(),
{
    if keys.len() == 0 {
        seq![]
    } else {
        let prev = first_occurrences(keys.drop_last());
        if keys.drop_last().contains(keys.last()) {
            prev
        } else {
            prev.push(keys.len() - 1)
        }
    }
}

/// The snapshot with every entry whose name occurred earlier removed.
pub open spec fn dedup_by_name(s: Seq<EntryModel>) -> Seq<EntryModel> {
    first_occurrences(names_of(s)).map_values(|i: int| s[i])
}

/// The first entry of the snapshot with the given name.
pub open spec fn find_by_name(s: Seq<EntryModel>, name: Seq<char>) -> Option<EntryModel>
    decreases s.len(),
{
    if s.len() == 0 {
        None
    } else if s[0].name == name {
        Some(s[0])
    } else {
        find_by_name(s.drop_first(), name)
    }
}

/// The new value of a field, where it differs from the old one.
pub open spec fn field_change(before: Seq<char>, new: Seq<char>) -> Option<Seq<char>> {
    if before == new {
        None
    } else {
        Some(new)
    }
}

pub open spec fn change_between(before: EntryModel, new: EntryModel) -> ChangeModel {
    ChangeModel {
        name: new.name,
        url: field_change(before.url, new.url),
        rules: field_change(before.rules, new.rules),
        date: field_change(before.date, new.date),
        place: field_change(before.place, new.place),
        approval_status: field_change(before.approval_status, new.approval_status),
        results_status: field_change(before.results_status, new.results_status),
    }
}

/// The record for a new entry, given the old entry of the same name if any.
pub open spec fn status_for(before: Option<EntryModel>, new: EntryModel) -> Option<StatusModel> {
    match before {
        None => Some(StatusModel::New(new)),
        Some(o) => if o == new {
            None
        } else {
            Some(StatusModel::Changed(change_between(o, new)))
        },
    }
}

/// The records for each of `new`, in order, looked up by name in `before`.
pub open spec fn statuses_for(before: Seq<EntryModel>, new: Seq<EntryModel>) -> Seq<StatusModel>
    decreases new.len(),
{
    if new.len() == 0 {
        seq![]
    } else {
        let prev = statuses_for(before, new.drop_last());
        match status_for(find_by_name(before, new.last().name), new.last()) {
            Some(s) => prev.push(s),
            None => prev,
        }
    }
}

/// The change set from `before` to `new`.
pub open spec fn diff_model(before: Seq<EntryModel>, new: Seq<EntryModel>) -> Seq<StatusModel> {
    statuses_for(before, dedup_by_name(new))
}

/// Relies on itertools::Itertools::unique_by: the adaptor keeps the first
/// item of each key and yields the kept items in the order they came.
#[verifier::external_body]
fn unique_entries(entries: &Vec<TournamentEntry>) -> (r: Vec<usize>)
    ensures
        r@.map_values(|i: usize| i as int) == first_occurrences(names_of(entries_view(entries@))),
{
    entries.iter().enumerate().unique_by(|&(_, e)| e.name.as_str()).map(|(i, _)| i).collect()
}

fn copy_entry(e: &TournamentEntry) -> (r: TournamentEntry)
    ensures
        r@ == e@,
{
    TournamentEntry {
        name: e.name.clone(),
        url: e.url.clone(),
        rules: e.rules.clone(),
        date: e.date.clone(),
        place: e.place.clone(),
        approval_status: e.approval_status.clone(),
        results_status: e.results_status.clone(),
    }
}

fn same_entry(a: &TournamentEntry, b: &TournamentEntry) -> (r: bool)
    ensures
        r == (a@ == b@),
{
    a.name == b.name && a.url == b.url && a.rules == b.rules && a.date == b.date && a.place
        == b.place && a.approval_status == b.approval_status && a.results_status
        == b.results_status
}

fn get_diff_option(value_old: &String, value_new: &String) -> (r: Option<String>)
    ensures
        opt_view(r) == field_change(value_old@, value_new@),
{
    if *value_old == *value_new {
        None
    } else {
        Some(value_new.clone())
    }
}

pub open spec fn opt_entry_view(o: Option<&TournamentEntry>) -> Option<EntryModel> {
    match o {
        Some(e) => Some(e@),
        None => None,
    }
}

pub open spec fn opt_status_view(o: Option<TournamentStatus>) -> Option<StatusModel> {
    match o {
        Some(s) => Some(s@),
        None => None,
    }
}

impl TournamentStatus {
    /// The record for `new_entry`, given the old entry of the same name if any:
    /// nothing when the two are equal.
    pub fn for_entries(old_entry: Option<&TournamentEntry>, new_entry: &TournamentEntry) -> (r:
        Option<Self>)
        ensures
            opt_status_view(r) == status_for(opt_entry_view(old_entry), new_entry@),
    {
        match old_entry {
            Some(old_entry) => {
                if same_entry(new_entry, old_entry) {
                    return None;
                }
                let tournament_change = TournamentChange {
                    name: new_entry.name.clone(),
                    url: get_diff_option(&old_entry.url, &new_entry.url),
                    rules: get_diff_option(&old_entry.rules, &new_entry.rules),
                    date: get_diff_option(&old_entry.date, &new_entry.date),
                    place: get_diff_option(&old_entry.place, &new_entry.place),
                    approval_status: get_diff_option(
                        &old_entry.approval_status,
                        &new_entry.approval_status,
                    ),
                    results_status: get_diff_option(
                        &old_entry.results_status,
                        &new_entry.results_status,
                    ),
                };
                Some(TournamentStatus::Changed(tournament_change))
            },
            None => Some(TournamentStatus::New(copy_entry(new_entry))),
        }
    }
}


/// Each first occurrence lies inside the keys, no earlier key equals it, and
/// the occurrences come in increasing order.
pub proof fn lemma_first_occurrences(keys: Seq<Seq<char>>)
    ensures
        forall|k: int|
            #![trigger first_occurrences(keys)[k]]
            0 <= k < first_occurrences(keys).len() ==> {
                let i = first_occurrences(keys)[k] as int;
                0 <= i < keys.len() && !keys.take(i).contains(keys[i])
            },
        forall|k1: int, k2: int|
            0 <= k1 < k2 < first_occurrences(keys).len() ==> first_occurrences(keys)[k1]
                < first_occurrences(keys)[k2],
    decreases keys.len(),
{
    if keys.len() > 0 {
        let n = keys.len() as int;
        let prev_keys = keys.drop_last();
        lemma_first_occurrences(prev_keys);
        let fo = first_occurrences(keys);
        let prev = first_occurrences(prev_keys);
        assert(keys.last() == keys[n - 1]);
        assert(fo == if prev_keys.contains(keys.last()) {
            prev
        } else {
            prev.push(n - 1)
        });
        assert(keys.take(n - 1) =~= prev_keys);
        assert forall|k: int| 0 <= k < fo.len() implies {
            let i = #[trigger] fo[k] as int;
            0 <= i < keys.len() && !keys.take(i).contains(keys[i])
        } by {
            if k < prev.len() {
                let i = prev[k] as int;
                assert(fo[k] == prev[k]);
                assert(keys.take(i) =~= prev_keys.take(i));
                assert(keys[i] == prev_keys[i]);
            } else {
                assert(fo[k] == n - 1);
            }
        }
        assert forall|k1: int, k2: int| 0 <= k1 < k2 < fo.len() implies fo[k1] < fo[k2] by {
            if k2 < prev.len() {
            } else {
                assert(fo[k1] == prev[k1]);
                assert(prev[k1] < prev_keys.len()) by {
                    assert(0 <= prev[k1] < prev_keys.len());
                }
            }
        }
    }
}

/// The entries of one snapshot, without later repeats of a name.
pub proof fn lemma_dedup_entries(s: Seq<EntryModel>)
    ensures
        forall|k: int|
            0 <= k < dedup_by_name(s).len() ==> find_by_name(s, #[trigger] dedup_by_name(s)[k].name)
                == Some(dedup_by_name(s)[k]),
        forall|k1: int, k2: int|
            0 <= k1 < k2 < dedup_by_name(s).len() ==> #[trigger] dedup_by_name(s)[k1].name
                != #[trigger] dedup_by_name(s)[k2].name,
{
    let keys = names_of(s);
    lemma_first_occurrences(keys);
    let fo = first_occurrences(keys);
    assert forall|k: int| 0 <= k < dedup_by_name(s).len() implies find_by_name(
        s,
        #[trigger] dedup_by_name(s)[k].name,
    ) == Some(dedup_by_name(s)[k]) by {
        let i = fo[k] as int;
        assert(0 <= i < keys.len() && !keys.take(i).contains(keys[i]));
        lemma_find_first(s, i);
    }
    assert forall|k1: int, k2: int|
        0 <= k1 < k2 < dedup_by_name(s).len() implies #[trigger] dedup_by_name(s)[k1].name
        != #[trigger] dedup_by_name(s)[k2].name by {
        let i1 = fo[k1] as int;
        let i2 = fo[k2] as int;
        assert(i1 < i2);
        assert(!keys.take(i2).contains(keys[i2]));
        assert(keys.take(i2)[i1] == keys[i1]);
    }
}

/// An entry whose name occurs nowhere before it is the one found by name.
proof fn lemma_find_first(s: Seq<EntryModel>, i: int)
    requires
        0 <= i < s.len(),
        !names_of(s).take(i).contains(s[i].name),
    ensures
        find_by_name(s, s[i].name) == Some(s[i]),
    decreases i,
{
    if i > 0 {
        assert(names_of(s).take(i)[0] == s[0].name);
        let t = s.drop_first();
        assert(t[i - 1] == s[i]);
        assert forall|j: int| 0 <= j < i - 1 implies #[trigger] names_of(t).take(i - 1)[j] != t[i - 1].name by {
            assert(names_of(s).take(i)[j + 1] == s[j + 1].name);
        }
        lemma_find_first(t, i - 1);
    }
}

fn find_entry<'a>(entries: &'a Vec<TournamentEntry>, name: &String) -> (r: Option<&'a TournamentEntry>)
    ensures
        opt_entry_view(r) == find_by_name(entries_view(entries@), name@),
{
    let ghost all = entries_view(entries@);
    let mut i: usize = 0;
    assert(all.subrange(0, all.len() as int) =~= all);
    while i < entries.len()
        invariant
            0 <= i <= entries@.len(),
            all == entries_view(entries@),
            find_by_name(all, name@) == find_by_name(all.subrange(i as int, all.len() as int), name@),
        decreases entries@.len() - i,
    {
        assert(all.subrange(i as int, all.len() as int).drop_first() =~= all.subrange(
            i as int + 1,
            all.len() as int,
        ));
        if entries[i].name == *name {
            return Some(&entries[i]);
        }
        i = i + 1;
    }
    None
}

pub open spec fn is_rcr(e: EntryModel) -> bool {
    e.rules == RCR_RULES_NAME@
}

/// The entries of a snapshot that follow the Riichi ruleset.
pub open spec fn rcr_only(s: Seq<EntryModel>) -> Seq<EntryModel> {
    s.filter(|e: EntryModel| is_rcr(e))
}

impl Tournaments {
    /// The entries that follow the Riichi ruleset, in order.
    pub fn into_rcr_only(self) -> (r: Self)
        ensures
            r@ == rcr_only(self@),
            single_ruleset(r@),
    {
        let ghost s = self@;
        let rcr = String::from_str(RCR_RULES_NAME);
        let mut filtered: Vec<TournamentEntry> = Vec::new();
        let mut i: usize = 0;
        while i < self.0.len()
            invariant
                0 <= i <= self.0@.len(),
                s == self@,
                rcr@ == RCR_RULES_NAME@,
                entries_view(filtered@) == rcr_only(s.take(i as int)),
            decreases self.0@.len() - i,
        {
            let ghost t = s.take(i as int + 1);
            assert(t.drop_last() =~= s.take(i as int));
            assert(t.last() == s[i as int]);
            reveal(Seq::filter);
            assert(rcr_only(t) == if is_rcr(t.last()) {
                rcr_only(t.drop_last()).push(t.last())
            } else {
                rcr_only(t.drop_last())
            });
            if self.0[i].rules == rcr {
                filtered.push(copy_entry(&self.0[i]));
                assert(entries_view(filtered@) =~= entries_view(filtered@).drop_last().push(
                    s[i as int],
                ));
            }
            i = i + 1;
        }
        assert(s.take(i as int) =~= s);
        let r = Tournaments(filtered);
        proof {
            let f = rcr_only(s);
            assert forall|a: int| 0 <= a < f.len() implies is_rcr(#[trigger] f[a]) by {
                s.lemma_filter_pred(|e: EntryModel| is_rcr(e), a);
            }
        }
        r
    }

    /// The entries of the snapshot.
    pub fn get(&self) -> (r: &Vec<TournamentEntry>)
        ensures
            r == &self.0,
    {
        &self.0
    }
}

/// Whether all entries of the snapshot follow one ruleset, as the diff requires.
pub fn check_single_ruleset(entries: &Tournaments) -> (r: bool)
    ensures
        r == single_ruleset(entries@),
{
    let ghost s = entries@;
    if entries.0.len() == 0 {
        return true;
    }
    let mut i: usize = 1;
    while i < entries.0.len()
        invariant
            1 <= i <= entries.0@.len(),
            s == entries@,
            forall|j: int| 0 <= j < i ==> (#[trigger] s[j]).rules == s[0].rules,
        decreases entries.0@.len() - i,
    {
        if entries.0[i].rules != entries.0[0].rules {
            assert(s[i as int].rules != s[0].rules);
            return false;
        }
        i = i + 1;
    }
    true
}

/// The change set between two snapshots of one ruleset: for each name of
/// `entries_new`, first occurrence only and in that order, a `New` record when
/// `entries_old` has no entry of that name, a `Changed` record when its first
/// such entry differs, and nothing when it is equal.
pub fn tournaments_diff(entries_old: &Tournaments, entries_new: &Tournaments) -> (r:
    TournamentStatuses)
    requires
        single_ruleset(entries_old@),
        single_ruleset(entries_new@),
    ensures
        r@ == diff_model(entries_old@, entries_new@),
{
    let ghost old_s = entries_old@;
    let ghost new_s = entries_new@;
    let order = unique_entries(&entries_new.0);
    proof {
        lemma_first_occurrences(names_of(new_s));
    }
    let ghost d = dedup_by_name(new_s);
    let mut statuses: Vec<TournamentStatus> = Vec::new();
    let mut k: usize = 0;
    while k < order.len()
        invariant
            0 <= k <= order@.len(),
            order@.map_values(|i: usize| i as int) == first_occurrences(names_of(new_s)),
            d == dedup_by_name(new_s),
            d.len() == order@.len(),
            old_s == entries_old@,
            new_s == entries_new@,
            statuses_view(statuses@) == statuses_for(old_s, d.take(k as int)),
        decreases order@.len() - k,
    {
        let idx = order[k];
        assert(idx < new_s.len()) by {
            assert(order@.map_values(|i: usize| i as int)[k as int] == first_occurrences(
                names_of(new_s),
            )[k as int]);
            lemma_first_occurrences(names_of(new_s));
            let i = first_occurrences(names_of(new_s))[k as int];
            assert(0 <= i < names_of(new_s).len());
        }
        let new_entry = &entries_new.0[idx];
        let old_entry = find_entry(&entries_old.0, &new_entry.name);
        let status = TournamentStatus::for_entries(old_entry, new_entry);
        assert(d.take(k as int + 1).drop_last() =~= d.take(k as int));
        assert(d[k as int] == new_s[idx as int]);
        match status {
            Some(s) => {
                statuses.push(s);
                assert(statuses_view(statuses@) =~= statuses_view(statuses@).drop_last().push(
                    s@,
                ));
            },
            None => {},
        }
        k = k + 1;
    }
    assert(d.take(k as int) =~= d);
    TournamentStatuses(statuses)
}

/// Every entry of `new` is the one found by its own name in `before`.
proof fn lemma_statuses_of_found(before: Seq<EntryModel>, new: Seq<EntryModel>)
    requires
        forall|k: int| 0 <= k < new.len() ==> find_by_name(before, #[trigger] new[k].name) == Some(new[k]),
    ensures
        statuses_for(before, new) == Seq::<StatusModel>::empty(),
    decreases new.len(),
{
    if new.len() > 0 {
        let last = new.len() - 1;
        assert(find_by_name(before, new[last].name) == Some(new[last]));
        lemma_statuses_of_found(before, new.drop_last());
    }
}

/// Comparing a snapshot with itself yields no record at all.
pub proof fn lemma_no_self_diff(s: Seq<EntryModel>)
    ensures
        diff_model(s, s) == Seq::<StatusModel>::empty(),
{
    lemma_dedup_entries(s);
    lemma_statuses_of_found(s, dedup_by_name(s));
}

/// A field of a `Changed` record agrees with the two entries: present exactly
/// when the old value differs, and then holding the new value.
pub open spec fn field_agrees(f: Option<Seq<char>>, before: Seq<char>, new: Seq<char>) -> bool {
    match f {
        None => before == new,
        Some(v) => v != before && v == new,
    }
}

pub open spec fn change_agrees(c: ChangeModel, before: EntryModel, new: EntryModel) -> bool {
    &&& c.name == new.name
    &&& field_agrees(c.url, before.url, new.url)
    &&& field_agrees(c.rules, before.rules, new.rules)
    &&& field_agrees(c.date, before.date, new.date)
    &&& field_agrees(c.place, before.place, new.place)
    &&& field_agrees(c.approval_status, before.approval_status, new.approval_status)
    &&& field_agrees(c.results_status, before.results_status, new.results_status)
}

pub open spec fn status_name(s: StatusModel) -> Seq<char> {
    match s {
        StatusModel::New(e) => e.name,
        StatusModel::Changed(c) => c.name,
    }
}

/// A record of the change set between `before` and `new`: a `New` record holds
/// the first entry of its name in `new`, which `before` lacks; a `Changed` record
/// agrees with the first entries of its name in both.
pub open spec fn record_agrees(before: Seq<EntryModel>, new: Seq<EntryModel>, s: StatusModel) -> bool {
    match s {
        StatusModel::New(e) => find_by_name(before, e.name) is None && find_by_name(new, e.name) == Some(
            e,
        ),
        StatusModel::Changed(c) => match (find_by_name(before, c.name), find_by_name(new, c.name)) {
            (Some(o), Some(n)) => change_agrees(c, o, n),
            _ => false,
        },
    }
}

proof fn lemma_statuses_for_records(before: Seq<EntryModel>, new: Seq<EntryModel>, d: Seq<EntryModel>)
    requires
        forall|k: int| 0 <= k < d.len() ==> find_by_name(new, #[trigger] d[k].name) == Some(d[k]),
        forall|k1: int, k2: int|
            0 <= k1 < k2 < d.len() ==> #[trigger] d[k1].name != #[trigger] d[k2].name,
    ensures
        forall|k: int|
            0 <= k < statuses_for(before, d).len() ==> record_agrees(
                before,
                new,
                #[trigger] statuses_for(before, d)[k],
            ),
        forall|k: int|
            0 <= k < statuses_for(before, d).len() ==> exists|j: int|
                0 <= j < d.len() && status_name(#[trigger] statuses_for(before, d)[k]) == d[j].name,
        forall|k1: int, k2: int|
            0 <= k1 < k2 < statuses_for(before, d).len() ==> status_name(
                #[trigger] statuses_for(before, d)[k1],
            ) != status_name(#[trigger] statuses_for(before, d)[k2]),
    decreases d.len(),
{
    if d.len() > 0 {
        let p = d.drop_last();
        let last = d.len() - 1;
        assert forall|k: int| 0 <= k < p.len() implies find_by_name(new, #[trigger] p[k].name) == Some(
            p[k],
        ) by {
            assert(p[k] == d[k]);
        }
        assert forall|k1: int, k2: int| 0 <= k1 < k2 < p.len() implies #[trigger] p[k1].name
            != #[trigger] p[k2].name by {
            assert(p[k1] == d[k1] && p[k2] == d[k2]);
        }
        lemma_statuses_for_records(before, new, p);
        let prev = statuses_for(before, p);
        let e = d[last];
        assert(find_by_name(new, e.name) == Some(e));
        assert forall|k: int| 0 <= k < prev.len() implies status_name(#[trigger] prev[k]) != e.name by {
            let j = choose|j: int| 0 <= j < p.len() && status_name(prev[k]) == p[j].name;
            assert(p[j] == d[j]);
        }
        match status_for(find_by_name(before, e.name), e) {
            Some(st) => {
                let out = prev.push(st);
                assert(statuses_for(before, d) == out);
                assert(record_agrees(before, new, st));
                assert(status_name(st) == e.name);
                assert forall|k: int| 0 <= k < out.len() implies exists|j: int|
                    0 <= j < d.len() && status_name(#[trigger] out[k]) == d[j].name by {
                    if k < prev.len() {
                        let j = choose|j: int| 0 <= j < p.len() && status_name(prev[k]) == p[j].name;
                        assert(p[j] == d[j]);
                    } else {
                        assert(status_name(out[k]) == d[last].name);
                    }
                }
            },
            None => {
                assert(statuses_for(before, d) == prev);
                assert forall|k: int| 0 <= k < prev.len() implies exists|j: int|
                    0 <= j < d.len() && status_name(#[trigger] prev[k]) == d[j].name by {
                    let j = choose|j: int| 0 <= j < p.len() && status_name(prev[k]) == p[j].name;
                    assert(p[j] == d[j]);
                }
            },
        }
    }
}

/// Each record of the change set is derived from the first entry of its name
/// in the new snapshot; in a `Changed` record every present field differs from
/// the old entry and holds the new value, and every absent field is equal in
/// both entries.
pub proof fn lemma_records_agree(before: Seq<EntryModel>, new: Seq<EntryModel>, k: int)
    requires
        0 <= k < diff_model(before, new).len(),
    ensures
        record_agrees(before, new, diff_model(before, new)[k]),
{
    lemma_dedup_entries(new);
    lemma_statuses_for_records(before, new, dedup_by_name(new));
}

/// No two records of the change set carry the same name, however often the
/// name occurs in the new snapshot.
pub proof fn lemma_one_record_per_name(before: Seq<EntryModel>, new: Seq<EntryModel>, k1: int, k2: int)
    requires
        0 <= k1 < k2 < diff_model(before, new).len(),
    ensures
        status_name(diff_model(before, new)[k1]) != status_name(diff_model(before, new)[k2]),
{
    lemma_dedup_entries(new);
    lemma_statuses_for_records(before, new, dedup_by_name(new));
}

/// Number of columns of the calendar table.
pub const TABLE_COLUMN_NUM: usize = 6;

/// One row of the calendar table as scraped: a month heading, or a
/// tournament with the link of its first cell and the text of each cell.
#[derive(Clone, Debug, PartialEq, Eq)]
pub enum CalendarRow {
    Header(String),
    Entry { url: String, texts: Vec<String> },
}

/// The entry that a tournament row denotes under the given month heading:
/// the date is the day cell, a space, and the heading.
pub open spec fn entry_of(last_header: Seq<char>, url: Seq<char>, texts: Seq<String>) -> EntryModel {
    EntryModel {
        name: texts[0]@,
        url,
        rules: texts[1]@,
        date: texts[2]@ + " "@ + last_header,
        place: texts[3]@,
        approval_status: texts[4]@,
        results_status: texts[5]@,
    }
}

/// Builds the entry of a tournament row; the row must have exactly the
/// calendar's columns.
pub fn make_entry(last_header: &str, url: String, texts: &Vec<String>) -> (r: Result<TournamentEntry, TournamentsFetchError>)
    ensures
        match r {
            Ok(e) => texts@.len() == TABLE_COLUMN_NUM && e@ == entry_of(last_header@, url@, texts@),
            Err(e) => texts@.len() != TABLE_COLUMN_NUM && e is ParseError,
        },
{
    if texts.len() != TABLE_COLUMN_NUM {
        let mut message = String::from_str("Expected 6 columns in the EMA tournaments table; got ");
        crate::messages::push_decimal(&mut message, texts.len() as u64);
        return Err(TournamentsFetchError::ParseError(message));
    }
    let mut date = texts[2].clone();
    date.append(" ");
    date.append(last_header);
    Ok(TournamentEntry {
        name: texts[0].clone(),
        url,
        rules: texts[1].clone(),
        date,
        place: texts[3].clone(),
        approval_status: texts[4].clone(),
        results_status: texts[5].clone(),
    })
}

/// The heading in force after the first `n` rows: the text of the last
/// heading among them, empty before any.
pub open spec fn header_before(rows: Seq<CalendarRow>, n: int) -> Seq<char>
    decreases n,
{
    if n <= 0 {
        seq![]
    } else {
        match rows[n - 1] {
            CalendarRow::Header(h) => h@,
            CalendarRow::Entry { .. } => header_before(rows, n - 1),
        }
    }
}

/// The entries that the first `n` rows denote, or the first row with the
/// wrong number of columns.
pub open spec fn calendar_entries(rows: Seq<CalendarRow>, n: int) -> Option<Seq<EntryModel>>
    decreases n,
{
    if n <= 0 {
        Some(seq![])
    } else {
        match calendar_entries(rows, n - 1) {
            None => None,
            Some(prev) => match rows[n - 1] {
                CalendarRow::Header(_) => Some(prev),
                CalendarRow::Entry { url, texts } => if texts@.len() == TABLE_COLUMN_NUM {
                    Some(prev.push(entry_of(header_before(rows, n - 1), url@, texts@)))
                } else {
                    None
                },
            },
        }
    }
}

/// The calendar that the scraped rows denote: each tournament row dated under
/// the heading above it. Fails when a tournament row has the wrong number of
/// columns.
pub fn parse_tournaments(rows: &Vec<CalendarRow>) -> (r: Result<Tournaments, TournamentsFetchError>)
    ensures
        match r {
            Ok(t) => calendar_entries(rows@, rows@.len() as int) == Some(t@),
            Err(e) => calendar_entries(rows@, rows@.len() as int) is None && e is ParseError,
        },
{
    let mut last_header = String::new();
    let mut entries: Vec<TournamentEntry> = Vec::new();
    let mut i: usize = 0;
    while i < rows.len()
        invariant
            0 <= i <= rows@.len(),
            last_header@ == header_before(rows@, i as int),
            calendar_entries(rows@, i as int) == Some(entries_view(entries@)),
        decreases rows@.len() - i,
    {
        match &rows[i] {
            CalendarRow::Header(h) => {
                last_header = h.clone();
            },
            CalendarRow::Entry { url, texts } => {
                match make_entry(last_header.as_str(), url.clone(), texts) {
                    Ok(entry) => {
                        entries.push(entry);
                        assert(entries_view(entries@) =~= entries_view(entries@).drop_last().push(
                            entry@,
                        ));
                    },
                    Err(e) => {
                        assert(calendar_entries(rows@, i as int + 1) is None);
                        proof {
                            lemma_calendar_failed(rows@, i as int + 1, rows@.len() as int);
                        }
                        return Err(e);
                    },
                }
            },
        }
        i = i + 1;
    }
    Ok(Tournaments(entries))
}

proof fn lemma_calendar_failed(rows: Seq<CalendarRow>, n: int, m: int)
    requires
        0 <= n <= m,
        calendar_entries(rows, n) is None,
    ensures
        calendar_entries(rows, m) is None,
    decreases m - n,
{
    if n < m {
        lemma_calendar_failed(rows, n + 1, m);
    }
}

} // verus!
