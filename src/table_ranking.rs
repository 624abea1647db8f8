//! Ranking the cafe's tables by their longest stretches of free slots.

use crate::messages::{decimal, push_decimal, DIGITS};
use crate::table_models::{TableInfo as HourlyTableInfo, TimeRange};
use vstd::prelude::*;

verus! {

/// What went wrong while answering the table command.
#[derive(Clone, Debug, PartialEq, Eq)]
pub struct BoardowaError(pub String);

/// One table over a whole day: free or not in each half-hour slot.
#[derive(Clone, Debug, PartialEq, Eq)]
pub struct TableInfo {
    pub value: String,
    pub capacity: u8,
    pub availability: Vec<bool>,
}

/// A stretch of consecutive free slots at one table.
#[derive(Clone, Debug, PartialEq, Eq)]
pub struct AvailabilityRange {
    pub table_id: String,
    pub start: usize,
    pub capacity: u8,
    pub len: u8,
}

/// Mathematical model of an [`AvailabilityRange`].
pub struct RangeModel {
    pub table_id: Seq<char>,
    pub start: int,
    pub capacity: u8,
    pub len: u8,
}

impl View for AvailabilityRange {
    type V = RangeModel;

    open spec fn view(&self) -> RangeModel {
        RangeModel {
            table_id: self.table_id@,
            start: self.start as int,
            capacity: self.capacity,
            len: self.len,
        }
    }
}

pub open spec fn ranges_view(v: Seq<AvailabilityRange>) -> Seq<RangeModel> {
    v.map_values(|r: AvailabilityRange| r@)
}

/// The maximal runs of free slots, as (first slot, number of slots), in order.
pub open spec fn runs(av: Seq<bool>) -> Seq<(int, int)>
    decreases av.len(),
{
    if av.len() == 0 {
        seq![]
    } else {
        let prev = runs(av.drop_last());
        let n = av.len() - 1;
        if !av.last() {
            prev
        } else if n > 0 && av[n - 1] {
            prev.update(prev.len() - 1, (prev.last().0, prev.last().1 + 1))
        } else {
            prev.push((n, 1))
        }
    }
}

/// The ranges of one table: its runs, each tagged with the table.
pub open spec fn table_ranges(value: Seq<char>, capacity: u8, av: Seq<bool>) -> Seq<RangeModel> {
    runs(av).map_values(
        |r: (int, int)| RangeModel { table_id: value, start: r.0, capacity, len: r.1 as u8 },
    )
}

/// A run that reaches the end of the slots is the last one.
proof fn lemma_runs_end(av: Seq<bool>)
    ensures
        av.len() > 0 && av.last() ==> runs(av).len() > 0 && runs(av).last().0 + runs(
            av,
        ).last().1 == av.len() && 0 <= runs(av).last().0 && 1 <= runs(av).last().1 <= av.len(),
    decreases av.len(),
{
    if av.len() > 0 {
        lemma_runs_end(av.drop_last());
    }
}

impl TableInfo {
    /// The table's maximal runs of free slots, in order of their start.
    pub fn availability_ranges(&self) -> (r: Vec<AvailabilityRange>)
        requires
            self.availability@.len() <= 255,
        ensures
            ranges_view(r@) == table_ranges(self.value@, self.capacity, self.availability@),
    {
        let ghost av = self.availability@;
        let mut ret: Vec<AvailabilityRange> = Vec::new();
        let mut in_run = false;
        let mut cur_start: usize = 0;
        let mut cur_len: u8 = 0;
        let mut i: usize = 0;
        while i < self.availability.len()
            invariant
                0 <= i <= av.len() <= 255,
                av == self.availability@,
                in_run == (i > 0 && av[i - 1]),
                in_run ==> cur_start + cur_len == i && 1 <= cur_len,
                ({
                    let done = ranges_view(ret@);
                    let t = table_ranges(self.value@, self.capacity, av.take(i as int));
                    if in_run {
                        t == done.push(
                            RangeModel {
                                table_id: self.value@,
                                start: cur_start as int,
                                capacity: self.capacity,
                                len: cur_len,
                            },
                        )
                    } else {
                        t == done
                    }
                }),
            decreases av.len() - i,
        {
            let ghost t = av.take(i as int + 1);
            let ghost pr = runs(av.take(i as int));
            let ghost was_in = in_run;
            let ghost old_len = cur_len;
            let ghost old_done = ranges_view(ret@);
            assert(t.drop_last() =~= av.take(i as int));
            assert(t.last() == av[i as int]);
            assert(runs(t) == if !t.last() {
                pr
            } else if i > 0 && t[i - 1] {
                pr.update(pr.len() - 1, (pr.last().0, pr.last().1 + 1))
            } else {
                pr.push((i as int, 1))
            });
            proof {
                lemma_runs_end(av.take(i as int));
                if i > 0 {
                    assert(av.take(i as int).last() == av[i - 1]);
                }
            }
            if !self.availability[i] {
                if in_run {
                    ret.push(
                        AvailabilityRange {
                            table_id: self.value.clone(),
                            start: cur_start,
                            capacity: self.capacity,
                            len: cur_len,
                        },
                    );
                    in_run = false;
                }
                assert(table_ranges(self.value@, self.capacity, t) =~= ranges_view(ret@)) by {
                    if in_run {
                    }
                }
            } else {
                if in_run {
                    cur_len = cur_len + 1;
                } else {
                    in_run = true;
                    cur_start = i;
                    cur_len = 1;
                }
            }
            i = i + 1;
            proof {
                let done = ranges_view(ret@);
                let tr = table_ranges(self.value@, self.capacity, av.take(i as int));
                assert(av.take(i as int) == t);
                if in_run {
                    assert(done == old_done);
                    if was_in {
                        assert(t[i - 2] == av[i - 2]);
                        assert(pr.len() > 0);
                        let tp = table_ranges(self.value@, self.capacity, av.take(i - 1));
                        assert(tp.len() == pr.len());
                        assert(tp[tp.len() - 1] == RangeModel {
                            table_id: self.value@,
                            start: pr.last().0,
                            capacity: self.capacity,
                            len: pr.last().1 as u8,
                        });
                        assert(tp == old_done.push(
                            RangeModel {
                                table_id: self.value@,
                                start: cur_start as int,
                                capacity: self.capacity,
                                len: old_len,
                            },
                        ));
                        assert(tp[tp.len() - 1].len == old_len);
                        assert(pr.last().1 == old_len);
                        assert(pr.last().0 == cur_start);
                        assert(runs(t) == pr.update(pr.len() - 1, (pr.last().0, pr.last().1 + 1)));
                        assert(cur_len == old_len + 1);
                        assert forall|k: int| 0 <= k < tr.len() - 1 implies tr[k] == tp[k] by {
                            assert(runs(t)[k] == pr[k]);
                        }
                        assert(tr[tr.len() - 1] == RangeModel {
                            table_id: self.value@,
                            start: cur_start as int,
                            capacity: self.capacity,
                            len: cur_len,
                        });
                    } else {
                        let tp = table_ranges(self.value@, self.capacity, av.take(i - 1));
                        assert(tp == old_done);
                        assert(!(i - 1 > 0 && t[i - 2]));
                        assert(runs(t) == pr.push((i - 1, 1)));
                        assert(tr =~= tp.push(
                            RangeModel {
                                table_id: self.value@,
                                start: cur_start as int,
                                capacity: self.capacity,
                                len: cur_len,
                            },
                        ));
                    }
                    assert(tr =~= done.push(
                        RangeModel {
                            table_id: self.value@,
                            start: cur_start as int,
                            capacity: self.capacity,
                            len: cur_len,
                        },
                    ));
                }
            }
        }
        if in_run {
            ret.push(
                AvailabilityRange {
                    table_id: self.value.clone(),
                    start: cur_start,
                    capacity: self.capacity,
                    len: cur_len,
                },
            );
        }
        assert(av.take(i as int) =~= av);
        assert(ranges_view(ret@) =~= table_ranges(self.value@, self.capacity, av));
        ret
    }
}

/// `a` ranks before `b`: a longer stretch first, and of two equally long
/// ones the later start first.
pub open spec fn ranks_before(a: RangeModel, b: RangeModel) -> bool {
    a.len > b.len || (a.len == b.len && a.start > b.start)
}

/// No range ranks before one that comes earlier.
pub open spec fn sorted_ranges(s: Seq<RangeModel>) -> bool {
    forall|i: int, j: int| 0 <= i < j < s.len() ==> !ranks_before(#[trigger] s[j], #[trigger] s[i])
}

/// The ranges of all tables, table by table.
pub open spec fn all_ranges(tables: Seq<TableInfo>) -> Seq<RangeModel>
    decreases tables.len(),
{
    if tables.len() == 0 {
        seq![]
    } else {
        all_ranges(tables.drop_last()) + table_ranges(
            tables.last().value@,
            tables.last().capacity,
            tables.last().availability@,
        )
    }
}

fn copy_range(r: &AvailabilityRange) -> (c: AvailabilityRange)
    ensures
        c@ == r@,
{
    AvailabilityRange {
        table_id: r.table_id.clone(),
        start: r.start,
        capacity: r.capacity,
        len: r.len,
    }
}

fn rank_before(a: &AvailabilityRange, b: &AvailabilityRange) -> (r: bool)
    ensures
        r == ranks_before(a@, b@),
{
    a.len > b.len || (a.len == b.len && a.start > b.start)
}

/// Inserts `x` after every range that does not rank after it.
fn insert_ranked(ranked: &mut Vec<AvailabilityRange>, x: AvailabilityRange)
    requires
        sorted_ranges(ranges_view(old(ranked)@)),
    ensures
        sorted_ranges(ranges_view(final(ranked)@)),
        ranges_view(final(ranked)@).to_multiset() == ranges_view(old(ranked)@).to_multiset().insert(
            x@,
        ),
{
    let ghost before = ranges_view(ranked@);
    let mut p: usize = 0;
    while p < ranked.len() && !rank_before(&x, &ranked[p])
        invariant
            0 <= p <= ranked@.len(),
            ranges_view(ranked@) == before,
            forall|k: int| 0 <= k < p ==> !ranks_before(x@, #[trigger] before[k]),
        decreases ranked@.len() - p,
    {
        p = p + 1;
    }
    ranked.insert(p, x);
    proof {
        let after = ranges_view(ranked@);
        assert(after =~= before.insert(p as int, x@));
        broadcast use vstd::seq_lib::to_multiset_insert;
        assert forall|i: int, j: int| 0 <= i < j < after.len() implies !ranks_before(
            #[trigger] after[j],
            #[trigger] after[i],
        ) by {
            if j < p {
                assert(after[i] == before[i] && after[j] == before[j]);
            } else if j == p {
                assert(after[i] == before[i]);
            } else if i < p {
                assert(after[i] == before[i] && after[j] == before[j - 1]);
            } else if i == p {
                assert(after[j] == before[j - 1]);
                assert(ranks_before(x@, before[p as int]));
            } else {
                assert(after[i] == before[i - 1] && after[j] == before[j - 1]);
            }
        }
    }
}

/// All free stretches of all tables, longest first; of equally long ones the
/// later start first.
pub fn rank_tables(tables: Vec<TableInfo>) -> (r: Vec<AvailabilityRange>)
    requires
        forall|k: int| 0 <= k < tables@.len() ==> (#[trigger] tables@[k]).availability@.len() <= 255,
    ensures
        sorted_ranges(ranges_view(r@)),
        ranges_view(r@).to_multiset() == all_ranges(tables@).to_multiset(),
{
    let mut ranked: Vec<AvailabilityRange> = Vec::new();
    let mut t: usize = 0;
    assert(ranges_view(ranked@) =~= all_ranges(tables@.take(0)));
    while t < tables.len()
        invariant
            0 <= t <= tables@.len(),
            forall|k: int| 0 <= k < tables@.len() ==> (#[trigger] tables@[k]).availability@.len() <= 255,
            sorted_ranges(ranges_view(ranked@)),
            ranges_view(ranked@).to_multiset() == all_ranges(tables@.take(t as int)).to_multiset(),
        decreases tables@.len() - t,
    {
        let table = &tables[t];
        let ranges = table.availability_ranges();
        let ghost head = all_ranges(tables@.take(t as int));
        let ghost tr = ranges_view(ranges@);
        let mut k: usize = 0;
        while k < ranges.len()
            invariant
                0 <= k <= ranges@.len(),
                tr == ranges_view(ranges@),
                sorted_ranges(ranges_view(ranked@)),
                ranges_view(ranked@).to_multiset() == (head + tr.take(k as int)).to_multiset(),
            decreases ranges@.len() - k,
        {
            let ghost prev = head + tr.take(k as int);
            insert_ranked(&mut ranked, copy_range(&ranges[k]));
            proof {
                assert(head + tr.take(k as int + 1) =~= prev.push(tr[k as int]));
                broadcast use vstd::seq_lib::to_multiset_build;
            }
            k = k + 1;
        }
        proof {
            assert(tr.take(k as int) =~= tr);
            assert(tables@.take(t as int + 1).drop_last() =~= tables@.take(t as int));
            assert(tables@.take(t as int + 1).last() == tables@[t as int]);
        }
        t = t + 1;
    }
    assert(tables@.take(t as int) =~= tables@);
    ranked
}

/// The tables that a slot report lists carry distinct names.
pub open spec fn distinct_values(row: Seq<HourlyTableInfo>) -> bool {
    forall|a: int, b: int| 0 <= a < b < row.len() ==> (#[trigger] row[a]).value@ != (#[trigger] row[b]).value@
}

pub open spec fn lists_value(row: Seq<HourlyTableInfo>, value: Seq<char>) -> bool {
    exists|q: int| 0 <= q < row.len() && (#[trigger] row[q]).value@ == value
}

/// Slot reports that can be turned into one row per table: the first lists
/// each table once, and every report lists as many tables, all of them from
/// the first.
pub open spec fn transposable(rows: Seq<Seq<HourlyTableInfo>>) -> bool {
    rows.len() == 0 || {
        &&& distinct_values(rows[0])
        &&& forall|r: int| 0 <= r < rows.len() ==> (#[trigger] rows[r]).len() == rows[0].len()
        &&& forall|r: int, p: int|
            0 <= r < rows.len() && 0 <= p < rows[r].len() ==> lists_value(
                rows[0],
                (#[trigger] rows[r][p]).value@,
            )
    }
}

/// What one slot report says of the table `value`, in report order.
pub open spec fn matching(row: Seq<HourlyTableInfo>, value: Seq<char>) -> Seq<bool>
    decreases row.len(),
{
    if row.len() == 0 {
        seq![]
    } else {
        matching(row.drop_last(), value) + if row.last().value@ == value {
            seq![row.last().available]
        } else {
            seq![]
        }
    }
}

/// What the slot reports say of the table `value`, report after report.
pub open spec fn column(rows: Seq<Seq<HourlyTableInfo>>, value: Seq<char>) -> Seq<bool>
    decreases rows.len(),
{
    if rows.len() == 0 {
        seq![]
    } else {
        column(rows.drop_last(), value) + matching(rows.last(), value)
    }
}

pub open spec fn rows_view(v: Seq<Vec<HourlyTableInfo>>) -> Seq<Seq<HourlyTableInfo>> {
    v.map_values(|r: Vec<HourlyTableInfo>| r@)
}

fn find_value(row: &Vec<HourlyTableInfo>, value: &String, upto: usize) -> (r: bool)
    requires
        upto <= row@.len(),
    ensures
        r == exists|q: int| 0 <= q < upto && (#[trigger] row@[q]).value@ == value@,
{
    let mut q: usize = 0;
    while q < upto
        invariant
            0 <= q <= upto <= row@.len(),
            forall|j: int| 0 <= j < q ==> (#[trigger] row@[j]).value@ != value@,
        decreases upto - q,
    {
        if row[q].value == *value {
            return true;
        }
        q = q + 1;
    }
    false
}

fn column_of(availability: &Vec<Vec<HourlyTableInfo>>, value: &String) -> (r: Vec<bool>)
    ensures
        r@ == column(rows_view(availability@), value@),
{
    let ghost rows = rows_view(availability@);
    let mut col: Vec<bool> = Vec::new();
    let mut r: usize = 0;
    while r < availability.len()
        invariant
            0 <= r <= availability@.len(),
            rows == rows_view(availability@),
            col@ == column(rows.take(r as int), value@),
        decreases availability@.len() - r,
    {
        let row = &availability[r];
        assert(row@ == rows[r as int]);
        let ghost head = col@;
        let mut p: usize = 0;
        while p < row.len()
            invariant
                0 <= p <= row@.len(),
                col@ == head + matching(row@.take(p as int), value@),
            decreases row@.len() - p,
        {
            assert(row@.take(p as int + 1).drop_last() =~= row@.take(p as int));
            if row[p].value == *value {
                col.push(row[p].available);
            }
            assert(col@ =~= head + matching(row@.take(p as int + 1), value@));
            p = p + 1;
        }
        assert(row@.take(p as int) =~= row@);
        assert(rows.take(r as int + 1).drop_last() =~= rows.take(r as int));
        assert(rows.take(r as int + 1).last() == row@);
        r = r + 1;
    }
    assert(rows.take(r as int) =~= rows);
    col
}

/// Turns slot-by-slot reports into one row per table of the first report,
/// in its order, each with what the reports say of it.
pub fn transpose(availability: Vec<Vec<HourlyTableInfo>>) -> (r: Result<Vec<TableInfo>, BoardowaError>)
    ensures
        match r {
            Ok(tables) => transposable(rows_view(availability@)) && (availability@.len() == 0
                ==> tables@.len() == 0) && (availability@.len() > 0 ==> {
                let first = availability@[0]@;
                &&& tables@.len() == first.len()
                &&& forall|k: int|
                    0 <= k < tables@.len() ==> {
                        &&& (#[trigger] tables@[k]).value@ == first[k].value@
                        &&& tables@[k].capacity == first[k].capacity
                        &&& tables@[k].availability@ == column(rows_view(availability@), first[k].value@)
                    }
            }),
            Err(_) => !transposable(rows_view(availability@)),
        },
{
    let ghost rows = rows_view(availability@);
    let mut tables: Vec<TableInfo> = Vec::new();
    if availability.len() == 0 {
        return Ok(tables);
    }
    let first = &availability[0];
    assert(first@ == rows[0]);
    let mut k: usize = 0;
    while k < first.len()
        invariant
            0 <= k <= first@.len(),
            rows == rows_view(availability@),
            rows.len() > 0,
            first@ == rows[0],
            forall|a: int, b: int| 0 <= a < b < k ==> (#[trigger] first@[a]).value@ != (#[trigger] first@[b]).value@,
        decreases first@.len() - k,
    {
        if find_value(first, &first[k].value, k) {
            proof {
                let q = choose|q: int| 0 <= q < k && (#[trigger] first@[q]).value@ == first@[k as int].value@;
                assert(!distinct_values(rows[0]));
            }
            return Err(BoardowaError(String::from_str("Internal error: unexpected table")));
        }
        k = k + 1;
    }
    let mut r: usize = 0;
    while r < availability.len()
        invariant
            0 <= r <= availability@.len(),
            rows == rows_view(availability@),
            rows.len() > 0,
            first@ == rows[0],
            distinct_values(rows[0]),
            forall|j: int| 0 <= j < r ==> (#[trigger] rows[j]).len() == rows[0].len(),
            forall|j: int, p: int|
                0 <= j < r && 0 <= p < rows[j].len() ==> lists_value(rows[0], (#[trigger] rows[j][p]).value@),
        decreases availability@.len() - r,
    {
        let row = &availability[r];
        assert(row@ == rows[r as int]);
        if row.len() != first.len() {
            assert(rows[r as int].len() != rows[0].len());
            return Err(BoardowaError(String::from_str("Internal error: unexpected table")));
        }
        let mut p: usize = 0;
        while p < row.len()
            invariant
                0 <= p <= row@.len(),
                0 <= r < rows.len(),
                rows == rows_view(availability@),
                row@ == rows[r as int],
                first@ == rows[0],
                forall|q: int| 0 <= q < p ==> lists_value(rows[0], (#[trigger] row@[q]).value@),
            decreases row@.len() - p,
        {
            if !find_value(first, &row[p].value, first.len()) {
                proof {
                    assert(rows[r as int][p as int] == row@[p as int]);
                    assert(!lists_value(rows[0], rows[r as int][p as int].value@));
                }
                return Err(BoardowaError(String::from_str("Missing table")));
            }
            p = p + 1;
        }
        r = r + 1;
    }
    let mut k: usize = 0;
    while k < first.len()
        invariant
            0 <= k <= first@.len(),
            first@ == rows[0],
            rows == rows_view(availability@),
            tables@.len() == k,
            forall|j: int|
                0 <= j < k ==> {
                    &&& (#[trigger] tables@[j]).value@ == first@[j].value@
                    &&& tables@[j].capacity == first@[j].capacity
                    &&& tables@[j].availability@ == column(rows, first@[j].value@)
                },
        decreases first@.len() - k,
    {
        let table = &first[k];
        let col = column_of(&availability, &table.value);
        tables.push(TableInfo { value: table.value.clone(), capacity: table.capacity, availability: col });
        k = k + 1;
    }
    Ok(tables)
}

/// A number written with at least two digits.
pub open spec fn two_digits(n: nat) -> Seq<char> {
    if n < 10 {
        seq![DIGITS@[0]] + decimal(n)
    } else {
        decimal(n)
    }
}

fn push_two_digits(s: &mut String, n: u64)
    ensures
        final(s)@ == old(s)@ + two_digits(n as nat),
{
    if n < 10 {
        proof {
            reveal_strlit("0123456789");
        }
        s.append(DIGITS.substring_char(0, 1));
        assert(DIGITS@.subrange(0, 1) =~= seq![DIGITS@[0]]);
    }
    push_decimal(s, n);
    assert(final(s)@ =~= old(s)@ + two_digits(n as nat));
}

/// The time at which slot `idx` starts, slots being half hours from the
/// opening hour `from`.
pub open spec fn slot_time(idx: nat, from: nat) -> Seq<char> {
    two_digits(idx / 2 + from) + ":"@ + if idx % 2 == 0 {
        "00"@
    } else {
        "30"@
    }
}

/// Appends the start time of the slot `2 * half` (or the one after it when
/// `odd`).
fn push_slot_time(s: &mut String, half: u64, odd: bool, from: u8)
    requires
        half <= u64::MAX - 255,
    ensures
        final(s)@ == old(s)@ + slot_time(2 * half as nat + if odd {
            1nat
        } else {
            0nat
        }, from as nat),
{
    let ghost idx: nat = 2 * half as nat + if odd {
        1nat
    } else {
        0nat
    };
    assert(idx / 2 == half as nat && (idx % 2 == 0) == !odd) by (nonlinear_arith)
        requires
            idx == 2 * half as nat + if odd {
                1nat
            } else {
                0nat
            },
    ;
    push_two_digits(s, half + from as u64);
    s.append(":");
    if odd {
        s.append("30");
    } else {
        s.append("00");
    }
    assert(final(s)@ =~= old(s)@ + slot_time(idx, from as nat));
}

/// One ranked stretch as the table command shows it.
pub open spec fn range_line(r: RangeModel, from: nat) -> Seq<char> {
    "Table "@ + r.table_id + ": "@ + slot_time(r.start as nat, from) + "-"@ + slot_time(
        (r.start + r.len) as nat,
        from,
    )
}

/// The lines of the stretches, joined by newlines.
pub open spec fn range_lines(s: Seq<RangeModel>, from: nat) -> Seq<char>
    decreases s.len(),
{
    if s.len() == 0 {
        seq![]
    } else if s.len() == 1 {
        range_line(s[0], from)
    } else {
        range_lines(s.drop_last(), from) + "\n"@ + range_line(s.last(), from)
    }
}

/// Number of stretches the table command suggests.
pub const SUGGESTED_TABLES: usize = 5;

/// The table command's reply: the first suggested stretches, in a code block.
pub open spec fn tables_message(date: Seq<char>, ranked: Seq<RangeModel>, from: nat) -> Seq<char> {
    let shown = if ranked.len() < SUGGESTED_TABLES {
        ranked
    } else {
        ranked.take(SUGGESTED_TABLES as int)
    };
    "Consider following tables for "@ + date + ":\n```\n"@ + range_lines(shown, from) + "\n```"@
}

fn push_range_line(message: &mut String, r: &AvailabilityRange, opening_from: u8)
    ensures
        final(message)@ == old(message)@ + range_line(r@, opening_from as nat),
{
    message.append("Table ");
    message.append(r.table_id.as_str());
    message.append(": ");
    let rest: u64 = (r.start % 2) as u64 + r.len as u64;
    proof {
        let start = r.start as nat;
        let end = (r.start + r.len) as nat;
        assert(2 * (r.start / 2) as nat + (if r.start % 2 == 1 { 1nat } else { 0nat }) == start);
        assert(2 * ((r.start / 2) as u64 + rest / 2) as nat + (if rest % 2 == 1 { 1nat } else { 0nat }) == end);
    }
    push_slot_time(message, (r.start / 2) as u64, r.start % 2 == 1, opening_from);
    message.append("-");
    push_slot_time(message, (r.start / 2) as u64 + rest / 2, rest % 2 == 1, opening_from);
    assert(final(message)@ =~= old(message)@ + range_line(r@, opening_from as nat));
}

/// The reply of the table command for a day, given the ranked stretches and
/// the opening hour.
pub fn build_tables_message(date: &str, ranked: &Vec<AvailabilityRange>, opening_from: u8) -> (r: String)
    ensures
        r@ == tables_message(date@, ranges_view(ranked@), opening_from as nat),
{
    let ghost all = ranges_view(ranked@);
    let shown = if ranked.len() < SUGGESTED_TABLES {
        ranked.len()
    } else {
        SUGGESTED_TABLES
    };
    let ghost shown_s = if all.len() < SUGGESTED_TABLES {
        all
    } else {
        all.take(SUGGESTED_TABLES as int)
    };
    assert(shown_s =~= all.take(shown as int));
    let mut message = String::from_str("Consider following tables for ");
    message.append(date);
    message.append(":\n```\n");
    let ghost head = message@;
    let mut i: usize = 0;
    while i < shown
        invariant
            0 <= i <= shown <= ranked@.len(),
            all == ranges_view(ranked@),
            message@ == head + range_lines(all.take(i as int), opening_from as nat),
        decreases shown - i,
    {
        let ghost t = all.take(i as int + 1);
        assert(t.drop_last() =~= all.take(i as int));
        if i > 0 {
            message.append("\n");
        }
        let ghost before = message@;
        push_range_line(&mut message, &ranked[i], opening_from);
        proof {
            assert(t.last() == ranked@[i as int]@);
            if i == 0 {
                assert(all.take(0) =~= Seq::<RangeModel>::empty());
                assert(range_lines(t, opening_from as nat) == range_line(t[0], opening_from as nat));
            }
        }
        assert(message@ =~= head + range_lines(t, opening_from as nat));
        i = i + 1;
    }
    message.append("\n```");
    message
}

/// Query bounds for slot `k` of a day opening at hour `from`: the first half
/// hour of each hour is asked for as `hh:01-hh:30`, the second as
/// `hh:31-(hh+1):00`.
pub open spec fn slot_bound(from: nat, k: nat) -> (Seq<char>, Seq<char>) {
    let h = from + k / 2;
    if k % 2 == 0 {
        (two_digits(h) + ":01"@, two_digits(h) + ":30"@)
    } else {
        (two_digits(h) + ":31"@, two_digits(h + 1) + ":00"@)
    }
}

/// The query bounds of every half hour between opening and closing.
pub fn slot_bounds(between: TimeRange) -> (r: Vec<(String, String)>)
    ensures
        r@.len() == if between.from < between.to {
            2 * (between.to - between.from)
        } else {
            0
        },
        forall|k: int|
            0 <= k < r@.len() ==> ((#[trigger] r@[k]).0@, r@[k].1@) == slot_bound(
                between.from as nat,
                k as nat,
            ),
{
    let mut bounds: Vec<(String, String)> = Vec::new();
    let mut t: u8 = between.from;
    while t < between.to
        invariant
            between.from <= t || between.from >= between.to,
            between.from < between.to ==> between.from <= t <= between.to,
            between.from >= between.to ==> t == between.from,
            bounds@.len() == if between.from < between.to {
                2 * (t - between.from)
            } else {
                0
            },
            forall|k: int|
                0 <= k < bounds@.len() ==> ((#[trigger] bounds@[k]).0@, bounds@[k].1@) == slot_bound(
                    between.from as nat,
                    k as nat,
                ),
        decreases between.to - t,
    {
        let ghost k0 = bounds@.len() as nat;
        let mut a = String::new();
        push_two_digits(&mut a, t as u64);
        a.append(":01");
        let mut b = String::new();
        push_two_digits(&mut b, t as u64);
        b.append(":30");
        let mut c = String::new();
        push_two_digits(&mut c, t as u64);
        c.append(":31");
        let mut d = String::new();
        push_two_digits(&mut d, t as u64 + 1);
        d.append(":00");
        proof {
            assert(k0 / 2 == (t - between.from) as nat && k0 % 2 == 0) by (nonlinear_arith)
                requires
                    k0 == 2 * (t - between.from) as nat,
            ;
            assert((k0 + 1) / 2 == (t - between.from) as nat && (k0 + 1) % 2 == 1) by (nonlinear_arith)
                requires
                    k0 == 2 * (t - between.from) as nat,
            ;
            assert((a@, b@) == slot_bound(between.from as nat, k0));
            assert((c@, d@) == slot_bound(between.from as nat, k0 + 1));
        }
        bounds.push((a, b));
        bounds.push((c, d));
        t = t + 1;
    }
    bounds
}

} // verus!
