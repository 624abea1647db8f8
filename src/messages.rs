//! The text of the notifications: one line per tournament record, one line
//! per moved ranking row.

use crate::ranking::{changed_subset, PositionChangeInfo, Ranking, RankingEntry, RankingEntryModel};
use crate::tournaments::{
    ChangeModel, EntryModel, StatusModel, TournamentChange, TournamentEntry, TournamentStatus,
    TournamentStatuses,
};
use vstd::prelude::*;

verus! {

/// The decimal digits, in order.
pub const DIGITS: &'static str = "0123456789";

/// The decimal rendering of a number, without leading zeros.
pub open spec fn decimal(n: nat) -> Seq<char>
    decreases n,
{
    if n < 10 {
        seq![DIGITS@[n as int]]
    } else {
        decimal(n / 10).push(DIGITS@[(n % 10) as int])
    }
}

/// Appends the decimal rendering of `n`.
pub fn push_decimal(s: &mut String, n: u64)
    ensures
        final(s)@ == old(s)@ + decimal(n as nat),
    decreases n,
{
    if n >= 10 {
        push_decimal(s, n / 10);
    }
    let d = (n % 10) as usize;
    proof {
        reveal_strlit("0123456789");
    }
    s.append(DIGITS.substring_char(d, d + 1));
    assert(DIGITS@.subrange(d as int, d as int + 1) =~= seq![DIGITS@[d as int]]);
}

/// The absolute value of a delta.
pub open spec fn magnitude(d: i32) -> nat {
    if d < 0 {
        (-d) as nat
    } else {
        d as nat
    }
}

fn magnitude_of(d: i32) -> (r: u64)
    ensures
        r as nat == magnitude(d),
{
    if d < 0 {
        (-(d as i64)) as u64
    } else {
        d as u64
    }
}

pub const MESSAGE_PREFIX: &'static str =
    "**TOURNAMENTS UPDATE** (http://mahjong-europe.org/ranking/Calendar.html)\n\n";

/// The text that announces a new tournament.
pub open spec fn new_entry_message(e: EntryModel) -> Seq<char> {
    "**NEW**: _"@ + e.name + "_"@ + (if e.url.len() > 0 {
        " ("@ + e.url + ")"@
    } else {
        seq![]
    }) + "; "@ + e.date + "; "@ + e.place + "; "@ + "MERS: "@ + e.approval_status + (
    if e.results_status.len() > 0 {
        "; "@ + e.results_status
    } else {
        seq![]
    })
}

/// A changed field as it shows in a message, nothing where it did not change.
pub open spec fn field_part(label: Seq<char>, v: Option<Seq<char>>, close: Seq<char>) -> Seq<char> {
    match v {
        Some(x) => "; "@ + label + x + close,
        None => seq![],
    }
}

/// The text that announces a changed tournament: its date, place, approval
/// and results where they changed.
pub open spec fn change_message(c: ChangeModel) -> Seq<char> {
    "**CHANGED**: _"@ + c.name + "_"@ + field_part("date: "@, c.date, seq![]) + field_part(
        "place: "@,
        c.place,
        seq![],
    ) + field_part("MERS approval: "@, c.approval_status, seq![]) + field_part(
        "results: \""@,
        c.results_status,
        "\""@,
    )
}

pub open spec fn status_message(s: StatusModel) -> Seq<char> {
    match s {
        StatusModel::New(e) => new_entry_message(e),
        StatusModel::Changed(c) => change_message(c),
    }
}

/// One bulleted line per record, each ended by a newline.
pub open spec fn statuses_message(s: Seq<StatusModel>) -> Seq<char>
    decreases s.len(),
{
    if s.len() == 0 {
        seq![]
    } else {
        statuses_message(s.drop_last()) + "* "@ + status_message(s.last()) + "\n"@
    }
}

fn push_field(s: &mut String, label: &str, v: &Option<String>, close: &str)
    ensures
        final(s)@ == old(s)@ + field_part(label@, crate::tournaments::opt_view(*v), close@),
{
    match v {
        Some(x) => {
            s.append("; ");
            s.append(label);
            s.append(x.as_str());
            s.append(close);
            assert(final(s)@ =~= old(s)@ + ("; "@ + label@ + x@ + close@));
        },
        None => {
            assert(old(s)@ + seq![] =~= old(s)@);
        },
    }
}

fn new_entry_text(entry: &TournamentEntry) -> (r: String)
    ensures
        r@ == new_entry_message(entry@),
{
    let mut s = String::new();
    s.append("**NEW**: _");
    s.append(entry.name.as_str());
    s.append("_");
    let ghost head = s@;
    if !entry.url.as_str().is_empty() {
        s.append(" (");
        s.append(entry.url.as_str());
        s.append(")");
        assert(s@ =~= head + (" ("@ + entry.url@ + ")"@));
    } else {
        assert(s@ =~= head + seq![]);
    }
    s.append("; ");
    s.append(entry.date.as_str());
    s.append("; ");
    s.append(entry.place.as_str());
    s.append("; ");
    s.append("MERS: ");
    s.append(entry.approval_status.as_str());
    let ghost body = s@;
    if !entry.results_status.as_str().is_empty() {
        s.append("; ");
        s.append(entry.results_status.as_str());
        assert(s@ =~= body + ("; "@ + entry.results_status@));
    } else {
        assert(s@ =~= body + seq![]);
    }
    assert(s@ =~= new_entry_message(entry@));
    s
}

fn change_text(change: &TournamentChange) -> (r: String)
    ensures
        r@ == change_message(change@),
{
    let mut s = String::new();
    s.append("**CHANGED**: _");
    s.append(change.name.as_str());
    s.append("_");
    push_field(&mut s, "date: ", &change.date, "");
    push_field(&mut s, "place: ", &change.place, "");
    push_field(&mut s, "MERS approval: ", &change.approval_status, "");
    push_field(&mut s, "results: \"", &change.results_status, "\"");
    proof {
        reveal_strlit("");
    }
    assert(s@ =~= change_message(change@));
    s
}

/// The text of one record.
pub fn diff_as_message(diff: &TournamentStatus) -> (r: String)
    ensures
        r@ == status_message(diff@),
{
    match diff {
        TournamentStatus::New(entry) => new_entry_text(entry),
        TournamentStatus::Changed(change) => change_text(change),
    }
}

/// One bulleted line per record of the change set.
pub fn build_message(tournaments: &TournamentStatuses) -> (r: String)
    ensures
        r@ == statuses_message(tournaments@),
{
    let ghost all = tournaments@;
    let mut text = String::new();
    let mut i: usize = 0;
    while i < tournaments.0.len()
        invariant
            0 <= i <= tournaments.0@.len(),
            all == tournaments@,
            text@ == statuses_message(all.take(i as int)),
        decreases tournaments.0@.len() - i,
    {
        let ghost t = all.take(i as int + 1);
        assert(t.drop_last() =~= all.take(i as int));
        text.append("* ");
        let line = diff_as_message(&tournaments.0[i]);
        text.append(line.as_str());
        text.append("\n");
        assert(text@ =~= statuses_message(t));
        i = i + 1;
    }
    assert(all.take(i as int) =~= all);
    text
}

/// Sends tournament change sets to the channels that a provider lists.
pub struct TournamentsChannelMessageNotifier<T> {
    channel_list_provider: T,
}

impl<T> TournamentsChannelMessageNotifier<T> {
    pub closed spec fn provider_spec(&self) -> T {
        self.channel_list_provider
    }

    pub fn new(channel_list_provider: T) -> (r: Self)
        ensures
            r.provider_spec() == channel_list_provider,
    {
        TournamentsChannelMessageNotifier { channel_list_provider }
    }

    /// The provider of the channels to notify.
    pub fn channel_list_provider(&self) -> (r: &T)
        ensures
            *r == self.provider_spec(),
    {
        &self.channel_list_provider
    }

    /// The whole notification: a heading, then one line per record.
    pub fn build_message(tournament_statuses: &TournamentStatuses) -> (r: String)
        ensures
            r@ == MESSAGE_PREFIX@ + statuses_message(tournament_statuses@),
    {
        let mut text = String::from_str(MESSAGE_PREFIX);
        let body = build_message(tournament_statuses);
        text.append(body.as_str());
        text
    }
}

/// How a position move shows in a ranking line.
pub open spec fn position_delta(p: PositionChangeInfo) -> Seq<char> {
    match p {
        PositionChangeInfo::New => " (NEW)"@,
        PositionChangeInfo::Diff(d) => if d < 0 {
            " (↓"@ + decimal(magnitude(d)) + ")"@
        } else if d > 0 {
            " (↑"@ + decimal(magnitude(d)) + ")"@
        } else {
            seq![]
        },
    }
}

/// How a points move shows in a ranking line; a new row shows no move.
pub open spec fn points_delta(p: PositionChangeInfo) -> Seq<char> {
    match p {
        PositionChangeInfo::New => seq![],
        PositionChangeInfo::Diff(d) => if d < 0 {
            " (-"@ + decimal(magnitude(d)) + ")"@
        } else if d > 0 {
            " (+"@ + decimal(magnitude(d)) + ")"@
        } else {
            seq![]
        },
    }
}

/// One ranking row as it shows in a notification.
pub open spec fn ranking_line(e: RankingEntryModel) -> Seq<char> {
    "• "@ + decimal(e.pos as nat) + position_delta(e.pos_diff) + " / "@ + e.name + " / "@
        + decimal(e.points as nat) + points_delta(e.points_diff) + " pkt"@
}

/// The lines of the rows, joined by newlines.
pub open spec fn ranking_lines(s: Seq<RankingEntryModel>) -> Seq<char>
    decreases s.len(),
{
    if s.len() == 0 {
        seq![]
    } else if s.len() == 1 {
        ranking_line(s[0])
    } else {
        ranking_lines(s.drop_last()) + "\n"@ + ranking_line(s.last())
    }
}

fn push_position_delta(s: &mut String, p: PositionChangeInfo)
    ensures
        final(s)@ == old(s)@ + position_delta(p),
{
    match p {
        PositionChangeInfo::New => {
            s.append(" (NEW)");
        },
        PositionChangeInfo::Diff(d) => {
            if d < 0 {
                s.append(" (↓");
                push_decimal(s, magnitude_of(d));
                s.append(")");
                assert(final(s)@ =~= old(s)@ + position_delta(p));
            } else if d > 0 {
                s.append(" (↑");
                push_decimal(s, magnitude_of(d));
                s.append(")");
                assert(final(s)@ =~= old(s)@ + position_delta(p));
            } else {
                assert(old(s)@ + seq![] =~= old(s)@);
            }
        },
    }
}

fn push_points_delta(s: &mut String, p: PositionChangeInfo)
    ensures
        final(s)@ == old(s)@ + points_delta(p),
{
    match p {
        PositionChangeInfo::New => {
            assert(old(s)@ + seq![] =~= old(s)@);
        },
        PositionChangeInfo::Diff(d) => {
            if d < 0 {
                s.append(" (-");
                push_decimal(s, magnitude_of(d));
                s.append(")");
                assert(final(s)@ =~= old(s)@ + points_delta(p));
            } else if d > 0 {
                s.append(" (+");
                push_decimal(s, magnitude_of(d));
                s.append(")");
                assert(final(s)@ =~= old(s)@ + points_delta(p));
            } else {
                assert(old(s)@ + seq![] =~= old(s)@);
            }
        },
    }
}

fn push_ranking_line(s: &mut String, e: &RankingEntry)
    ensures
        final(s)@ == old(s)@ + ranking_line(e@),
{
    s.append("• ");
    push_decimal(s, e.pos as u64);
    push_position_delta(s, e.pos_diff);
    s.append(" / ");
    s.append(e.name.as_str());
    s.append(" / ");
    push_decimal(s, e.points as u64);
    push_points_delta(s, e.points_diff);
    s.append(" pkt");
    assert(final(s)@ =~= old(s)@ + ranking_line(e@));
}

/// Sends the moved rows of the ranking to one channel, after a fixed text.
pub struct ChannelMessageNotifier {
    channel_id: u64,
    message: String,
}

impl ChannelMessageNotifier {
    pub closed spec fn channel_spec(&self) -> u64 {
        self.channel_id
    }

    pub closed spec fn message_spec(&self) -> Seq<char> {
        self.message@
    }

    pub fn new(channel_id: u64, message: String) -> (r: Self)
        ensures
            r.channel_spec() == channel_id,
            r.message_spec() == message@,
    {
        ChannelMessageNotifier { channel_id, message }
    }

    /// The channel to notify.
    pub fn channel_id(&self) -> (r: u64)
        ensures
            r == self.channel_spec(),
    {
        self.channel_id
    }

    /// The fixed text, a heading, then one line per moved row.
    pub fn build_message(&self, ranking: &Ranking) -> (r: String)
        ensures
            r@ == self.message_spec() + "\n\nLatest changes:\n"@ + ranking_lines(
                changed_subset(ranking@),
            ),
    {
        let mut base = self.message.clone();
        base.append("\n\nLatest changes:\n");
        let ghost head = base@;
        let changed = ranking.get_changed();
        let ghost c = changed_subset(ranking@);
        let mut i: usize = 0;
        while i < changed.len()
            invariant
                0 <= i <= changed@.len(),
                c == crate::ranking::ranking_refs_view(changed@),
                base@ == head + ranking_lines(c.take(i as int)),
            decreases changed@.len() - i,
        {
            let ghost t = c.take(i as int + 1);
            assert(t.drop_last() =~= c.take(i as int));
            assert(t.last() == changed@[i as int]@);
            if i > 0 {
                base.append("\n");
            }
            push_ranking_line(&mut base, changed[i]);
            if i == 0 {
                assert(ranking_lines(t) == ranking_line(t[0]));
                assert(ranking_lines(c.take(0)) =~= seq![]);
            }
            assert(base@ =~= head + ranking_lines(t));
            i = i + 1;
        }
        assert(c.take(i as int) =~= c);
        base
    }
}

} // verus!
