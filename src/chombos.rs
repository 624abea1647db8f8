//! Chombo penalties recorded against club players, and the ranking of
//! players by how many they got.

use crate::chunker::{byte_len, concat_all, lemma_byte_len_add, strings_view};
use crate::players::{Player, PlayerId};
use vstd::prelude::*;

verus! {

/// A penalty recorded against a player.
#[derive(Clone, Debug, PartialEq, Eq)]
pub struct Chombo {
    /// When it happened, in microseconds since the Unix epoch (UTC).
    pub timestamp: i64,
    pub player: PlayerId,
    pub comment: String,
}

impl Chombo {
    pub fn new(timestamp: i64, player: &PlayerId, comment: &str) -> (r: Self)
        ensures
            r.timestamp == timestamp,
            r.player.0@ == player.0@,
            r.comment@ == comment@,
    {
        Chombo {
            timestamp,
            player: PlayerId(player.0.clone()),
            comment: String::from_str(comment),
        }
    }
}

pub open spec fn chombo_ids(chombos: Seq<Chombo>) -> Seq<Seq<char>> {
    chombos.map_values(|c: Chombo| c.player.0@)
}

/// How many of the penalties name the player `id`.
pub open spec fn chombo_count(ids: Seq<Seq<char>>, id: Seq<char>) -> nat
    decreases ids.len(),
{
    if ids.len() == 0 {
        0
    } else {
        chombo_count(ids.drop_last(), id) + if ids.last() == id {
            1nat
        } else {
            0nat
        }
    }
}

/// The players named by the penalties, each once, in order of their first
/// penalty.
pub open spec fn distinct_ids(ids: Seq<Seq<char>>) -> Seq<Seq<char>>
    decreases ids.len(),
{
    if ids.len() == 0 {
        seq![]
    } else {
        let prev = distinct_ids(ids.drop_last());
        if prev.contains(ids.last()) {
            prev
        } else {
            prev.push(ids.last())
        }
    }
}

/// The player listed under `id`; of several, the last one.
pub open spec fn player_for(players: Seq<Player>, id: Seq<char>) -> Option<Player>
    decreases players.len(),
{
    if players.len() == 0 {
        None
    } else if players.last().id.0@ == id {
        Some(players.last())
    } else {
        player_for(players.drop_last(), id)
    }
}

pub open spec fn same_player(a: Player, b: Player) -> bool {
    &&& a.id.0@ == b.id.0@
    &&& a.first_name@ == b.first_name@
    &&& a.last_name@ == b.last_name@
    &&& a.nickname@ == b.nickname@
    &&& a.discord_id.0@ == b.discord_id.0@
}

/// `a` comes before `b` in the ranking: more penalties first, and of players
/// with as many, the one whose first penalty came first.
pub open spec fn ranks_above(ids: Seq<Seq<char>>, a: Seq<char>, b: Seq<char>) -> bool {
    let ca = chombo_count(ids, a);
    let cb = chombo_count(ids, b);
    ca > cb || (ca == cb && position(distinct_ids(ids), a) < position(distinct_ids(ids), b))
}

/// Where `x` first occurs in `s` (the length of `s` when it does not).
pub open spec fn position(s: Seq<Seq<char>>, x: Seq<char>) -> int
    decreases s.len(),
{
    if s.len() == 0 {
        0
    } else if s[0] == x {
        0
    } else {
        1 + position(s.drop_first(), x)
    }
}

/// Some penalty names a player that is not listed.
pub open spec fn names_unknown_player(players: Seq<Player>, ids: Seq<Seq<char>>) -> bool {
    exists|k: int| 0 <= k < ids.len() && player_for(players, #[trigger] ids[k]) is None
}

proof fn lemma_distinct_ids(ids: Seq<Seq<char>>)
    ensures
        distinct_ids(ids).no_duplicates(),
        forall|x: Seq<char>| ids.contains(x) <==> #[trigger] distinct_ids(ids).contains(x),
        forall|x: Seq<char>| !distinct_ids(ids).contains(x) ==> #[trigger] chombo_count(ids, x) == 0,
    decreases ids.len(),
{
    if ids.len() > 0 {
        let p = ids.drop_last();
        lemma_distinct_ids(p);
        let d = distinct_ids(ids);
        let dp = distinct_ids(p);
        let last = ids.last();
        assert(ids[ids.len() - 1] == last);
        assert(d.contains(last)) by {
            if dp.contains(last) {
            } else {
                assert(d[d.len() - 1] == last);
            }
        }
        assert forall|x: Seq<char>| dp.contains(x) implies #[trigger] d.contains(x) by {
            let j = choose|j: int| 0 <= j < dp.len() && dp[j] == x;
            assert(d[j] == dp[j]);
        }
        assert forall|x: Seq<char>| ids.contains(x) <==> #[trigger] d.contains(x) by {
            if ids.contains(x) {
                let k = choose|k: int| 0 <= k < ids.len() && ids[k] == x;
                if k < ids.len() - 1 {
                    assert(p[k] == x);
                    assert(p.contains(x));
                    assert(dp.contains(x));
                }
            }
            if d.contains(x) {
                if dp.contains(x) {
                    assert(p.contains(x));
                    let k = choose|k: int| 0 <= k < p.len() && p[k] == x;
                    assert(ids[k] == x);
                } else {
                    let j = choose|j: int| 0 <= j < d.len() && d[j] == x;
                    assert(j == d.len() - 1);
                    assert(x == last);
                }
            }
        }
        assert forall|x: Seq<char>| !d.contains(x) implies #[trigger] chombo_count(ids, x) == 0 by {
            assert(!dp.contains(x));
            assert(x != last);
            assert(chombo_count(p, x) == 0);
        }
    }
}

proof fn lemma_position(s: Seq<Seq<char>>, k: int)
    requires
        s.no_duplicates(),
        0 <= k < s.len(),
    ensures
        position(s, s[k]) == k,
    decreases k,
{
    if k > 0 {
        assert(s[0] != s[k]);
        let t = s.drop_first();
        assert(t[k - 1] == s[k]);
        assert(t.no_duplicates()) by {
            assert forall|a: int, b: int| 0 <= a < t.len() && 0 <= b < t.len() && a != b implies t[a] != t[b] by {
                assert(t[a] == s[a + 1] && t[b] == s[b + 1]);
            }
        }
        lemma_position(t, k - 1);
    }
}

proof fn lemma_player_for_id(players: Seq<Player>, id: Seq<char>)
    ensures
        match player_for(players, id) {
            Some(p) => p.id.0@ == id,
            None => true,
        },
    decreases players.len(),
{
    if players.len() > 0 {
        lemma_player_for_id(players.drop_last(), id);
    }
}

fn copy_player(p: &Player) -> (r: Player)
    ensures
        same_player(r, *p),
{
    Player {
        id: PlayerId(p.id.0.clone()),
        first_name: p.first_name.clone(),
        last_name: p.last_name.clone(),
        nickname: p.nickname.clone(),
        discord_id: crate::players::DiscordId(p.discord_id.0.clone()),
    }
}

fn find_player<'a>(players: &'a Vec<Player>, id: &String) -> (r: Option<&'a Player>)
    ensures
        match r {
            Some(p) => player_for(players@, id@) == Some(*p),
            None => player_for(players@, id@) is None,
        },
{
    let mut i: usize = players.len();
    assert(players@.take(i as int) =~= players@);
    while i > 0
        invariant
            0 <= i <= players@.len(),
            player_for(players@, id@) == player_for(players@.take(i as int), id@),
        decreases i,
    {
        let ghost t = players@.take(i as int);
        assert(t.drop_last() =~= players@.take(i as int - 1));
        assert(t.last() == players@[i - 1]);
        if players[i - 1].id.0 == *id {
            return Some(&players[i - 1]);
        }
        i = i - 1;
    }
    None
}

pub open spec fn strs_view(v: Seq<String>) -> Seq<Seq<char>> {
    v.map_values(|s: String| s@)
}

/// The players named by the penalties, in order of their first penalty,
/// with how many penalties each got.
fn tally(chombos: &Vec<Chombo>) -> (r: (Vec<String>, Vec<usize>))
    ensures
        strs_view(r.0@) == distinct_ids(chombo_ids(chombos@)),
        r.1@.len() == r.0@.len(),
        forall|k: int| 0 <= k < r.1@.len() ==> #[trigger] r.1@[k] == chombo_count(chombo_ids(chombos@), r.0@[k]@),
{
    let ghost cids = chombo_ids(chombos@);
    let mut ids: Vec<String> = Vec::new();
    let mut counts: Vec<usize> = Vec::new();
    let mut i: usize = 0;
    while i < chombos.len()
        invariant
            0 <= i <= chombos@.len(),
            cids == chombo_ids(chombos@),
            strs_view(ids@) == distinct_ids(cids.take(i as int)),
            counts@.len() == ids@.len(),
            forall|k: int| 0 <= k < counts@.len() ==> #[trigger] counts@[k] == chombo_count(cids.take(i as int), ids@[k]@),
            forall|k: int| 0 <= k < counts@.len() ==> #[trigger] counts@[k] <= i,
        decreases chombos@.len() - i,
    {
        let ghost t = cids.take(i as int + 1);
        let ghost before = cids.take(i as int);
        assert(t.drop_last() =~= before);
        assert(t.last() == chombos@[i as int].player.0@);
        proof {
            lemma_distinct_ids(before);
        }
        let id = &chombos[i].player.0;
        let mut k: usize = 0;
        while k < ids.len() && ids[k] != *id
            invariant
                0 <= k <= ids@.len(),
                forall|j: int| 0 <= j < k ==> (#[trigger] ids@[j])@ != id@,
            decreases ids@.len() - k,
        {
            k = k + 1;
        }
        if k < ids.len() {
            assert(strs_view(ids@)[k as int] == id@);
            assert(distinct_ids(before).contains(id@));
            let c = counts[k];
            let ghost old_counts = counts@;
            assert(c == chombo_count(before, id@));
            assert(c < i + 1);
            counts.set(k, c + 1);
            assert forall|j: int| 0 <= j < counts@.len() implies #[trigger] counts@[j] == chombo_count(t, ids@[j]@) by {
                assert(old_counts[j] == chombo_count(before, ids@[j]@));
                assert(strs_view(ids@)[j] == ids@[j]@);
                if j != k {
                    assert(strs_view(ids@)[j] != strs_view(ids@)[k as int]);
                    assert(counts@[j] == old_counts[j]);
                } else {
                    assert(ids@[j]@ == id@);
                }
            }
        } else {
            assert(!distinct_ids(before).contains(id@)) by {
                if distinct_ids(before).contains(id@) {
                    let j = choose|j: int| 0 <= j < distinct_ids(before).len() && distinct_ids(before)[j] == id@;
                    assert(strs_view(ids@)[j] == ids@[j]@);
                }
            }
            ids.push(id.clone());
            counts.push(1);
            assert(strs_view(ids@) =~= distinct_ids(t));
            assert forall|j: int| 0 <= j < counts@.len() implies #[trigger] counts@[j] == chombo_count(t, ids@[j]@) by {
                if j < counts@.len() - 1 {
                    assert(strs_view(ids@)[j] == distinct_ids(before)[j]);
                    assert(distinct_ids(before).contains(ids@[j]@));
                }
            }
        }
        i = i + 1;
    }
    assert(cids.take(i as int) =~= cids);
    (ids, counts)
}

/// `a` goes before `b`: more penalties first, then the earlier first penalty.
pub open spec fn tally_before(counts: Seq<usize>, a: int, b: int) -> bool {
    counts[a] > counts[b] || (counts[a] == counts[b] && a < b)
}

/// The indices `0..counts.len()` ordered by `tally_before`.
fn rank_order(counts: &Vec<usize>) -> (order: Vec<usize>)
    ensures
        order@.len() == counts@.len(),
        forall|j: int| 0 <= j < order@.len() ==> #[trigger] order@[j] < counts@.len(),
        forall|j1: int, j2: int|
            0 <= j1 < j2 < order@.len() ==> tally_before(counts@, #[trigger] order@[j1] as int, #[trigger] order@[j2] as int),
{
    let mut order: Vec<usize> = Vec::new();
    let mut k: usize = 0;
    while k < counts.len()
        invariant
            0 <= k <= counts@.len(),
            order@.len() == k,
            forall|j: int| 0 <= j < order@.len() ==> #[trigger] order@[j] < k,
            forall|j1: int, j2: int|
                0 <= j1 < j2 < order@.len() ==> tally_before(counts@, #[trigger] order@[j1] as int, #[trigger] order@[j2] as int),
        decreases counts@.len() - k,
    {
        let mut p: usize = 0;
        while p < order.len() && counts[order[p]] >= counts[k]
            invariant
                0 <= p <= order@.len(),
                forall|j: int| 0 <= j < order@.len() ==> #[trigger] order@[j] < k,
                k < counts@.len(),
                forall|j: int| 0 <= j < p ==> counts@[#[trigger] order@[j] as int] >= counts@[k as int],
            decreases order@.len() - p,
        {
            p = p + 1;
        }
        let ghost before = order@;
        order.insert(p, k);
        proof {
            assert(order@ =~= before.insert(p as int, k));
            assert forall|j1: int, j2: int|
                0 <= j1 < j2 < order@.len() implies tally_before(counts@, #[trigger] order@[j1] as int, #[trigger] order@[j2] as int) by {
                if j2 < p {
                    assert(order@[j1] == before[j1] && order@[j2] == before[j2]);
                } else if j2 == p {
                    assert(order@[j1] == before[j1]);
                    assert(before[j1] < k);
                } else if j1 < p {
                    assert(order@[j1] == before[j1] && order@[j2] == before[j2 - 1]);
                } else if j1 == p {
                    assert(order@[j2] == before[j2 - 1]);
                    assert(counts@[before[p as int] as int] < counts@[k as int]);
                    if j2 - 1 > p {
                        assert(tally_before(counts@, before[p as int] as int, before[j2 - 1] as int));
                    }
                } else {
                    assert(order@[j1] == before[j1 - 1] && order@[j2] == before[j2 - 1]);
                }
            }
        }
        k = k + 1;
    }
    order
}

/// The ranking of the players named by the penalties: each with the number
/// of penalties naming them, more first, and of players with as many, the
/// one whose first penalty came first. Fails when a penalty names a player
/// that is not listed.
pub fn create_chombo_ranking(players: &Vec<Player>, chombos: &Vec<Chombo>) -> (r: Option<Vec<(Player, usize)>>)
    ensures
        match r {
            None => names_unknown_player(players@, chombo_ids(chombos@)),
            Some(v) => {
                let ids = chombo_ids(chombos@);
                &&& !names_unknown_player(players@, ids)
                &&& v@.len() == distinct_ids(ids).len()
                &&& forall|k: int|
                    0 <= k < v@.len() ==> {
                        let id = (#[trigger] v@[k]).0.id.0@;
                        &&& ids.contains(id)
                        &&& v@[k].1 == chombo_count(ids, id)
                        &&& match player_for(players@, id) {
                            Some(p) => same_player(v@[k].0, p),
                            None => false,
                        }
                    }
                &&& forall|k1: int, k2: int|
                    0 <= k1 < k2 < v@.len() ==> ranks_above(ids, (#[trigger] v@[k1]).0.id.0@, (#[trigger] v@[k2]).0.id.0@)
            },
        },
{
    let ghost cids = chombo_ids(chombos@);
    let (ids, counts) = tally(chombos);
    let ghost d = distinct_ids(cids);
    proof {
        lemma_distinct_ids(cids);
    }
    let mut m: usize = 0;
    while m < ids.len()
        invariant
            0 <= m <= ids@.len(),
            cids == chombo_ids(chombos@),
            strs_view(ids@) == d,
            d == distinct_ids(cids),
            forall|x: Seq<char>| cids.contains(x) <==> #[trigger] d.contains(x),
            forall|j: int| 0 <= j < m ==> player_for(players@, #[trigger] ids@[j]@) is Some,
        decreases ids@.len() - m,
    {
        if find_player(players, &ids[m]).is_none() {
            proof {
                assert(d[m as int] == ids@[m as int]@);
                assert(d.contains(ids@[m as int]@));
                assert(cids.contains(ids@[m as int]@));
                let k = choose|k: int| 0 <= k < cids.len() && cids[k] == ids@[m as int]@;
                assert(player_for(players@, cids[k]) is None);
            }
            return None;
        }
        m = m + 1;
    }
    proof {
        assert forall|k: int| 0 <= k < cids.len() implies player_for(players@, #[trigger] cids[k]) is Some by {
            assert(cids.contains(cids[k]));
            assert(d.contains(cids[k]));
            let j = choose|j: int| 0 <= j < d.len() && d[j] == cids[k];
            assert(d[j] == ids@[j]@);
        }
    }
    let order = rank_order(&counts);
    let mut ranking: Vec<(Player, usize)> = Vec::new();
    let mut j: usize = 0;
    while j < order.len()
        invariant
            0 <= j <= order@.len(),
            cids == chombo_ids(chombos@),
            order@.len() == counts@.len(),
            counts@.len() == ids@.len(),
            strs_view(ids@) == d,
            d == distinct_ids(cids),
            d.no_duplicates(),
            forall|x: Seq<char>| cids.contains(x) <==> #[trigger] d.contains(x),
            forall|i: int| 0 <= i < ids@.len() ==> player_for(players@, #[trigger] ids@[i]@) is Some,
            forall|i: int| 0 <= i < counts@.len() ==> #[trigger] counts@[i] == chombo_count(cids, ids@[i]@),
            forall|i: int| 0 <= i < order@.len() ==> #[trigger] order@[i] < counts@.len(),
            forall|j1: int, j2: int|
                0 <= j1 < j2 < order@.len() ==> tally_before(counts@, #[trigger] order@[j1] as int, #[trigger] order@[j2] as int),
            ranking@.len() == j,
            forall|i: int| 0 <= i < j ==> (#[trigger] ranking@[i]).0.id.0@ == ids@[order@[i] as int]@ && ranking@[i].1 == counts@[order@[i] as int] && match player_for(players@, ranking@[i].0.id.0@) {
                Some(p) => same_player(ranking@[i].0, p),
                None => false,
            },
        decreases order@.len() - j,
    {
        let idx = order[j];
        match find_player(players, &ids[idx]) {
            Some(p) => {
                let player = copy_player(p);
                proof {
                    lemma_player_for_id(players@, ids@[idx as int]@);
                }
                ranking.push((player, counts[idx]));
            },
            None => {
                assert(player_for(players@, ids@[idx as int]@) is Some);
                return None;
            },
        }
        j = j + 1;
    }
    proof {
        assert forall|k: int| 0 <= k < ranking@.len() implies {
            let id = (#[trigger] ranking@[k]).0.id.0@;
            &&& cids.contains(id)
            &&& ranking@[k].1 == chombo_count(cids, id)
        } by {
            let i = order@[k] as int;
            assert(d[i] == ids@[i]@);
            assert(d.contains(ids@[i]@));
        }
        assert forall|k1: int, k2: int| 0 <= k1 < k2 < ranking@.len() implies ranks_above(
            cids,
            (#[trigger] ranking@[k1]).0.id.0@,
            (#[trigger] ranking@[k2]).0.id.0@,
        ) by {
            let i1 = order@[k1] as int;
            let i2 = order@[k2] as int;
            assert(tally_before(counts@, i1, i2));
            assert(d[i1] == ids@[i1]@ && d[i2] == ids@[i2]@);
            lemma_position(d, i1);
            lemma_position(d, i2);
        }
        assert(!names_unknown_player(players@, cids)) by {
            if names_unknown_player(players@, cids) {
                let k = choose|k: int| 0 <= k < cids.len() && player_for(players@, #[trigger] cids[k]) is None;
                assert(cids.contains(cids[k]));
                assert(d.contains(cids[k]));
                let i = choose|i: int| 0 <= i < d.len() && d[i] == cids[k];
                assert(d[i] == ids@[i]@);
            }
        }
    }
    Some(ranking)
}

/// `a` is listed before `b`: the later penalty first, and of two at the same
/// time, the one listed later.
pub open spec fn newer_first(chombos: Seq<Chombo>, a: int, b: int) -> bool {
    chombos[a].timestamp > chombos[b].timestamp || (chombos[a].timestamp == chombos[b].timestamp
        && a > b)
}

/// The indices of the penalties, newest first.
fn newest_first_order(chombos: &Vec<Chombo>) -> (order: Vec<usize>)
    ensures
        order@.len() == chombos@.len(),
        order@.no_duplicates(),
        forall|j: int| 0 <= j < order@.len() ==> #[trigger] order@[j] < chombos@.len(),
        forall|j1: int, j2: int|
            0 <= j1 < j2 < order@.len() ==> newer_first(chombos@, #[trigger] order@[j1] as int, #[trigger] order@[j2] as int),
{
    let mut order: Vec<usize> = Vec::new();
    let mut k: usize = 0;
    while k < chombos.len()
        invariant
            0 <= k <= chombos@.len(),
            order@.len() == k,
            order@.no_duplicates(),
            forall|j: int| 0 <= j < order@.len() ==> #[trigger] order@[j] < k,
            forall|j1: int, j2: int|
                0 <= j1 < j2 < order@.len() ==> newer_first(chombos@, #[trigger] order@[j1] as int, #[trigger] order@[j2] as int),
        decreases chombos@.len() - k,
    {
        let mut p: usize = 0;
        while p < order.len() && chombos[order[p]].timestamp > chombos[k].timestamp
            invariant
                0 <= p <= order@.len(),
                k < chombos@.len(),
                forall|j: int| 0 <= j < order@.len() ==> #[trigger] order@[j] < k,
                forall|j: int| 0 <= j < p ==> chombos@[#[trigger] order@[j] as int].timestamp > chombos@[k as int].timestamp,
            decreases order@.len() - p,
        {
            p = p + 1;
        }
        let ghost before = order@;
        order.insert(p, k);
        proof {
            assert(order@ =~= before.insert(p as int, k));
            assert forall|j1: int, j2: int|
                0 <= j1 < j2 < order@.len() implies newer_first(chombos@, #[trigger] order@[j1] as int, #[trigger] order@[j2] as int) by {
                if j2 < p {
                    assert(order@[j1] == before[j1] && order@[j2] == before[j2]);
                } else if j2 == p {
                    assert(order@[j1] == before[j1]);
                } else if j1 < p {
                    assert(order@[j1] == before[j1] && order@[j2] == before[j2 - 1]);
                } else if j1 == p {
                    assert(order@[j2] == before[j2 - 1]);
                    assert(before[j2 - 1] < k);
                    assert(chombos@[before[p as int] as int].timestamp <= chombos@[k as int].timestamp);
                    if j2 - 1 > p {
                        assert(newer_first(chombos@, before[p as int] as int, before[j2 - 1] as int));
                    }
                } else {
                    assert(order@[j1] == before[j1 - 1] && order@[j2] == before[j2 - 1]);
                }
            }
            assert forall|a: int, b: int| 0 <= a < order@.len() && 0 <= b < order@.len() && a != b implies order@[a] != order@[b] by {
                if a != p && b != p {
                    let a0 = if a < p { a } else { a - 1 };
                    let b0 = if b < p { b } else { b - 1 };
                    assert(order@[a] == before[a0] && order@[b] == before[b0]);
                } else if a == p {
                    let b0 = if b < p { b } else { b - 1 };
                    assert(order@[b] == before[b0]);
                } else {
                    let a0 = if a < p { a } else { a - 1 };
                    assert(order@[a] == before[a0]);
                }
            }
        }
        k = k + 1;
    }
    order
}

fn copy_chombo(c: &Chombo) -> (r: Chombo)
    ensures
        same_chombo(r, *c),
{
    Chombo { timestamp: c.timestamp, player: PlayerId(c.player.0.clone()), comment: c.comment.clone() }
}

pub open spec fn same_chombo(a: Chombo, b: Chombo) -> bool {
    a.timestamp == b.timestamp && a.player.0@ == b.player.0@ && a.comment@ == b.comment@
}

/// Every penalty with the player it names, newest first; of two at the same
/// time, the one listed later first. Fails when a penalty names a player
/// that is not listed.
pub fn get_chombo_list(players: &Vec<Player>, chombos: &Vec<Chombo>) -> (r: Option<Vec<(Player, Chombo)>>)
    ensures
        match r {
            None => names_unknown_player(players@, chombo_ids(chombos@)),
            Some(v) => {
                &&& !names_unknown_player(players@, chombo_ids(chombos@))
                &&& exists|order: Seq<int>|
                    {
                        &&& order.len() == chombos@.len()
                        &&& order.len() == v@.len()
                        &&& order.no_duplicates()
                        &&& forall|j: int| 0 <= j < order.len() ==> 0 <= #[trigger] order[j] < chombos@.len()
                        &&& forall|j1: int, j2: int|
                            0 <= j1 < j2 < order.len() ==> newer_first(chombos@, #[trigger] order[j1], #[trigger] order[j2])
                        &&& forall|j: int|
                            0 <= j < order.len() ==> same_chombo((#[trigger] v@[j]).1, chombos@[order[j]])
                                && match player_for(players@, chombos@[order[j]].player.0@) {
                                Some(p) => same_player(v@[j].0, p),
                                None => false,
                            }
                    }
            },
        },
{
    let ghost cids = chombo_ids(chombos@);
    let mut m: usize = 0;
    while m < chombos.len()
        invariant
            0 <= m <= chombos@.len(),
            cids == chombo_ids(chombos@),
            forall|i: int| 0 <= i < m ==> player_for(players@, #[trigger] cids[i]) is Some,
        decreases chombos@.len() - m,
    {
        if find_player(players, &chombos[m].player.0).is_none() {
            assert(player_for(players@, cids[m as int]) is None);
            return None;
        }
        m = m + 1;
    }
    let order = newest_first_order(chombos);
    let ghost ord = order@.map_values(|i: usize| i as int);
    let mut list: Vec<(Player, Chombo)> = Vec::new();
    let mut j: usize = 0;
    while j < order.len()
        invariant
            0 <= j <= order@.len(),
            order@.len() == chombos@.len(),
            cids == chombo_ids(chombos@),
            ord == order@.map_values(|i: usize| i as int),
            forall|i: int| 0 <= i < order@.len() ==> #[trigger] order@[i] < chombos@.len(),
            forall|i: int| 0 <= i < chombos@.len() ==> player_for(players@, #[trigger] cids[i]) is Some,
            list@.len() == j,
            forall|i: int| 0 <= i < j ==> same_chombo((#[trigger] list@[i]).1, chombos@[ord[i]])
                && match player_for(players@, chombos@[ord[i]].player.0@) {
                Some(p) => same_player(list@[i].0, p),
                None => false,
            },
        decreases order@.len() - j,
    {
        let chombo = &chombos[order[j]];
        match find_player(players, &chombo.player.0) {
            Some(p) => {
                list.push((copy_player(p), copy_chombo(chombo)));
            },
            None => {
                assert(player_for(players@, cids[order@[j as int] as int]) is Some);
                return None;
            },
        }
        j = j + 1;
    }
    proof {
        assert(ord.no_duplicates()) by {
            assert forall|a: int, b: int| 0 <= a < ord.len() && 0 <= b < ord.len() && a != b implies ord[a] != ord[b] by {
                assert(order@[a] != order@[b]);
            }
        }
        assert forall|j1: int, j2: int| 0 <= j1 < j2 < ord.len() implies newer_first(chombos@, #[trigger] ord[j1], #[trigger] ord[j2]) by {
            assert(ord[j1] == order@[j1] as int && ord[j2] == order@[j2] as int);
        }
    }
    Some(list)
}

/// One line of the penalty list: who, when (as the caller wrote it), and the
/// comment if there is one.
pub open spec fn chombo_entry_text(discord_id: Seq<char>, when: Seq<char>, comment: Seq<char>) -> Seq<char> {
    "<@!"@ + discord_id + "> at "@ + when + (if comment.len() == 0 {
        seq![]
    } else {
        ": *"@ + comment + "*"@
    }) + "\n"@
}

/// The line of the penalty list for one penalty, with its time already
/// written out.
pub fn format_chombo_entry(player: &Player, when: &str, chombo: &Chombo) -> (r: String)
    ensures
        r@ == chombo_entry_text(player.discord_id.0@, when@, chombo.comment@),
{
    let mut text = String::from_str("<@!");
    text.append(player.discord_id.0.as_str());
    text.append("> at ");
    text.append(when);
    let ghost head = text@;
    if !chombo.comment.as_str().is_empty() {
        text.append(": *");
        text.append(chombo.comment.as_str());
        text.append("*");
        assert(text@ =~= head + (": *"@ + chombo.comment@ + "*"@));
    } else {
        assert(text@ =~= head + seq![]);
    }
    text.append("\n");
    text
}

/// `n` entries from the start fit `limit` bytes together, and one more
/// would not.
pub open spec fn fitting_prefix(entries: Seq<Seq<char>>, limit: nat, n: int) -> bool {
    &&& 0 <= n <= entries.len()
    &&& byte_len(concat_all(entries.take(n))) <= limit
    &&& (n == entries.len() || byte_len(concat_all(entries.take(n))) + byte_len(entries[n]) > limit)
}

/// The entries from the start, one after another, as long as they fit
/// `limit` bytes; the first that does not fit ends the text.
pub fn create_chombos_list(entries: &Vec<String>, limit: usize) -> (r: String)
    requires
        forall|k: int| 0 <= k < entries@.len() ==> byte_len((#[trigger] entries@[k])@) <= usize::MAX,
    ensures
        exists|n: int|
            fitting_prefix(strings_view(entries@), limit as nat, n) && r@ == concat_all(
                strings_view(entries@).take(n),
            ),
{
    let ghost es = strings_view(entries@);
    let mut result = String::new();
    let mut result_len: usize = 0;
    let mut i: usize = 0;
    assert(es.take(0) =~= Seq::<Seq<char>>::empty());
    while i < entries.len()
        invariant
            0 <= i <= entries@.len(),
            es == strings_view(entries@),
            forall|k: int| 0 <= k < entries@.len() ==> byte_len((#[trigger] entries@[k])@) <= usize::MAX,
            result@ == concat_all(es.take(i as int)),
            result_len == byte_len(result@),
            result_len <= limit,
        decreases entries@.len() - i,
    {
        let entry = entries[i].as_str();
        let entry_len = entry.len();
        assert(entry_len == byte_len(es[i as int]));
        if entry_len > limit - result_len {
            assert(fitting_prefix(es, limit as nat, i as int));
            return result;
        }
        let ghost before = result@;
        result.append(entry);
        proof {
            lemma_byte_len_add(before, es[i as int]);
            assert(es.take(i as int + 1).drop_last() =~= es.take(i as int));
        }
        result_len = result_len + entry_len;
        i = i + 1;
    }
    assert(es.take(i as int) =~= es);
    assert(fitting_prefix(es, limit as nat, i as int));
    result
}

} // verus!
