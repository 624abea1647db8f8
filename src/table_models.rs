//! What the board game cafe's booking service reports about its tables and
//! opening hours.

use crate::numbers::{parse_u8, parsed_u8};
use vstd::prelude::*;

verus! {

/// One table in one half-hour slot.
#[derive(Clone, Debug, PartialEq, Eq)]
pub struct TableInfo {
    pub label: String,
    pub value: String,
    pub capacity: u8,
    pub available: bool,
    pub name: String,
}

/// A span of full hours, written `hh-hh`.
#[derive(Clone, Copy, Debug, PartialEq, Eq, Structural)]
pub struct TimeRange {
    pub from: u8,
    pub to: u8,
}

/// Opening hours of one day.
#[derive(Clone, Copy, Debug, PartialEq, Eq, Structural)]
pub struct OpeningInfo {
    pub range: TimeRange,
}

/// Why a time range could not be read.
#[derive(Clone, Debug, PartialEq, Eq)]
pub struct TimeRangeError(pub String);

/// Position of the first occurrence of `c`.
pub open spec fn index_of(s: Seq<char>, c: char) -> Option<int>
    decreases s.len(),
{
    if s.len() == 0 {
        None
    } else if s[0] == c {
        Some(0)
    } else {
        match index_of(s.drop_first(), c) {
            Some(i) => Some(i + 1),
            None => None,
        }
    }
}

/// The range that `hh-hh` denotes: both sides of the first `-` read as bytes.
pub open spec fn time_range_of(s: Seq<char>) -> Option<TimeRange> {
    match index_of(s, '-') {
        None => None,
        Some(i) => match (parsed_u8(s.subrange(0, i)), parsed_u8(s.subrange(i + 1, s.len() as int))) {
            (Some(from), Some(to)) => Some(TimeRange { from, to }),
            _ => None,
        },
    }
}

proof fn lemma_index_of_step(s: Seq<char>, c: char, i: int)
    requires
        0 <= i < s.len(),
        forall|j: int| 0 <= j < i ==> s[j] != c,
    ensures
        index_of(s, c) == (if s[i] == c {
            Some(i)
        } else {
            match index_of(s.subrange(i + 1, s.len() as int), c) {
                Some(k) => Some(k + i + 1),
                None => None,
            }
        }),
    decreases i,
{
    if i > 0 {
        let t = s.drop_first();
        assert forall|j: int| 0 <= j < i - 1 implies t[j] != c by {
            assert(t[j] == s[j + 1]);
        }
        lemma_index_of_step(t, c, i - 1);
        assert(t.subrange(i, t.len() as int) =~= s.subrange(i + 1, s.len() as int));
    }
}

impl TimeRange {
    /// Reads `hh-hh`: the hours on both sides of the first `-`.
    pub fn parse(v: &str) -> (r: Result<TimeRange, TimeRangeError>)
        ensures
            match r {
                Ok(t) => time_range_of(v@) == Some(t),
                Err(_) => time_range_of(v@) is None,
            },
    {
        let n = v.unicode_len();
        let mut i: usize = 0;
        while i < n
            invariant
                n == v@.len(),
                0 <= i <= n,
                forall|j: int| 0 <= j < i ==> v@[j] != '-',
            decreases n - i,
        {
            if v.get_char(i) == '-' {
                proof {
                    lemma_index_of_step(v@, '-', i as int);
                }
                let from = parse_u8(v.substring_char(0, i));
                let to = parse_u8(v.substring_char(i + 1, n));
                return match (from, to) {
                    (Some(from), Some(to)) => Ok(TimeRange { from, to }),
                    _ => Err(TimeRangeError(String::from_str("expected a range of hours, hh-hh"))),
                };
            }
            i = i + 1;
        }
        proof {
            lemma_no_index(v@, '-');
        }
        Err(TimeRangeError(String::from_str("expected a range of hours, hh-hh")))
    }
}

proof fn lemma_no_index(s: Seq<char>, c: char)
    requires
        forall|j: int| 0 <= j < s.len() ==> s[j] != c,
    ensures
        index_of(s, c) is None,
    decreases s.len(),
{
    if s.len() > 0 {
        let t = s.drop_first();
        assert forall|j: int| 0 <= j < t.len() implies t[j] != c by {
            assert(t[j] == s[j + 1]);
        }
        lemma_no_index(t, c);
    }
}

} // verus!
