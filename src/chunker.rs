//! Splitting a notification into messages that each fit the transport's size
//! budget, never splitting a line.

use vstd::prelude::*;
use vstd::std_specs::iter::IteratorSpec;
use vstd::utf8::encode_utf8;

verus! {

/// The largest message, in bytes, that the chat transport accepts.
pub const DISCORD_MESSAGE_SIZE_LIMIT: usize = 2000;

/// Length of a text in bytes, encoded as UTF-8.
pub open spec fn byte_len(s: Seq<char>) -> nat {
    encode_utf8(s).len()
}

/// The text ended by a newline: as it is when empty or already so ended,
/// else with one newline added.
pub open spec fn terminated(s: Seq<char>) -> Seq<char> {
    if s.len() == 0 || s.last() == '\n' {
        s
    } else {
        s.push('\n')
    }
}

/// The lines, each followed by a newline.
pub open spec fn with_newlines(lines: Seq<Seq<char>>) -> Seq<char>
    decreases lines.len(),
{
    if lines.len() == 0 {
        seq![]
    } else {
        with_newlines(lines.drop_last()) + lines.last().push('\n')
    }
}

/// The texts, one after the other.
pub open spec fn concat_all(parts: Seq<Seq<char>>) -> Seq<char>
    decreases parts.len(),
{
    if parts.len() == 0 {
        seq![]
    } else {
        concat_all(parts.drop_last()) + parts.last()
    }
}

/// The text up to and including its first newline (all of it if it has none).
pub open spec fn head_line(s: Seq<char>) -> Seq<char>
    decreases s.len(),
{
    if s.len() == 0 {
        s
    } else if s[0] == '\n' {
        seq!['\n']
    } else {
        seq![s[0]] + head_line(s.drop_first())
    }
}

pub open spec fn strings_view(v: Seq<String>) -> Seq<Seq<char>> {
    v.map_values(|s: String| s@)
}

/// Messages that in order reproduce `whole`; each is non-empty, ends with a
/// newline (so no line is cut) and fits `limit`; and no message could have
/// taken the first line of the next one.
pub open spec fn chunks_cover(whole: Seq<char>, limit: nat, chunks: Seq<Seq<char>>) -> bool {
    &&& concat_all(chunks) == whole
    &&& forall|j: int|
        0 <= j < chunks.len() ==> {
            &&& (#[trigger] chunks[j]).len() > 0
            &&& chunks[j].last() == '\n'
            &&& byte_len(chunks[j]) <= limit
        }
    &&& forall|j: int|
        0 <= j < chunks.len() - 1 ==> byte_len(#[trigger] chunks[j]) + byte_len(
            head_line(chunks[j + 1]),
        ) > limit
}

/// What splitting `text` into messages produced: the messages cover the
/// text, each line ended by a newline.
pub open spec fn chunks_of(text: Seq<char>, limit: nat, chunks: Seq<Seq<char>>) -> bool {
    chunks_cover(terminated(text), limit, chunks)
}

/// Every line fits a message, with its newline.
pub open spec fn all_fit(lines: Seq<Seq<char>>, limit: nat) -> bool {
    forall|k: int| 0 <= k < lines.len() ==> byte_len(#[trigger] lines[k]) + 1 <= limit
}

/// The lines of a text, split at each newline.
pub open spec fn lines_of(text: Seq<char>, lines: Seq<Seq<char>>) -> bool {
    &&& forall|k: int| 0 <= k < lines.len() ==> !(#[trigger] lines[k]).contains('\n')
    &&& with_newlines(lines) == terminated(text)
}

/// Some line of the text does not fit a message, with its newline.
pub open spec fn has_long_line(text: Seq<char>, limit: nat) -> bool {
    exists|lines: Seq<Seq<char>>, k: int|
        lines_of(text, lines) && 0 <= k < lines.len() && byte_len(#[trigger] lines[k]) + 1 > limit
}

/// Why a text could not be split.
#[derive(Clone, Copy, Debug, PartialEq, Eq, Structural)]
pub enum ChunkError {
    /// A single line is longer than a message may be.
    LineTooLong,
}

pub proof fn lemma_byte_len_add(a: Seq<char>, b: Seq<char>)
    ensures
        byte_len(a + b) == byte_len(a) + byte_len(b),
    decreases a.len(),
{
    if a.len() == 0 {
        assert(a + b =~= b);
    } else {
        assert((a + b).drop_first() =~= a.drop_first() + b);
        lemma_byte_len_add(a.drop_first(), b);
    }
}

proof fn lemma_newline_byte()
    ensures
        byte_len(seq!['\n']) == 1,
{
    assert(seq!['\n'].drop_first() =~= Seq::<char>::empty());
    assert(encode_utf8(seq!['\n']) == vstd::utf8::encode_scalar('\n' as u32) + encode_utf8(
        Seq::<char>::empty(),
    ));
    assert(('\n' as u32) == 10);
}

proof fn lemma_push_newline_bytes(l: Seq<char>)
    ensures
        byte_len(l.push('\n')) == byte_len(l) + 1,
{
    assert(l.push('\n') =~= l + seq!['\n']);
    lemma_byte_len_add(l, seq!['\n']);
    lemma_newline_byte();
}

/// A line without newline, with its newline, heads any text that follows it.
proof fn lemma_head_line(l: Seq<char>, rest: Seq<char>)
    requires
        !l.contains('\n'),
    ensures
        head_line(l.push('\n') + rest) == l.push('\n'),
    decreases l.len(),
{
    let s = l.push('\n') + rest;
    if l.len() == 0 {
        assert(s[0] == '\n');
        assert(l.push('\n') =~= seq!['\n']);
    } else {
        assert(s[0] == l[0]);
        assert(l[0] != '\n') by {
            assert(l.contains(l[0]) ==> l[0] != '\n');
        }
        let t = l.drop_first();
        assert(!t.contains('\n')) by {
            assert forall|k: int| 0 <= k < t.len() implies t[k] != '\n' by {
                assert(t[k] == l[k + 1]);
            }
        }
        assert(s.drop_first() =~= t.push('\n') + rest);
        lemma_head_line(t, rest);
        assert(seq![l[0]] + t.push('\n') =~= l.push('\n'));
    }
}

proof fn lemma_with_newlines_one(s: Seq<Seq<char>>)
    requires
        s.len() == 1,
    ensures
        with_newlines(s) == s[0].push('\n'),
{
    assert(s.drop_last() =~= Seq::<Seq<char>>::empty());
    assert(with_newlines(s.drop_last()) == Seq::<char>::empty());
    assert(Seq::<char>::empty() + s[0].push('\n') =~= s[0].push('\n'));
}

proof fn lemma_with_newlines_bytes(lines: Seq<Seq<char>>, k: int)
    requires
        0 <= k < lines.len(),
    ensures
        byte_len(lines[k]) + 1 <= byte_len(with_newlines(lines)),
    decreases lines.len(),
{
    let p = lines.drop_last();
    lemma_byte_len_add(with_newlines(p), lines.last().push('\n'));
    lemma_push_newline_bytes(lines.last());
    if k < lines.len() - 1 {
        assert(p[k] == lines[k]);
        lemma_with_newlines_bytes(p, k);
    }
}

proof fn lemma_with_newlines_split(lines: Seq<Seq<char>>, a: int, b: int)
    requires
        0 <= a <= b <= lines.len(),
    ensures
        with_newlines(lines.subrange(0, b)) == with_newlines(lines.subrange(0, a)) + with_newlines(
            lines.subrange(a, b),
        ),
    decreases b - a,
{
    if a == b {
        assert(lines.subrange(a, b) =~= Seq::<Seq<char>>::empty());
        assert(with_newlines(lines.subrange(0, b)) + seq![] =~= with_newlines(lines.subrange(0, b)));
    } else {
        lemma_with_newlines_split(lines, a, b - 1);
        assert(lines.subrange(0, b).drop_last() =~= lines.subrange(0, b - 1));
        assert(lines.subrange(a, b).drop_last() =~= lines.subrange(a, b - 1));
        assert(with_newlines(lines.subrange(0, b)) =~= with_newlines(lines.subrange(0, a))
            + with_newlines(lines.subrange(a, b)));
    }
}

/// The lines of a text, split at each newline; a final newline ends the last
/// line and starts no new one.
pub fn split_lines(text: &str) -> (r: Vec<String>)
    ensures
        lines_of(text@, strings_view(r@)),
{
    let n = text.unicode_len();
    let mut it = text.chars();
    let mut lines: Vec<String> = Vec::new();
    let mut start: usize = 0;
    let mut i: usize = 0;
    while i < n
        invariant
            n == text@.len(),
            0 <= start <= i <= n,
            it.remaining() == text@.subrange(i as int, n as int),
            forall|k: int| 0 <= k < lines@.len() ==> !(#[trigger] lines@[k])@.contains('\n'),
            !text@.subrange(start as int, i as int).contains('\n'),
            with_newlines(strings_view(lines@)) == text@.subrange(0, start as int),
            start == 0 || text@[start - 1] == '\n',
        decreases n - i,
    {
        let c = it.next();
        match c {
            Some(ch) => {
                assert(ch == text@[i as int]);
                if ch == '\n' {
                    let line = String::from_str(text.substring_char(start, i));
                    let ghost before = strings_view(lines@);
                    lines.push(line);
                    assert(strings_view(lines@).drop_last() =~= before);
                    assert(text@.subrange(0, i as int + 1) =~= text@.subrange(0, start as int)
                        + line@.push('\n'));
                    start = i + 1;
                    assert(text@.subrange(start as int, i as int + 1) =~= Seq::<char>::empty());
                } else {
                    assert forall|k: int| start <= k < i + 1 implies text@[k] != '\n' by {
                        if k < i {
                            assert(text@.subrange(start as int, i as int)[k - start] == text@[k]);
                        }
                    }
                    assert(!text@.subrange(start as int, i as int + 1).contains('\n')) by {
                        let t = text@.subrange(start as int, i as int + 1);
                        assert forall|k: int| 0 <= k < t.len() implies t[k] != '\n' by {
                            assert(t[k] == text@[start + k]);
                        }
                    }
                }
            },
            None => {
                assert(false);
            },
        }
        assert(it.remaining() =~= text@.subrange(i as int + 1, n as int));
        i = i + 1;
    }
    if start < n {
        let line = String::from_str(text.substring_char(start, n));
        let ghost before = strings_view(lines@);
        lines.push(line);
        assert(strings_view(lines@).drop_last() =~= before);
        assert(text@.last() == text@.subrange(start as int, n as int).last());
        assert(text@.subrange(0, n as int) =~= text@);
        assert(text@.subrange(0, start as int) + line@.push('\n') =~= text@.push('\n'));
    } else {
        assert(text@.subrange(0, n as int) =~= text@);
    }
    lines
}

/// Splitting the lines `start..i` after their first line.
proof fn lemma_lines_head(ls: Seq<Seq<char>>, start: int, i: int)
    requires
        0 <= start < i <= ls.len(),
        !ls[start].contains('\n'),
    ensures
        with_newlines(ls.subrange(start, i)) == ls[start].push('\n') + with_newlines(
            ls.subrange(start + 1, i),
        ),
        head_line(with_newlines(ls.subrange(start, i))) == ls[start].push('\n'),
        with_newlines(ls.subrange(start, i)).len() > 0,
        with_newlines(ls.subrange(start, i)).last() == '\n',
        byte_len(ls[start].push('\n')) == byte_len(ls[start]) + 1,
{
    let sub = ls.subrange(start, i);
    assert(sub.subrange(0, 1) =~= seq![ls[start]]);
    lemma_with_newlines_one(seq![ls[start]]);
    assert(sub.subrange(0, sub.len() as int) =~= sub);
    assert(sub.subrange(1, sub.len() as int) =~= ls.subrange(start + 1, i));
    lemma_with_newlines_split(sub, 1, sub.len() as int);
    lemma_head_line(ls[start], with_newlines(ls.subrange(start + 1, i)));
    lemma_push_newline_bytes(ls[start]);
    assert(sub.drop_last() =~= ls.subrange(start, i - 1));
    assert(with_newlines(sub) == with_newlines(sub.drop_last()) + sub.last().push('\n'));
    assert(with_newlines(sub).last() == '\n');
}

/// Adding line `i` to the lines `start..i`.
proof fn lemma_lines_extend(ls: Seq<Seq<char>>, start: int, i: int)
    requires
        0 <= start <= i < ls.len(),
    ensures
        with_newlines(ls.subrange(start, i + 1)) == with_newlines(ls.subrange(start, i)) + ls[i].push(
            '\n',
        ),
        byte_len(ls[i].push('\n')) == byte_len(ls[i]) + 1,
{
    assert(ls.subrange(start, i + 1).drop_last() =~= ls.subrange(start, i));
    lemma_push_newline_bytes(ls[i]);
}

/// The lines `start..i` and line `i` fit in the bytes of all lines.
proof fn lemma_lines_budget(ls: Seq<Seq<char>>, start: int, i: int)
    requires
        0 <= start <= i < ls.len(),
    ensures
        byte_len(with_newlines(ls.subrange(start, i))) + byte_len(ls[i]) + 1 <= byte_len(
            with_newlines(ls),
        ),
        with_newlines(ls.subrange(0, i)) == with_newlines(ls.subrange(0, start)) + with_newlines(
            ls.subrange(start, i),
        ),
{
    lemma_with_newlines_split(ls, start, i + 1);
    lemma_with_newlines_split(ls, 0, start);
    lemma_with_newlines_split(ls, 0, i + 1);
    lemma_with_newlines_split(ls, 0, ls.len() as int);
    lemma_with_newlines_split(ls, i + 1, ls.len() as int);
    lemma_with_newlines_split(ls, 0, i);
    lemma_with_newlines_split(ls, start, i);
    assert(ls.subrange(0, ls.len() as int) =~= ls);
    lemma_lines_extend(ls, start, i);
    lemma_byte_len_add(with_newlines(ls.subrange(0, start)), with_newlines(ls.subrange(start, i + 1)));
    lemma_byte_len_add(with_newlines(ls.subrange(0, i + 1)), with_newlines(ls.subrange(i + 1, ls.len() as int)));
    lemma_byte_len_add(with_newlines(ls.subrange(start, i)), ls[i].push('\n'));
}

fn pack_lines(lines: &Vec<String>, limit: usize) -> (r: Result<Vec<String>, ChunkError>)
    requires
        forall|k: int| 0 <= k < lines@.len() ==> !(#[trigger] lines@[k])@.contains('\n'),
        byte_len(with_newlines(strings_view(lines@))) <= usize::MAX,
    ensures
        match r {
            Ok(chunks) => all_fit(strings_view(lines@), limit as nat) && chunks_cover(
                with_newlines(strings_view(lines@)),
                limit as nat,
                strings_view(chunks@),
            ),
            Err(_) => !all_fit(strings_view(lines@), limit as nat),
        },
{
    let ghost ls = strings_view(lines@);
    let mut k: usize = 0;
    while k < lines.len()
        invariant
            0 <= k <= lines@.len(),
            ls == strings_view(lines@),
            byte_len(with_newlines(ls)) <= usize::MAX,
            forall|j: int| 0 <= j < k ==> byte_len(#[trigger] ls[j]) + 1 <= limit,
        decreases lines@.len() - k,
    {
        proof {
            lemma_with_newlines_bytes(ls, k as int);
        }
        let line_len = lines[k].as_str().len();
        assert(line_len == byte_len(ls[k as int]));
        if line_len + 1 > limit {
            return Err(ChunkError::LineTooLong);
        }
        k = k + 1;
    }
    proof {
        reveal_strlit("\n");
    }
    let mut chunks: Vec<String> = Vec::new();
    let mut buffer = String::new();
    let mut buffer_len: usize = 0;
    let mut start: usize = 0;
    let mut i: usize = 0;
    while i < lines.len()
        invariant
            0 <= start <= i <= lines@.len(),
            start < i || chunks@.len() == 0,
            ls == strings_view(lines@),
            all_fit(ls, limit as nat),
            byte_len(with_newlines(ls)) <= usize::MAX,
            forall|j: int| 0 <= j < ls.len() ==> !(#[trigger] ls[j]).contains('\n'),
            buffer@ == with_newlines(ls.subrange(start as int, i as int)),
            buffer_len == byte_len(buffer@),
            buffer_len <= limit,
            concat_all(strings_view(chunks@)) == with_newlines(ls.subrange(0, start as int)),
            forall|j: int|
                0 <= j < chunks@.len() ==> {
                    &&& (#[trigger] chunks@[j])@.len() > 0
                    &&& chunks@[j]@.last() == '\n'
                    &&& byte_len(chunks@[j]@) <= limit
                },
            forall|j: int|
                0 <= j < chunks@.len() - 1 ==> byte_len((#[trigger] chunks@[j])@) + byte_len(
                    head_line(chunks@[j + 1]@),
                ) > limit,
            chunks@.len() > 0 && start < i ==> byte_len(chunks@.last()@) + byte_len(
                ls[start as int],
            ) + 1 > limit,
        decreases lines@.len() - i,
    {
        let line = lines[i].as_str();
        let ghost l = ls[i as int];
        proof {
            lemma_lines_budget(ls, start as int, i as int);
        }
        let line_len = line.len();
        assert(line_len == byte_len(l));
        if buffer_len + line_len + 1 > limit {
            let ghost prev_chunks = strings_view(chunks@);
            let ghost flushed = buffer@;
            proof {
                assert(start < i) by {
                    if start == i {
                        assert(ls.subrange(start as int, i as int) =~= Seq::<Seq<char>>::empty());
                    }
                }
                lemma_lines_head(ls, start as int, i as int);
            }
            chunks.push(buffer);
            proof {
                assert(strings_view(chunks@).drop_last() =~= prev_chunks);
                assert(strings_view(chunks@).last() == flushed);
            }
            buffer = String::new();
            buffer_len = 0;
            start = i;
            assert(ls.subrange(start as int, i as int) =~= Seq::<Seq<char>>::empty());
        }
        let ghost before_buffer = buffer@;
        buffer.append(line);
        buffer.append("\n");
        proof {
            lemma_lines_extend(ls, start as int, i as int);
            reveal_strlit("\n");
            assert("\n"@ =~= seq!['\n']);
            assert(line@ == l);
            assert(buffer@ =~= before_buffer + l.push('\n'));
            lemma_byte_len_add(before_buffer, l.push('\n'));
        }
        buffer_len = buffer_len + line_len + 1;
        i = i + 1;
    }
    proof {
        assert(ls.subrange(0, ls.len() as int) =~= ls);
    }
    if start < i {
        let ghost prev_chunks = strings_view(chunks@);
        let ghost flushed = buffer@;
        proof {
            lemma_lines_head(ls, start as int, i as int);
            lemma_with_newlines_split(ls, 0, start as int);
            lemma_with_newlines_split(ls, start as int, i as int);
        }
        chunks.push(buffer);
        proof {
            assert(strings_view(chunks@).drop_last() =~= prev_chunks);
            assert(strings_view(chunks@).last() == flushed);
        }
    } else {
        proof {
            assert(ls.subrange(start as int, i as int) =~= Seq::<Seq<char>>::empty());
        }
    }
    Ok(chunks)
}

proof fn lemma_with_newlines_ends(s: Seq<Seq<char>>)
    requires
        s.len() > 0,
    ensures
        with_newlines(s).len() > 0,
        with_newlines(s).last() == '\n',
        with_newlines(s) == (with_newlines(s.drop_last()) + s.last()).push('\n'),
{
    assert(with_newlines(s) =~= (with_newlines(s.drop_last()) + s.last()).push('\n'));
}

/// Texts of newline-free lines, each followed by a newline, differ when the
/// lines differ.
proof fn lemma_with_newlines_injective(a: Seq<Seq<char>>, b: Seq<Seq<char>>)
    requires
        forall|k: int| 0 <= k < a.len() ==> !(#[trigger] a[k]).contains('\n'),
        forall|k: int| 0 <= k < b.len() ==> !(#[trigger] b[k]).contains('\n'),
        with_newlines(a) == with_newlines(b),
    ensures
        a == b,
    decreases a.len(),
{
    if a.len() == 0 {
        if b.len() > 0 {
            lemma_with_newlines_ends(b);
        }
        assert(a =~= b);
    } else {
        if b.len() == 0 {
            lemma_with_newlines_ends(a);
            assert(false);
        }
        lemma_with_newlines_ends(a);
        lemma_with_newlines_ends(b);
        let a1 = a.drop_last();
        let b1 = b.drop_last();
        let x = a.last();
        let y = b.last();
        let u = with_newlines(a1) + x;
        let v = with_newlines(b1) + y;
        assert(u =~= with_newlines(a).drop_last());
        assert(v =~= with_newlines(b).drop_last());
        assert(u == v);
        assert(!x.contains('\n') && !y.contains('\n')) by {
            assert(x == a[a.len() - 1]);
            assert(y == b[b.len() - 1]);
        }
        if x.len() < y.len() {
            assert(a1.len() > 0);
            lemma_with_newlines_ends(a1);
            let idx = with_newlines(a1).len() - 1;
            assert(u[idx] == '\n');
            assert(v[idx] == y[idx - with_newlines(b1).len()]);
            assert(false);
        }
        if y.len() < x.len() {
            assert(b1.len() > 0);
            lemma_with_newlines_ends(b1);
            let idx = with_newlines(b1).len() - 1;
            assert(v[idx] == '\n');
            assert(u[idx] == x[idx - with_newlines(a1).len()]);
            assert(false);
        }
        let cut = u.len() - x.len();
        assert(x =~= u.subrange(cut, u.len() as int));
        assert(y =~= v.subrange(cut, v.len() as int));
        assert(with_newlines(a1) =~= u.subrange(0, cut));
        assert(with_newlines(b1) =~= v.subrange(0, cut));
        assert forall|k: int| 0 <= k < a1.len() implies !(#[trigger] a1[k]).contains('\n') by {
            assert(a1[k] == a[k]);
        }
        assert forall|k: int| 0 <= k < b1.len() implies !(#[trigger] b1[k]).contains('\n') by {
            assert(b1[k] == b[k]);
        }
        lemma_with_newlines_injective(a1, b1);
        assert(a =~= a1.push(x));
        assert(b =~= b1.push(y));
    }
}

/// A text has exactly one split into lines.
pub proof fn lemma_lines_unique(text: Seq<char>, a: Seq<Seq<char>>, b: Seq<Seq<char>>)
    requires
        lines_of(text, a),
        lines_of(text, b),
    ensures
        a == b,
{
    lemma_with_newlines_injective(a, b);
}

/// Splits a notification into messages of at most `limit` bytes: each line
/// whole, with its newline, and as many lines in each message as fit before
/// the next message starts. Fails when a single line, with its newline, is
/// longer than `limit`.
pub fn split_message(text: &str, limit: usize) -> (r: Result<Vec<String>, ChunkError>)
    requires
        byte_len(text@) < usize::MAX,
    ensures
        match r {
            Ok(chunks) => !has_long_line(text@, limit as nat) && chunks_of(
                text@,
                limit as nat,
                strings_view(chunks@),
            ),
            Err(e) => e == ChunkError::LineTooLong && has_long_line(text@, limit as nat),
        },
{
    let lines = split_lines(text);
    let ghost ls = strings_view(lines@);
    proof {
        if !(text@.len() == 0 || text@.last() == '\n') {
            assert(text@.push('\n') =~= text@ + seq!['\n']);
            lemma_byte_len_add(text@, seq!['\n']);
            lemma_newline_byte();
        }
        assert forall|k: int| 0 <= k < lines@.len() implies !(#[trigger] lines@[k])@.contains('\n') by {
            assert(ls[k] == lines@[k]@);
        }
    }
    let r = pack_lines(&lines, limit);
    proof {
        match r {
            Ok(_) => {
                if has_long_line(text@, limit as nat) {
                    let (other, k) = choose|other: Seq<Seq<char>>, k: int|
                        lines_of(text@, other) && 0 <= k < other.len() && byte_len(
                            #[trigger] other[k],
                        ) + 1 > limit;
                    lemma_lines_unique(text@, ls, other);
                    assert(byte_len(ls[k]) + 1 <= limit);
                }
            },
            Err(_) => {
                let k = choose|k: int| 0 <= k < ls.len() && byte_len(#[trigger] ls[k]) + 1 > limit;
                assert(lines_of(text@, ls) && 0 <= k < ls.len() && byte_len(ls[k]) + 1 > limit);
            },
        }
    }
    r
}

} // verus!
