//! Line splitting for block parsing.
use std::ops::Range;
use vstd::prelude::*;
use vstd::string::StringSliceAdditionalSpecFns;

verus! {

broadcast use vstd::seq::group_seq_axioms;

/// Every byte in `t[a..b]` is a space or a tab.
pub open spec fn blank_bytes(t: Seq<u8>, a: int, b: int) -> bool {
    forall|k: int| a <= k < b ==> #[trigger] t[k] == 0x20u8 || t[k] == 0x09u8
}

/// The lines of `t`, scanning from `i` with the current line starting at
/// `start`: each line ends just after a line feed; the last line, when it
/// has no line feed, is kept only if it holds something besides spaces and
/// tabs.
pub open spec fn lines_scan(t: Seq<u8>, start: int, i: int) -> Seq<Range<usize>>
    decreases t.len() - i,
{
    if i >= t.len() {
        if 0 <= start < t.len() && !blank_bytes(t, start, t.len() as int) {
            seq![Range { start: start as usize, end: t.len() as usize }]
        } else {
            seq![]
        }
    } else if t[i] == 0x0au8 {
        seq![Range { start: start as usize, end: (i + 1) as usize }] + lines_scan(t, i + 1, i + 1)
    } else {
        lines_scan(t, start, i + 1)
    }
}

/// The lines of `t`, each including its line feed; a last line without one is
/// dropped when it holds only spaces and tabs.
pub open spec fn text_lines(t: Seq<u8>) -> Seq<Range<usize>> {
    lines_scan(t, 0, 0)
}

/// Whether `text` holds only spaces and tabs.
pub fn blank(text: &str) -> (r: bool)
    ensures
        r == blank_bytes(text.spec_bytes(), 0, text.spec_bytes().len() as int),
{
    let bytes = text.as_bytes();
    blank_range(bytes, 0, bytes.len())
}

/// Whether `bytes[a..b]` holds only spaces and tabs.
fn blank_range(bytes: &[u8], a: usize, b: usize) -> (r: bool)
    requires
        a <= b <= bytes@.len(),
    ensures
        r == blank_bytes(bytes@, a as int, b as int),
{
    let mut k: usize = a;
    while k < b
        invariant
            a <= k <= b <= bytes@.len(),
            blank_bytes(bytes@, a as int, k as int),
        decreases b - k,
    {
        if bytes[k] != 0x20 && bytes[k] != 0x09 {
            return false;
        }
        k += 1;
    }
    true
}

/// Byte ranges of the lines of `text`, each including its line feed; a last
/// line without one is dropped when it holds only spaces and tabs.
pub fn lines(text: &str) -> (r: Vec<Range<usize>>)
    ensures
        r@ == text_lines(text.spec_bytes()),
{
    let bytes = text.as_bytes();
    let ghost t = bytes@;
    let n = bytes.len();
    let mut out: Vec<Range<usize>> = Vec::new();
    let mut start: usize = 0;
    let mut i: usize = 0;
    while i < n
        invariant
            t == bytes@,
            n == t.len(),
            0 <= start <= i <= n,
            text_lines(t) == out@ + lines_scan(t, start as int, i as int),
        decreases n - i,
    {
        if bytes[i] == 0x0a {
            out.push(start..i + 1);
            start = i + 1;
        }
        i += 1;
    }
    if start < n && !blank_range(bytes, start, n) {
        out.push(start..n);
    }
    assert(out@ =~= text_lines(t));
    out
}

/// Where the text not covered by `ls` begins: `start` without lines, else
/// the end of the last line.
pub open spec fn lines_end(ls: Seq<Range<usize>>, start: int) -> int {
    if ls.len() == 0 {
        start
    } else {
        ls.last().end as int
    }
}

/// The lines `ls` tile `t` from `start`: each begins where the one before it
/// ended, is non-empty, has a line feed only as its last byte and ends just
/// after one unless it ends the text; what follows the last line holds only
/// spaces and tabs.
pub open spec fn tiles_from(t: Seq<u8>, ls: Seq<Range<usize>>, start: int) -> bool {
    &&& forall|k: int| 0 <= k < ls.len() ==> (#[trigger] ls[k]).start < ls[k].end <= t.len()
    &&& ls.len() > 0 ==> ls[0].start == start
    &&& forall|k: int, l: int|
        0 <= k && l == k + 1 && l < ls.len() ==> (#[trigger] ls[l]).start == (#[trigger] ls[k]).end
    &&& forall|k: int|
        0 <= k < ls.len() ==> t[(#[trigger] ls[k]).end - 1] == 0x0au8 || ls[k].end == t.len()
    &&& forall|k: int, j: int|
        0 <= k < ls.len() && (#[trigger] ls[k]).start <= j < ls[k].end - 1 ==> #[trigger] t[j] != 0x0au8
    &&& blank_bytes(t, lines_end(ls, start), t.len() as int)
}

proof fn lemma_tiles_cons(t: Seq<u8>, start: int, i: int, rest: Seq<Range<usize>>)
    requires
        0 <= start <= i < t.len() <= usize::MAX,
        t[i] == 0x0au8,
        forall|j: int| start <= j < i ==> #[trigger] t[j] != 0x0au8,
        tiles_from(t, rest, i + 1),
    ensures
        tiles_from(t, seq![Range { start: start as usize, end: (i + 1) as usize }] + rest, start),
{
    let line = Range { start: start as usize, end: (i + 1) as usize };
    let ls = seq![line] + rest;
    assert forall|k: int, l: int| 0 <= k && l == k + 1 && l < ls.len() implies (#[trigger] ls[l]).start
        == (#[trigger] ls[k]).end by {
        assert(ls[l] == rest[k]);
        if k > 0 {
            assert(ls[k] == rest[k - 1]);
        }
    }
    assert forall|k: int| 0 <= k < ls.len() implies (#[trigger] ls[k]).start < ls[k].end <= t.len() by {
        if k > 0 {
            assert(ls[k] == rest[k - 1]);
        }
    }
    assert forall|k: int| 0 <= k < ls.len() implies t[(#[trigger] ls[k]).end - 1] == 0x0au8 || ls[k].end
        == t.len() by {
        if k > 0 {
            assert(ls[k] == rest[k - 1]);
        }
    }
    assert forall|k: int, j: int|
        0 <= k < ls.len() && (#[trigger] ls[k]).start <= j < ls[k].end - 1 implies #[trigger] t[j]
        != 0x0au8 by {
        if k > 0 {
            assert(ls[k] == rest[k - 1]);
        }
    }
    if rest.len() > 0 {
        assert(ls.last() == rest.last());
    }
    assert(lines_end(ls, start) == lines_end(rest, i + 1));
}

proof fn lemma_scan_tiles(t: Seq<u8>, start: int, i: int)
    requires
        0 <= start <= i <= t.len() <= usize::MAX,
        forall|j: int| start <= j < i ==> #[trigger] t[j] != 0x0au8,
    ensures
        tiles_from(t, lines_scan(t, start, i), start),
    decreases t.len() - i,
{
    if i >= t.len() {
        let ls = lines_scan(t, start, i);
        if 0 <= start < t.len() && !blank_bytes(t, start, t.len() as int) {
            assert(ls == seq![Range { start: start as usize, end: t.len() as usize }]);
            assert(ls[0] == Range { start: start as usize, end: t.len() as usize });
        } else {
            assert(ls.len() == 0);
        }
    } else if t[i] == 0x0au8 {
        lemma_scan_tiles(t, i + 1, i + 1);
        lemma_tiles_cons(t, start, i, lines_scan(t, i + 1, i + 1));
    } else {
        lemma_scan_tiles(t, start, i + 1);
    }
}

/// The lines of a text tile it from its start: each line begins where the
/// previous one ended, contains a line feed only as its last byte, and ends
/// just after one unless it ends the text. Only a last stretch of spaces and
/// tabs without a line feed is left out.
pub proof fn lemma_lines_tile(t: Seq<u8>)
    requires
        t.len() <= usize::MAX,
    ensures
        tiles_from(t, text_lines(t), 0),
{
    lemma_scan_tiles(t, 0, 0);
}

/// The end of `t[a..b]` with its trailing line feeds taken off.
pub open spec fn trimmed_end(t: Seq<u8>, a: int, b: int) -> int
    decreases b - a,
{
    if b > a && t[b - 1] == 0x0au8 {
        trimmed_end(t, a, b - 1)
    } else {
        b
    }
}

/// Line `r` of `t` holds only spaces and tabs before its trailing line feeds.
pub open spec fn line_blank(t: Seq<u8>, r: Range<usize>) -> bool {
    blank_bytes(t, r.start as int, trimmed_end(t, r.start as int, r.end as int))
}

/// The position of the last line that is not blank, or 0 when every line is.
pub open spec fn last_nonblank_spec(t: Seq<u8>, ls: Seq<Range<usize>>) -> int
    decreases ls.len(),
{
    if ls.len() == 0 {
        0
    } else if !line_blank(t, ls.last()) {
        ls.len() - 1
    } else {
        last_nonblank_spec(t, ls.drop_last())
    }
}

/// The end of `bytes[a..b]` without its trailing line feeds.
fn trim_line_feeds(bytes: &[u8], a: usize, b: usize) -> (r: usize)
    requires
        a <= b <= bytes@.len(),
    ensures
        r == trimmed_end(bytes@, a as int, b as int),
        a <= r <= b,
{
    let mut e = b;
    while e > a && bytes[e - 1] == 0x0a
        invariant
            a <= e <= b <= bytes@.len(),
            trimmed_end(bytes@, a as int, e as int) == trimmed_end(bytes@, a as int, b as int),
        decreases e - a,
    {
        e -= 1;
    }
    e
}

/// The position of the last line of `text` that holds more than spaces and
/// tabs before its line feeds; 0 when there is none. A block that ends
/// before it is followed by a separating blank line.
pub fn last_nonblank(text: &str, lines: &[Range<usize>]) -> (r: usize)
    requires
        forall|k: int| 0 <= k < lines@.len() ==> (#[trigger] lines@[k]).start <= lines@[k].end <= text.spec_bytes().len(),
    ensures
        r == last_nonblank_spec(text.spec_bytes(), lines@),
{
    let bytes = text.as_bytes();
    let mut n = lines.len();
    assert(lines@.take(n as int) =~= lines@);
    while n > 0
        invariant
            n <= lines@.len(),
            bytes@ == text.spec_bytes(),
            forall|k: int| 0 <= k < lines@.len() ==> (#[trigger] lines@[k]).start <= lines@[k].end <= bytes@.len(),
            last_nonblank_spec(bytes@, lines@) == last_nonblank_spec(bytes@, lines@.take(n as int)),
        decreases n,
    {
        let line = &lines[n - 1];
        let end = trim_line_feeds(bytes, line.start, line.end);
        let is_blank = blank_range(bytes, line.start, end);
        proof {
            let t = lines@.take(n as int);
            assert(t.last() == lines@[n - 1]);
            assert(t.drop_last() =~= lines@.take(n - 1));
        }
        if !is_blank {
            return n - 1;
        }
        n -= 1;
    }
    proof {
        assert(lines@.take(0) =~= Seq::<Range<usize>>::empty());
    }
    0
}

/// Where block scanning goes on after a rule matched lines `position` up to
/// `end` of `line_count`, and whether the list of blocks became loose. A match
/// that does not advance or runs past the lines is an internal error. When the
/// rule consumes its separator and the next line is blank, that line is
/// skipped, and a separator before the last nonblank line makes the blocks
/// loose.
pub fn after_block(
    position: usize,
    end: usize,
    line_count: usize,
    consume_separator: bool,
    next_blank: bool,
    last_nonblank: usize,
    loose: bool,
) -> (r: Result<(usize, bool), crate::error::ParseError>)
    ensures
        end <= position || end > line_count ==> r == Err::<(usize, bool), crate::error::ParseError>(
            crate::error::ParseError::InternalError,
        ),
        !(end <= position || end > line_count) ==> r == Ok::<(usize, bool), crate::error::ParseError>(
            if consume_separator && end < line_count && next_blank {
                ((end + 1) as usize, loose || end < last_nonblank)
            } else {
                (end, loose)
            },
        ),
{
    if end <= position || end > line_count {
        return Err(crate::error::ParseError::InternalError);
    }
    if consume_separator && end < line_count && next_blank {
        Ok((end + 1, loose || end < last_nonblank))
    } else {
        Ok((end, loose))
    }
}

} // verus!
