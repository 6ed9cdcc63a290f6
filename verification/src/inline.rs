//! Inputs handed to inline and text rules.
use crate::error::ParseError;
use crate::source::SourceView;
use std::ops::Range;
use vstd::prelude::*;
use vstd::string::StringSliceAdditionalSpecFns;
use crate::text::{lemma_boundary_iff, lemma_boundary_in_bounds, str_eq};
use vstd::utf8::{encode_utf8_valid_utf8, is_char_boundary, valid_utf8_split};

verus! {

/// Link reference definitions collected from the block phase: a label
/// mapped to a destination and an optional title. The first definition of a
/// label wins.
pub struct References {
    entries: Vec<(String, (String, Option<String>))>,
}

/// The first definition of `key` among `entries`, if any.
pub open spec fn first_definition(entries: Seq<(Seq<char>, (String, Option<String>))>, key: Seq<char>) -> Option<(String, Option<String>)>
    decreases entries.len(),
{
    if entries.len() == 0 {
        None
    } else if entries[0].0 == key {
        Some(entries[0].1)
    } else {
        first_definition(entries.drop_first(), key)
    }
}

impl References {
    /// Definitions in the order they were recorded, keys by their characters.
    pub closed spec fn spec_entries(&self) -> Seq<(Seq<char>, (String, Option<String>))> {
        self.entries@.map_values(|e: (String, (String, Option<String>))| (e.0@, e.1))
    }

    /// No definitions.
    pub fn new() -> (r: Self)
        ensures
            r.spec_entries().len() == 0,
    {
        References { entries: Vec::new() }
    }

    /// Records a definition; a label defined before keeps its first definition.
    pub fn define(&mut self, key: String, destination: String, title: Option<String>)
        ensures
            final(self).spec_entries() == old(self).spec_entries().push((key@, (destination, title))),
    {
        self.entries.push((key, (destination, title)));
        proof {
            assert(self.spec_entries() =~= old(self).spec_entries().push((key@, (destination, title))));
        }
    }

    /// The first definition of `key`, if any.
    pub fn get(&self, key: &str) -> (r: Option<&(String, Option<String>)>)
        ensures
            r matches Some(d) ==> first_definition(self.spec_entries(), key@) == Some(*d),
            r is None ==> first_definition(self.spec_entries(), key@) is None,
    {
        let mut i: usize = 0;
        assert(self.spec_entries().skip(0) =~= self.spec_entries());
        while i < self.entries.len()
            invariant
                0 <= i <= self.entries@.len(),
                first_definition(self.spec_entries(), key@) == first_definition(
                    self.spec_entries().skip(i as int),
                    key@,
                ),
            decreases self.entries@.len() - i,
        {
            proof {
                assert(self.spec_entries().skip(i as int).drop_first() =~= self.spec_entries().skip(i + 1));
            }
            if str_eq(self.entries[i].0.as_str(), key) {
                return Some(&self.entries[i].1);
            }
            i += 1;
        }
        None
    }
}

proof fn lemma_first_definition_push(
    entries: Seq<(Seq<char>, (String, Option<String>))>,
    entry: (Seq<char>, (String, Option<String>)),
    key: Seq<char>,
)
    ensures
        first_definition(entries.push(entry), key) == match first_definition(entries, key) {
            Some(d) => Some(d),
            None => if entry.0 == key {
                Some(entry.1)
            } else {
                None
            },
        },
    decreases entries.len(),
{
    let pushed = entries.push(entry);
    assert(pushed[0] == if entries.len() > 0 { entries[0] } else { entry });
    if entries.len() > 0 {
        assert(pushed.drop_first() =~= entries.drop_first().push(entry));
        lemma_first_definition_push(entries.drop_first(), entry, key);
    } else {
        assert(pushed.drop_first() =~= Seq::<(Seq<char>, (String, Option<String>))>::empty());
        assert(first_definition(pushed.drop_first(), key) is None);
    }
}

/// The first definition of a label wins: after recording a definition, a
/// label defined before keeps its definition, and a label defined for the
/// first time reads back what was recorded.
pub proof fn lemma_define_then_get(
    before: Seq<(Seq<char>, (String, Option<String>))>,
    key: Seq<char>,
    destination: String,
    title: Option<String>,
    lookup: Seq<char>,
)
    ensures
        first_definition(before.push((key, (destination, title))), lookup) == if first_definition(
            before,
            lookup,
        ) is Some {
            first_definition(before, lookup)
        } else if lookup == key {
            Some((destination, title))
        } else {
            None
        },
{
    lemma_first_definition_push(before, (key, (destination, title)), lookup);
}

/// The state of the innermost open bracket that an inline rule can see.
#[derive(Debug, Clone, Copy, PartialEq, Eq, Structural)]
pub struct BracketInfo {
    /// Whether the bracket can still close into a link.
    pub active: bool,
}

/// An open bracket on the inline parser's stack.
pub struct Bracket {
    pub info: BracketInfo,
    /// Whether a link formed inside this bracket deactivates it.
    pub inhibit_on_inner: bool,
    /// Number of delimiters below this bracket.
    pub bottom: usize,
    /// Token index of the bracket's opening token.
    pub token: usize,
}

/// Deactivates every open bracket that a link formed inside it inhibits.
pub fn inhibit(brackets: &mut Vec<Bracket>)
    ensures
        final(brackets)@.len() == old(brackets)@.len(),
        forall|i: int|
            0 <= i < final(brackets)@.len() ==> {
                &&& #[trigger] final(brackets)@[i].info.active == (old(brackets)@[i].info.active
                    && !old(brackets)@[i].inhibit_on_inner)
                &&& final(brackets)@[i].inhibit_on_inner == old(brackets)@[i].inhibit_on_inner
                &&& final(brackets)@[i].bottom == old(brackets)@[i].bottom
                &&& final(brackets)@[i].token == old(brackets)@[i].token
            },
{
    let n = brackets.len();
    let mut i: usize = 0;
    while i < n
        invariant
            n == brackets@.len(),
            n == old(brackets)@.len(),
            0 <= i <= n,
            forall|k: int|
                0 <= k < n ==> {
                    &&& #[trigger] brackets@[k].info.active == if k < i {
                        old(brackets)@[k].info.active && !old(brackets)@[k].inhibit_on_inner
                    } else {
                        old(brackets)@[k].info.active
                    }
                    &&& brackets@[k].inhibit_on_inner == old(brackets)@[k].inhibit_on_inner
                    &&& brackets@[k].bottom == old(brackets)@[k].bottom
                    &&& brackets@[k].token == old(brackets)@[k].token
                },
        decreases n - i,
    {
        let ghost prev = *brackets;
        if brackets[i].inhibit_on_inner {
            let updated = Bracket {
                info: BracketInfo { active: false },
                inhibit_on_inner: brackets[i].inhibit_on_inner,
                bottom: brackets[i].bottom,
                token: brackets[i].token,
            };
            brackets.set(i, updated);
        }
        proof {
            assert forall|k: int| 0 <= k < n implies {
                &&& #[trigger] brackets@[k].info.active == if k < i + 1 {
                    old(brackets)@[k].info.active && !old(brackets)@[k].inhibit_on_inner
                } else {
                    old(brackets)@[k].info.active
                }
                &&& brackets@[k].inhibit_on_inner == old(brackets)@[k].inhibit_on_inner
                &&& brackets@[k].bottom == old(brackets)@[k].bottom
                &&& brackets@[k].token == old(brackets)@[k].token
            } by {
                assert(prev@[k].info.active == if k < i {
                    old(brackets)@[k].info.active && !old(brackets)@[k].inhibit_on_inner
                } else {
                    old(brackets)@[k].info.active
                });
                if k != i {
                    assert(brackets@[k] == prev@[k]);
                }
            }
        }
        i += 1;
    }
}

/// What an inline rule sees at a position of the inline view.
pub struct InlineInput<'a> {
    pub source: &'a SourceView,
    pub position: usize,
    pub bracket: Option<BracketInfo>,
    pub inside_brackets: bool,
    pub trailing_text: &'a str,
    pub references: &'a References,
}

impl InlineInput<'_> {
    /// The text from the current position to the end of the view.
    pub fn tail(&self) -> (r: &str)
        requires
            self.source.wf(),
            is_char_boundary(self.source@.text, self.position as int),
        ensures
            r.spec_bytes() == self.source@.text.subrange(
                self.position as int,
                self.source@.text.len() as int,
            ),
    {
        self.source.text().split_at(self.position).1
    }

    /// The link reference definition for `key`, if any.
    pub fn reference(&self, key: &str) -> (r: Option<&(String, Option<String>)>)
        ensures
            r matches Some(d) ==> first_definition(self.references.spec_entries(), key@) == Some(*d),
            r is None ==> first_definition(self.references.spec_entries(), key@) is None,
    {
        self.references.get(key)
    }
}

/// What a text rule sees: a range of ordinary text in the inline view.
pub struct TextInput<'a> {
    pub source: &'a SourceView,
    pub range: Range<usize>,
    pub after_decoded_text: bool,
}

impl TextInput<'_> {
    /// The text of the range.
    pub fn text(&self) -> (r: &str)
        requires
            self.source.wf(),
            self.range.start <= self.range.end,
            is_char_boundary(self.source@.text, self.range.start as int),
            is_char_boundary(self.source@.text, self.range.end as int),
        ensures
            r.spec_bytes() == self.source@.text.subrange(
                self.range.start as int,
                self.range.end as int,
            ),
    {
        let whole = self.source.text();
        let head = whole.split_at(self.range.end).0;
        proof {
            let t = self.source@.text;
            let e = self.range.end as int;
            self.source.lemma_text_valid();
            lemma_boundary_in_bounds(t, e);
            lemma_boundary_in_bounds(t, self.range.start as int);
            encode_utf8_valid_utf8(whole@);
            valid_utf8_split(t, e);
            lemma_boundary_iff(t, self.range.start as int);
            lemma_boundary_iff(t.subrange(0, e), self.range.start as int);
        }
        head.split_at(self.range.start).1
    }
}


/// Checks where an inline rule's match ends: after the current position,
/// within the view's text and on a character boundary. Anything else is an
/// internal error of the rule.
pub fn accept_inline_match(source: &SourceView, position: usize, end: usize) -> (r: Result<(), ParseError>)
    requires
        source.wf(),
    ensures
        r is Err <==> (end <= position || end > source@.text.len() || !is_char_boundary(
            source@.text,
            end as int,
        )),
        r matches Err(e) ==> e == ParseError::InternalError,
{
    let text = source.text();
    if end <= position || end > text.as_bytes().len() || !text.is_char_boundary(end) {
        return Err(ParseError::InternalError);
    }
    Ok(())
}

/// A piece of a text token after the text rules ran: plain text of a byte
/// range, or the match at an index of the rule's matches.
#[derive(Debug, Clone, Copy, PartialEq, Eq, Structural)]
pub enum Segment {
    Text { start: usize, end: usize },
    Match { index: usize },
}

/// A text rule's match is usable: it starts at or after `begin`, is
/// non-empty, ends within `limit` and lies on character boundaries.
pub open spec fn match_ok(text: Seq<u8>, begin: int, limit: int, m: Range<usize>) -> bool {
    &&& begin <= m.start
    &&& m.start < m.end
    &&& m.end <= limit
    &&& is_char_boundary(text, m.start as int)
    &&& is_char_boundary(text, m.end as int)
}

/// The pieces of `begin..limit` from match `k` on: the text before each
/// match, the match, and the text after the last one; `None` when a match is
/// not usable, being out of order, empty, out of bounds or off a boundary.
pub open spec fn segments_from(text: Seq<u8>, matches: Seq<Range<usize>>, k: int, begin: int, limit: int) -> Option<
    Seq<Segment>,
>
    decreases matches.len() - k,
{
    if k >= matches.len() || k < 0 {
        if begin < limit {
            Some(seq![Segment::Text { start: begin as usize, end: limit as usize }])
        } else {
            Some(seq![])
        }
    } else {
        let m = matches[k];
        if !match_ok(text, begin, limit, m) {
            None
        } else {
            match segments_from(text, matches, k + 1, m.end as int, limit) {
                None => None,
                Some(rest) => {
                    let head = if m.start > begin {
                        seq![Segment::Text { start: begin as usize, end: m.start }]
                    } else {
                        seq![]
                    };
                    Some(head + seq![Segment::Match { index: k as usize }] + rest)
                },
            }
        }
    }
}

/// The matches from `k` on are usable in order: each is non-empty, on
/// character boundaries and ends within `limit`, the first starts at or
/// after `begin`, and each starts at or after the end of the one before.
pub open spec fn ordered_from(text: Seq<u8>, matches: Seq<Range<usize>>, k: int, begin: int, limit: int) -> bool {
    &&& forall|i: int|
        k <= i < matches.len() ==> (#[trigger] matches[i]).start < matches[i].end && matches[i].end <= limit
            && is_char_boundary(text, matches[i].start as int) && is_char_boundary(text, matches[i].end as int)
    &&& (0 <= k < matches.len() ==> begin <= matches[k].start)
    &&& forall|i: int| k < i < matches.len() ==> matches[i - 1].end <= (#[trigger] matches[i]).start
}

/// Splitting succeeds exactly when the matches are usable in order.
proof fn lemma_segments_ordered(text: Seq<u8>, matches: Seq<Range<usize>>, k: int, begin: int, limit: int)
    requires
        0 <= k <= matches.len(),
    ensures
        segments_from(text, matches, k, begin, limit) is Some <==> ordered_from(text, matches, k, begin, limit),
    decreases matches.len() - k,
{
    if k < matches.len() {
        let m = matches[k];
        lemma_segments_ordered(text, matches, k + 1, m.end as int, limit);
        if ordered_from(text, matches, k, begin, limit) {
            assert(match_ok(text, begin, limit, m));
            if k + 1 < matches.len() {
                assert(matches[k].end <= matches[k + 1].start);
            }
            assert(ordered_from(text, matches, k + 1, m.end as int, limit));
        }
        if segments_from(text, matches, k, begin, limit) is Some {
            assert(match_ok(text, begin, limit, m));
            assert(ordered_from(text, matches, k + 1, m.end as int, limit));
            assert forall|i: int| k < i < matches.len() implies matches[i - 1].end <= (#[trigger] matches[i]).start by {
                if i > k + 1 {
                    assert(matches[(i - 1)].end <= matches[i].start);
                }
            }
        }
    }
}

/// Splitting a text token by matches that are usable in order: matches that
/// are non-empty, on character boundaries, inside the token, and each
/// starting at or after the end of the one before (touching is fine) are
/// accepted; any other matches are refused.
pub proof fn lemma_ordered_matches_accepted(text: Seq<u8>, range: Range<usize>, matches: Seq<Range<usize>>)
    ensures
        segments_from(text, matches, 0, range.start as int, range.end as int) is Some <==> {
            &&& forall|i: int|
                0 <= i < matches.len() ==> (#[trigger] matches[i]).start < matches[i].end && matches[i].end
                    <= range.end && is_char_boundary(text, matches[i].start as int) && is_char_boundary(
                    text,
                    matches[i].end as int,
                )
            &&& (matches.len() > 0 ==> range.start <= matches[0].start)
            &&& forall|i: int| 0 < i < matches.len() ==> matches[i - 1].end <= (#[trigger] matches[i]).start
        },
{
    lemma_segments_ordered(text, matches, 0, range.start as int, range.end as int);
}

/// Splits the text token `range` of the view by the matches a text rule
/// returned, in order: the text before each match, the match, and the text
/// after the last match. A match that starts before the previous one ended,
/// is empty, ends past the token or is off a character boundary is an
/// internal error of the rule.
pub fn text_segments(source: &SourceView, range: Range<usize>, matches: &[Range<usize>]) -> (r: Result<
    Vec<Segment>,
    ParseError,
>)
    requires
        source.wf(),
        range.start <= range.end <= source@.text.len(),
    ensures
        match segments_from(source@.text, matches@, 0, range.start as int, range.end as int) {
            None => r == Err::<Vec<Segment>, ParseError>(ParseError::InternalError),
            Some(segs) => r matches Ok(v) && v@ == segs,
        },
        r is Ok <==> {
            &&& forall|i: int|
                0 <= i < matches@.len() ==> (#[trigger] matches@[i]).start < matches@[i].end && matches@[i].end
                    <= range.end && is_char_boundary(source@.text, matches@[i].start as int) && is_char_boundary(
                    source@.text,
                    matches@[i].end as int,
                )
            &&& (matches@.len() > 0 ==> range.start <= matches@[0].start)
            &&& forall|i: int| 0 < i < matches@.len() ==> matches@[i - 1].end <= (#[trigger] matches@[i]).start
        },
{
    let text = source.text();
    let ghost t = source@.text;
    let mut out: Vec<Segment> = Vec::new();
    let mut begin = range.start;
    let mut k: usize = 0;
    while k < matches.len()
        invariant
            t == source@.text,
            text.spec_bytes() == t,
            range.start <= begin <= range.end <= t.len(),
            0 <= k <= matches@.len(),
            segments_from(t, matches@, 0, range.start as int, range.end as int) == match segments_from(
                t,
                matches@,
                k as int,
                begin as int,
                range.end as int,
            ) {
                None => None,
                Some(rest) => Some(out@ + rest),
            },
        decreases matches@.len() - k,
    {
        let m = &matches[k];
        if m.start < begin || m.start >= m.end || m.end > range.end || !text.is_char_boundary(m.start)
            || !text.is_char_boundary(m.end) {
            proof {
                lemma_ordered_matches_accepted(t, range, matches@);
            }
            return Err(ParseError::InternalError);
        }
        let ghost prev = out@;
        if m.start > begin {
            out.push(Segment::Text { start: begin, end: m.start });
        }
        out.push(Segment::Match { index: k });
        proof {
            let head = if m.start > begin {
                seq![Segment::Text { start: begin, end: m.start }]
            } else {
                seq![]
            };
            assert(out@ =~= prev + head + seq![Segment::Match { index: k }]);
            match segments_from(t, matches@, k + 1, m.end as int, range.end as int) {
                None => {},
                Some(rest) => {
                    assert(prev + (head + seq![Segment::Match { index: k }] + rest) =~= out@ + rest);
                },
            }
        }
        begin = m.end;
        k += 1;
    }
    if begin < range.end {
        out.push(Segment::Text { start: begin, end: range.end });
    }
    proof {
        lemma_ordered_matches_accepted(t, range, matches@);
        if begin < range.end {
            assert(out@ =~= out@.drop_last() + seq![Segment::Text { start: begin, end: range.end }]);
        } else {
            assert(out@ =~= out@ + Seq::<Segment>::empty());
        }
    }
    Ok(out)
}

} // verus!
