//! Views of Markdown source text. A view holds normalized text and maps every
//! byte boundary of that text back to a byte boundary of the original input,
//! so that spans computed on views always refer to the original source.
use crate::ast::Span;
use crate::error::ParseError;
use crate::text::{
    lemma_ascii_boundaries, lemma_ascii_byte_valid, lemma_boundary_in_bounds, lemma_ascii_seq_valid, lemma_boundary_iff,
    lemma_concat_boundary, lemma_first_scalar_split, lemma_replacement_valid, lemma_valid_between,
    string_from_bytes,
};
use std::any::Any;
use std::ops::Range;
use std::sync::Arc;
use vstd::prelude::*;
use vstd::string::StringSliceAdditionalSpecFns;
use vstd::utf8::*;

verus! {

broadcast use vstd::seq::group_seq_axioms;

/// One extension-owned value that a view carries and hands down to derived
/// views. Values are shared: cloning an entry shares the same value.
#[verifier::external_body]
pub struct ContextEntry {
    value: Arc<dyn Any + Send + Sync>,
}

impl ContextEntry {
    /// Wraps a value for storage: `Arc::new` and the conversion to a shared
    /// `dyn Any` object. Nothing is stated of the result.
    #[verifier::external_body]
    fn share<T: Any + Send + Sync>(value: T) -> ContextEntry {
        ContextEntry { value: Arc::new(value) }
    }

    /// `<dyn Any>::is::<T>` on the stored value: whether its type is `T`.
    /// Nothing is stated of the result, which depends on the value's runtime type.
    #[verifier::external_body]
    fn holds<T: Any>(&self) -> bool {
        self.value.is::<T>()
    }

    /// `<dyn Any>::downcast_ref::<T>` on the stored value. Nothing is stated of
    /// the result, which depends on the value's runtime type.
    #[verifier::external_body]
    fn get<T: Any>(&self) -> Option<&T> {
        self.value.downcast_ref::<T>()
    }

    /// `Arc::clone` of the stored value: the new entry shares it, and so is
    /// the same entry.
    #[verifier::external_body]
    fn share_again(&self) -> (r: ContextEntry)
        ensures
            r == *self,
    {
        ContextEntry { value: Arc::clone(&self.value) }
    }
}

/// The abstract contents of a [`SourceView`].
pub struct SourceModel {
    /// UTF-8 bytes of the normalized text.
    pub text: Seq<u8>,
    /// `offsets[k]` is the original byte boundary for view boundary `k`.
    pub offsets: Seq<usize>,
    /// Whole tab expansions in the text, in increasing order.
    pub tabs: Seq<Range<usize>>,
    /// Original positions marked as lazy continuation lines.
    pub lazy: Seq<usize>,
}

pub open spec fn byte_cr() -> u8 {
    0x0d
}

pub open spec fn byte_lf() -> u8 {
    0x0a
}

pub open spec fn byte_tab() -> u8 {
    0x09
}

pub open spec fn byte_space() -> u8 {
    0x20
}

/// A tab expansion: a non-empty run of spaces inside the text.
pub open spec fn tab_in_text(text: Seq<u8>, t: Range<usize>) -> bool {
    &&& t.start < t.end <= text.len()
    &&& forall|k: int| t.start <= k < t.end ==> #[trigger] text[k] == byte_space()
}

/// Tab expansions lie inside the text, are non-empty, ordered, disjoint and
/// consist of spaces.
pub open spec fn tabs_wf(text: Seq<u8>, tabs: Seq<Range<usize>>) -> bool {
    &&& forall|i: int| 0 <= i < tabs.len() ==> tab_in_text(text, #[trigger] tabs[i])
    &&& forall|i: int, j: int|
        0 <= i < j < tabs.len() ==> #[trigger] tabs[i].end <= #[trigger] tabs[j].start
}

impl SourceModel {
    /// The model of a well-formed view: valid UTF-8 text, one original
    /// boundary per view boundary, and well-formed tab records.
    pub open spec fn wf(self) -> bool {
        &&& valid_utf8(self.text)
        &&& self.offsets.len() == self.text.len() + 1
        &&& tabs_wf(self.text, self.tabs)
    }
}

/// Text normalized from original bytes starting at `i`: CR LF and lone CR
/// become LF, NUL becomes U+FFFD, every other byte is kept.
pub open spec fn normalized_text(s: Seq<u8>, i: int) -> Seq<u8>
    decreases s.len() - i,
{
    if i < 0 || i >= s.len() {
        seq![]
    } else if s[i] == byte_cr() {
        if i + 1 < s.len() && s[i + 1] == byte_lf() {
            seq![byte_lf()] + normalized_text(s, i + 2)
        } else {
            seq![byte_lf()] + normalized_text(s, i + 1)
        }
    } else if s[i] == 0 {
        seq![0xefu8, 0xbfu8, 0xbdu8] + normalized_text(s, i + 1)
    } else {
        seq![s[i]] + normalized_text(s, i + 1)
    }
}

/// Original byte boundaries for the boundaries after each byte of
/// `normalized_text(s, i)`. The interior of a U+FFFD replacement maps to the
/// start of the NUL it replaces.
pub open spec fn normalized_offsets(s: Seq<u8>, i: int) -> Seq<usize>
    decreases s.len() - i,
{
    if i < 0 || i >= s.len() {
        seq![]
    } else if s[i] == byte_cr() {
        if i + 1 < s.len() && s[i + 1] == byte_lf() {
            seq![(i + 2) as usize] + normalized_offsets(s, i + 2)
        } else {
            seq![(i + 1) as usize] + normalized_offsets(s, i + 1)
        }
    } else if s[i] == 0 {
        seq![i as usize, i as usize, (i + 1) as usize] + normalized_offsets(s, i + 1)
    } else {
        seq![(i + 1) as usize] + normalized_offsets(s, i + 1)
    }
}

proof fn lemma_normalized_plain_run(s: Seq<u8>, i: int, n: int)
    requires
        0 <= i,
        0 <= n,
        i + n <= s.len(),
        forall|k: int| i <= k < i + n ==> #[trigger] s[k] != byte_cr() && s[k] != 0,
    ensures
        normalized_text(s, i) == s.subrange(i, i + n) + normalized_text(s, i + n),
    decreases n,
{
    if n > 0 {
        lemma_normalized_plain_run(s, i + 1, n - 1);
        assert(s.subrange(i, i + n) =~= seq![s[i]] + s.subrange(i + 1, i + n));
    } else {
        assert(s.subrange(i, i) =~= Seq::<u8>::empty());
    }
}

proof fn lemma_normalized_valid(s: Seq<u8>, i: int)
    requires
        0 <= i <= s.len(),
        valid_utf8(s.subrange(i, s.len() as int)),
    ensures
        valid_utf8(normalized_text(s, i)),
    decreases s.len() - i,
{
    if i == s.len() {
        assert(normalized_text(s, i) =~= Seq::<u8>::empty());
    } else {
        let rest = s.subrange(i, s.len() as int);
        lemma_first_scalar_split(rest);
        let n = length_of_first_scalar(rest);
        assert(rest.subrange(n, rest.len() as int) =~= s.subrange(i + n, s.len() as int));
        assert(rest[0] == s[i]);
        if s[i] == byte_cr() {
            lemma_ascii_byte_valid(byte_lf());
            if i + 1 < s.len() && s[i + 1] == byte_lf() {
                let rest1 = s.subrange(i + 1, s.len() as int);
                lemma_first_scalar_split(rest1);
                assert(rest1.subrange(1, rest1.len() as int) =~= s.subrange(
                    i + 2,
                    s.len() as int,
                ));
                lemma_normalized_valid(s, i + 2);
                valid_utf8_concat(seq![byte_lf()], normalized_text(s, i + 2));
            } else {
                lemma_normalized_valid(s, i + 1);
                valid_utf8_concat(seq![byte_lf()], normalized_text(s, i + 1));
            }
        } else if s[i] == 0 {
            lemma_replacement_valid();
            lemma_normalized_valid(s, i + 1);
            valid_utf8_concat(seq![0xefu8, 0xbfu8, 0xbdu8], normalized_text(s, i + 1));
        } else {
            assert forall|k: int| i <= k < i + n implies #[trigger] s[k] != byte_cr() && s[k]
                != 0 by {
                assert(s[k] == rest[k - i]);
            }
            lemma_normalized_plain_run(s, i, n);
            assert(s.subrange(i, i + n) =~= rest.subrange(0, n));
            lemma_normalized_valid(s, i + n);
            valid_utf8_concat(s.subrange(i, i + n), normalized_text(s, i + n));
        }
    }
}

/// Index of the first recorded tab at or after `k` whose start is not before
/// `start`; with tabs in increasing order this is the first tab starting at or
/// after `start`.
pub open spec fn tab_lower(tabs: Seq<Range<usize>>, start: int, k: int) -> int
    decreases tabs.len() - k,
{
    if k < 0 || k >= tabs.len() {
        tabs.len() as int
    } else if tabs[k].start >= start {
        k
    } else {
        tab_lower(tabs, start, k + 1)
    }
}

/// Index of the first tab at or after `k` that ends after `end`.
pub open spec fn tab_upper(tabs: Seq<Range<usize>>, end: int, k: int) -> int
    decreases tabs.len() - k,
{
    if k < 0 || k >= tabs.len() {
        tabs.len() as int
    } else if tabs[k].end > end {
        k
    } else {
        tab_upper(tabs, end, k + 1)
    }
}

/// Tabs moved from positions relative to `from` in the source view to
/// positions relative to `base` in a derived view.
pub open spec fn translate_tabs(tabs: Seq<Range<usize>>, base: int, from: int) -> Seq<
    Range<usize>,
> {
    tabs.map_values(
        |t: Range<usize>| Range { start: (base + t.start - from) as usize, end: (base + t.end - from) as usize },
    )
}

/// The text of the given byte ranges, one after another.
pub open spec fn select_text(text: Seq<u8>, ranges: Seq<Range<usize>>) -> Seq<u8>
    decreases ranges.len(),
{
    if ranges.len() == 0 {
        seq![]
    } else {
        let r = ranges.last();
        select_text(text, ranges.drop_last()) + text.subrange(r.start as int, r.end as int)
    }
}

/// The original boundaries for the selected text: every boundary inside a
/// range keeps its mapping, and each range's start replaces the end of the
/// range before it.
pub open spec fn select_offsets(offsets: Seq<usize>, ranges: Seq<Range<usize>>) -> Seq<usize>
    decreases ranges.len(),
{
    if ranges.len() == 0 {
        seq![0usize]
    } else {
        let r = ranges.last();
        select_offsets(offsets, ranges.drop_last()).drop_last() + offsets.subrange(
            r.start as int,
            r.end + 1,
        )
    }
}

/// The whole tab expansions that lie inside each range, moved to the selected text.
pub open spec fn select_tabs(text: Seq<u8>, tabs: Seq<Range<usize>>, ranges: Seq<Range<usize>>) -> Seq<
    Range<usize>,
>
    decreases ranges.len(),
{
    if ranges.len() == 0 {
        seq![]
    } else {
        let r = ranges.last();
        let lo = tab_lower(tabs, r.start as int, 0);
        let hi = tab_upper(tabs, r.end as int, lo);
        select_tabs(text, tabs, ranges.drop_last()) + translate_tabs(
            tabs.subrange(lo, hi),
            select_text(text, ranges.drop_last()).len() as int,
            r.start as int,
        )
    }
}

/// The model of the view made of the given ranges of `m`.
pub open spec fn select_model(m: SourceModel, ranges: Seq<Range<usize>>) -> SourceModel {
    SourceModel {
        text: select_text(m.text, ranges),
        offsets: select_offsets(m.offsets, ranges),
        tabs: select_tabs(m.text, m.tabs, ranges),
        lazy: m.lazy,
    }
}

/// The range is in order and both ends are character boundaries.
pub open spec fn valid_range(text: Seq<u8>, r: Range<usize>) -> bool {
    r.start <= r.end && is_char_boundary(text, r.start as int) && is_char_boundary(
        text,
        r.end as int,
    )
}

proof fn lemma_tab_lower_char(tabs: Seq<Range<usize>>, start: int, k: int, r: int)
    requires
        0 <= k <= r <= tabs.len(),
        forall|j: int| k <= j < r ==> #[trigger] tabs[j].start < start,
        r == tabs.len() || tabs[r].start >= start,
    ensures
        tab_lower(tabs, start, k) == r,
    decreases r - k,
{
    if k < r {
        lemma_tab_lower_char(tabs, start, k + 1, r);
    }
}

proof fn lemma_tab_upper_bounds(tabs: Seq<Range<usize>>, end: int, k: int)
    requires
        0 <= k <= tabs.len(),
    ensures
        k <= tab_upper(tabs, end, k) <= tabs.len(),
        forall|j: int| k <= j < tab_upper(tabs, end, k) ==> #[trigger] tabs[j].end <= end,
    decreases tabs.len() - k,
{
    if k < tabs.len() {
        lemma_tab_upper_bounds(tabs, end, k + 1);
    }
}

proof fn lemma_tab_lower_bounds(tabs: Seq<Range<usize>>, start: int, k: int)
    requires
        0 <= k <= tabs.len(),
    ensures
        k <= tab_lower(tabs, start, k) <= tabs.len(),
        tab_lower(tabs, start, k) < tabs.len() ==> tabs[tab_lower(tabs, start, k)].start >= start,
    decreases tabs.len() - k,
{
    if k < tabs.len() {
        lemma_tab_lower_bounds(tabs, start, k + 1);
    }
}

proof fn lemma_select_tabs_step(
    m: SourceModel,
    prev_tabs: Seq<Range<usize>>,
    prev_text: Seq<u8>,
    r: Range<usize>,
    lo: int,
    hi: int,
)
    requires
        m.wf(),
        tabs_wf(prev_text, prev_tabs),
        r.start <= r.end <= m.text.len(),
        0 <= lo <= hi <= m.tabs.len(),
        lo < m.tabs.len() ==> m.tabs[lo].start >= r.start,
        forall|k: int| lo <= k < hi ==> #[trigger] m.tabs[k].end <= r.end,
        prev_text.len() + (r.end - r.start) <= usize::MAX,
    ensures
        tabs_wf(
            prev_text + m.text.subrange(r.start as int, r.end as int),
            prev_tabs + translate_tabs(m.tabs.subrange(lo, hi), prev_text.len() as int, r.start as int),
        ),
{
    let base = prev_text.len() as int;
    let text = prev_text + m.text.subrange(r.start as int, r.end as int);
    let added = translate_tabs(m.tabs.subrange(lo, hi), base, r.start as int);
    let tabs = prev_tabs + added;
    assert forall|k: int| 0 <= k < added.len() implies #[trigger] m.tabs[lo + k].start >= r.start
        && added[k].start == base + m.tabs[lo + k].start - r.start && added[k].end == base
        + m.tabs[lo + k].end - r.start by {
        assert(tab_in_text(m.text, m.tabs[lo]));
        assert(tab_in_text(m.text, m.tabs[lo + k]));
        if k > 0 {
            assert(m.tabs[lo].end <= m.tabs[lo + k].start);
        }
    }
    assert forall|i: int| 0 <= i < tabs.len() implies tab_in_text(text, #[trigger] tabs[i]) by {
        if i >= prev_tabs.len() {
            let q = lo + (i - prev_tabs.len());
            assert(m.tabs[q].start >= r.start);
            assert(m.tabs[q].end <= r.end);
            assert(tab_in_text(m.text, m.tabs[q]));
            assert forall|k: int| tabs[i].start <= k < tabs[i].end implies #[trigger] text[k]
                == byte_space() by {
                let x = k - base + r.start;
                assert(text[k] == m.text[x]);
                assert(m.tabs[q].start <= x < m.tabs[q].end);
            }
        } else {
            assert(tabs[i] == prev_tabs[i]);
            assert(tab_in_text(prev_text, prev_tabs[i]));
            assert forall|k: int| tabs[i].start <= k < tabs[i].end implies #[trigger] text[k]
                == byte_space() by {
                assert(text[k] == prev_text[k]);
            }
        }
    }
    assert forall|i: int, j: int| 0 <= i < j < tabs.len() implies #[trigger] tabs[i].end
        <= #[trigger] tabs[j].start by {
        if j >= prev_tabs.len() {
            let kj = j - prev_tabs.len();
            assert(m.tabs[lo + kj].start >= r.start);
            if i >= prev_tabs.len() {
                let ki = i - prev_tabs.len();
                assert(m.tabs[lo + ki].end <= m.tabs[lo + kj].start);
                assert(m.tabs[lo + ki].start >= r.start);
            } else {
                assert(tabs[i] == prev_tabs[i]);
                assert(tab_in_text(prev_text, prev_tabs[i]));
            }
        } else {
            assert(tabs[i] == prev_tabs[i]);
            assert(tabs[j] == prev_tabs[j]);
        }
    }
}

/// `n` spaces.
pub open spec fn spaces(n: nat) -> Seq<u8> {
    Seq::new(n, |k: int| byte_space())
}

/// The column reached after the first `i` bytes of `t` when tabs advance to
/// the next multiple of four, a line feed returns to zero and every other
/// character advances by one (continuation bytes do not advance).
pub open spec fn expand_column(t: Seq<u8>, i: int) -> nat
    decreases i,
{
    if i <= 0 {
        0
    } else {
        let c = expand_column(t, i - 1);
        let b = t[i - 1];
        if b == byte_tab() {
            c + tab_width(c)
        } else if b == byte_lf() {
            0
        } else if is_continuation_byte(b) {
            c
        } else {
            c + 1
        }
    }
}

/// Columns a tab occupies when it starts at column `c`.
pub open spec fn tab_width(c: nat) -> nat {
    (4 - c % 4) as nat
}

/// The expansion of the first `i` bytes of `t`: each tab becomes spaces up
/// to the next multiple of four columns.
pub open spec fn expand_text(t: Seq<u8>, i: int) -> Seq<u8>
    decreases i,
{
    if i <= 0 {
        seq![]
    } else if t[i - 1] == byte_tab() {
        expand_text(t, i - 1) + spaces(tab_width(expand_column(t, i - 1)))
    } else {
        expand_text(t, i - 1).push(t[i - 1])
    }
}

/// Original boundaries for the expansion of the first `i` bytes: the spaces
/// of a tab map to the tab's start, and the last one to its end.
pub open spec fn expand_offsets(t: Seq<u8>, o: Seq<usize>, i: int) -> Seq<usize>
    decreases i,
{
    if i <= 0 {
        seq![o[0]]
    } else if t[i - 1] == byte_tab() {
        expand_offsets(t, o, i - 1) + Seq::new(
            (tab_width(expand_column(t, i - 1)) - 1) as nat,
            |k: int| o[i - 1],
        ).push(o[i])
    } else {
        expand_offsets(t, o, i - 1).push(o[i])
    }
}

/// Ranges of the expanded text produced by the tabs among the first `i` bytes.
pub open spec fn expand_tabs_list(t: Seq<u8>, i: int) -> Seq<Range<usize>>
    decreases i,
{
    if i <= 0 {
        seq![]
    } else if t[i - 1] == byte_tab() {
        let start = expand_text(t, i - 1).len();
        expand_tabs_list(t, i - 1).push(
            Range {
                start: start as usize,
                end: (start + tab_width(expand_column(t, i - 1))) as usize,
            },
        )
    } else {
        expand_tabs_list(t, i - 1)
    }
}

/// The model of the tab-expanded view of `m`. Earlier tab records are not kept.
pub open spec fn expand_model(m: SourceModel) -> SourceModel {
    SourceModel {
        text: expand_text(m.text, m.text.len() as int),
        offsets: expand_offsets(m.text, m.offsets, m.text.len() as int),
        tabs: expand_tabs_list(m.text, m.text.len() as int),
        lazy: m.lazy,
    }
}

/// Where the text between tabs resumes: `start` before tab `lo`, otherwise
/// the end of the tab before `k`.
pub open spec fn gap_start(tabs: Seq<Range<usize>>, lo: int, k: int, start: int) -> int {
    if k <= lo {
        start
    } else {
        tabs[k - 1].end as int
    }
}

/// Text from `start` up to tab `k`, with tabs `lo..k` restored to tab characters.
pub open spec fn restore_text_prefix(
    text: Seq<u8>,
    tabs: Seq<Range<usize>>,
    lo: int,
    k: int,
    start: int,
) -> Seq<u8>
    decreases k - lo,
{
    if k <= lo {
        seq![]
    } else {
        restore_text_prefix(text, tabs, lo, k - 1, start) + text.subrange(
            gap_start(tabs, lo, k - 1, start),
            tabs[k - 1].start as int,
        ).push(byte_tab())
    }
}

/// Text of `start..end` with the tabs `lo..hi` restored to tab characters.
pub open spec fn restore_text(
    text: Seq<u8>,
    tabs: Seq<Range<usize>>,
    lo: int,
    hi: int,
    start: int,
    end: int,
) -> Seq<u8> {
    restore_text_prefix(text, tabs, lo, hi, start) + text.subrange(
        gap_start(tabs, lo, hi, start),
        end,
    )
}

/// Original boundaries after restoring the first `k` tabs: boundaries of the
/// text between tabs keep their mapping and each tab maps to its expansion's end.
pub open spec fn restore_offsets_prefix(o: Seq<usize>, tabs: Seq<Range<usize>>, k: int) -> Seq<
    usize,
>
    decreases k,
{
    if k <= 0 {
        seq![o[0]]
    } else {
        restore_offsets_prefix(o, tabs, k - 1) + o.subrange(
            gap_start(tabs, 0, k - 1, 0) + 1,
            tabs[k - 1].start + 1,
        ).push(o[tabs[k - 1].end as int])
    }
}

/// The model of `m` with every recorded tab expansion turned back into a tab.
pub open spec fn restore_model(m: SourceModel) -> SourceModel {
    let n = m.tabs.len() as int;
    let last = gap_start(m.tabs, 0, n, 0);
    SourceModel {
        text: restore_text(m.text, m.tabs, 0, n, 0, m.text.len() as int),
        offsets: restore_offsets_prefix(m.offsets, m.tabs, n) + m.offsets.subrange(
            last + 1,
            m.offsets.len() as int,
        ),
        tabs: seq![],
        lazy: m.lazy,
    }
}

proof fn lemma_expand_plain_run(t: Seq<u8>, i: int, n: int)
    requires
        0 <= i,
        0 <= n,
        i + n <= t.len(),
        forall|k: int| i <= k < i + n ==> #[trigger] t[k] != byte_tab(),
    ensures
        expand_text(t, i + n) == expand_text(t, i) + t.subrange(i, i + n),
    decreases n,
{
    if n > 0 {
        lemma_expand_plain_run(t, i, n - 1);
        assert(expand_text(t, i) + t.subrange(i, i + n) =~= (expand_text(t, i) + t.subrange(
            i,
            i + n - 1,
        )).push(t[i + n - 1]));
    } else {
        assert(expand_text(t, i) + t.subrange(i, i) =~= expand_text(t, i));
    }
}

proof fn lemma_spaces_valid(n: nat)
    ensures
        valid_utf8(spaces(n)),
{
    lemma_ascii_seq_valid(spaces(n));
}

proof fn lemma_expand_valid(t: Seq<u8>, i: int)
    requires
        0 <= i <= t.len(),
        valid_utf8(t.subrange(i, t.len() as int)),
        valid_utf8(expand_text(t, i)),
    ensures
        valid_utf8(expand_text(t, t.len() as int)),
    decreases t.len() - i,
{
    if i < t.len() {
        let rest = t.subrange(i, t.len() as int);
        lemma_first_scalar_split(rest);
        let n = length_of_first_scalar(rest);
        assert(rest.subrange(n, rest.len() as int) =~= t.subrange(i + n, t.len() as int));
        assert(rest[0] == t[i]);
        if t[i] == byte_tab() {
            assert(n == 1);
            lemma_spaces_valid(tab_width(expand_column(t, i)));
            valid_utf8_concat(expand_text(t, i), spaces(tab_width(expand_column(t, i))));
            assert(expand_text(t, i + 1) == expand_text(t, i) + spaces(
                tab_width(expand_column(t, i)),
            ));
        } else {
            assert forall|k: int| i <= k < i + n implies #[trigger] t[k] != byte_tab() by {
                assert(t[k] == rest[k - i]);
            }
            lemma_expand_plain_run(t, i, n);
            assert(t.subrange(i, i + n) =~= rest.subrange(0, n));
            valid_utf8_concat(expand_text(t, i), t.subrange(i, i + n));
        }
        lemma_expand_valid(t, i + n);
    }
}

/// A view of source text with a mapping back to original byte positions.
pub struct SourceView {
    lazy: Vec<usize>,
    text: String,
    // View byte boundary -> original byte boundary. Only character boundaries
    // are used; replacement-character interiors map to the original start and
    // are never sliced.
    offsets: Vec<usize>,
    // Whole tab expansions in the block view. A partially consumed tab is
    // absent: its remaining columns are literal spaces.
    tabs: Vec<Range<usize>>,
    /// Extension-owned values, inherited by derived views.
    pub context: Vec<ContextEntry>,
}

impl View for SourceView {
    type V = SourceModel;

    closed spec fn view(&self) -> SourceModel {
        SourceModel {
            text: encode_utf8(self.text@),
            offsets: self.offsets@,
            tabs: self.tabs@,
            lazy: self.lazy@,
        }
    }
}

impl SourceView {
    /// The view is well formed: its model is.
    pub open spec fn wf(&self) -> bool {
        self@.wf()
    }

    /// The extension-owned values this view carries, in order.
    pub closed spec fn contexts(&self) -> Seq<ContextEntry> {
        self.context@
    }

    /// A view's text is valid UTF-8 (always true of its string).
    pub proof fn lemma_text_valid(&self)
        ensures
            valid_utf8(self@.text),
    {
        encode_utf8_valid_utf8(self.text@);
    }

    /// Reads this view's value of type `T`, inherited or set on it: the first
    /// value of that type among its entries. A view without entries has none.
    pub fn context<T: Any>(&self) -> (r: Option<&T>)
        ensures
            self.contexts().len() == 0 ==> r is None,
    {
        let mut i: usize = 0;
        while i < self.context.len()
            invariant
                0 <= i <= self.context@.len(),
            decreases self.context@.len() - i,
        {
            let found = self.context[i].get::<T>();
            if found.is_some() {
                return found;
            }
            i += 1;
        }
        None
    }

    /// Sets this view's value of type `T`, replacing the first value of the
    /// same type, or adding it when there is none. Derived views keep what
    /// they inherited; the text, offsets, tabs and lazy marks are unchanged.
    pub fn set_context<T: Any + Send + Sync>(&mut self, value: T)
        ensures
            final(self)@ == old(self)@,
            final(self).contexts().len() == old(self).contexts().len() || final(self).contexts().len()
                == old(self).contexts().len() + 1,
            final(self).contexts().len() == old(self).contexts().len() + 1
                ==> final(self).contexts().subrange(0, old(self).contexts().len() as int)
                == old(self).contexts(),
            final(self).contexts().len() == old(self).contexts().len() ==> exists|k: int|
                0 <= k < old(self).contexts().len()
                && final(self).contexts() == old(self).contexts().update(k, final(self).contexts()[k]),
    {
        let n = self.context.len();
        let mut i: usize = 0;
        while i < n
            invariant
                n == self.context@.len(),
                self.context@ == old(self).contexts(),
                self@ == old(self)@,
                0 <= i <= n,
            decreases n - i,
        {
            if self.context[i].holds::<T>() {
                let entry = ContextEntry::share(value);
                self.context.set(i, entry);
                assert(self.context@ =~= old(self).context@.update(i as int, self.context@[i as int]));
                return;
            }
            i += 1;
        }
        self.context.push(ContextEntry::share(value));
    }

    /// The normalized text.
    pub fn text(&self) -> (r: &str)
        ensures
            r.spec_bytes() == self@.text,
    {
        self.text.as_str()
    }

    /// Whether the original position was marked as a lazy continuation.
    pub fn is_lazy(&self, original: usize) -> (r: bool)
        ensures
            r == self@.lazy.contains(original),
    {
        let mut i: usize = 0;
        while i < self.lazy.len()
            invariant
                0 <= i <= self.lazy@.len(),
                forall|k: int| 0 <= k < i ==> self.lazy@[k] != original,
            decreases self.lazy@.len() - i,
        {
            if self.lazy[i] == original {
                return true;
            }
            i += 1;
        }
        false
    }

    /// Marks an original position as a lazy continuation.
    pub fn mark_lazy(&mut self, original: usize)
        requires
            old(self).wf(),
        ensures
            final(self).wf(),
            final(self)@ == (SourceModel { lazy: old(self)@.lazy.push(original), ..old(self)@ }),
            final(self).contexts() == old(self).contexts(),
    {
        self.lazy.push(original);
    }

    /// The work a recursive view costs: text bytes, tab records and lazy marks.
    pub fn work_len(&self) -> (r: usize)
        requires
            self@.text.len() + self@.tabs.len() * 2 + self@.lazy.len() <= usize::MAX,
        ensures
            r == self@.text.len() + self@.tabs.len() * 2 + self@.lazy.len(),
    {
        self.text.as_str().len() + self.tabs.len() * 2 + self.lazy.len()
    }

    /// The original span of a view byte range, checked to be in order and on
    /// character boundaries.
    pub fn span_for(&self, range: Range<usize>) -> (r: Result<Span, ParseError>)
        requires
            self.wf(),
        ensures
            r is Ok <==> range.start <= range.end && is_char_boundary(
                self@.text,
                range.start as int,
            ) && is_char_boundary(self@.text, range.end as int),
            r matches Ok(s) ==> s == (Span {
                start: self@.offsets[range.start as int],
                end: self@.offsets[range.end as int],
            }),
            r matches Err(e) ==> e == ParseError::InternalError,
    {
        let text = self.text.as_str();
        if range.start > range.end || !text.is_char_boundary(range.start)
            || !text.is_char_boundary(range.end) {
            return Err(ParseError::InternalError);
        }
        proof {
            self.lemma_text_valid();
            lemma_boundary_iff(self@.text, range.end as int);
        }
        Ok(self.span(range.start, range.end))
    }

    /// The original positions of two view boundaries, as a span.
    pub(crate) fn span(&self, start: usize, end: usize) -> (r: Span)
        requires
            self.wf(),
            start <= self@.text.len(),
            end <= self@.text.len(),
        ensures
            r == (Span { start: self@.offsets[start as int], end: self@.offsets[end as int] }),
    {
        Span { start: self.offsets[start], end: self.offsets[end] }
    }

    /// Positions `lo..hi` of the recorded tabs that lie wholly inside `range`:
    /// `lo` is the first tab starting at or after `range.start`, `hi` the
    /// first tab from `lo` on that ends after `range.end`.
    fn tabs_in(&self, range: &Range<usize>) -> (r: (usize, usize))
        requires
            self.wf(),
        ensures
            r.0 == tab_lower(self@.tabs, range.start as int, 0),
            r.1 == tab_upper(self@.tabs, range.end as int, r.0 as int),
    {
        let ghost tabs = self@.tabs;
        // Binary search for the partition point of `tab.start < range.start`.
        let mut lo: usize = 0;
        let mut hi: usize = self.tabs.len();
        while lo < hi
            invariant
                tabs == self.tabs@,
                tabs_wf(self@.text, tabs),
                0 <= lo <= hi <= tabs.len(),
                forall|j: int| 0 <= j < lo ==> #[trigger] tabs[j].start < range.start,
                forall|j: int| hi <= j < tabs.len() ==> #[trigger] tabs[j].start >= range.start,
            decreases hi - lo,
        {
            let mid = lo + (hi - lo) / 2;
            if self.tabs[mid].start < range.start {
                proof {
                    assert forall|j: int| 0 <= j <= mid implies #[trigger] tabs[j].start
                        < range.start by {
                        if j < mid {
                            assert(tabs[j].end <= tabs[mid as int].start);
                            assert(tab_in_text(self@.text, tabs[j]));
                        }
                    }
                }
                lo = mid + 1;
            } else {
                proof {
                    assert forall|j: int| mid <= j < tabs.len() implies #[trigger] tabs[j].start
                        >= range.start by {
                        if j > mid {
                            assert(tabs[mid as int].end <= tabs[j].start);
                            assert(tab_in_text(self@.text, tabs[mid as int]));
                        }
                    }
                }
                hi = mid;
            }
        }
        proof {
            lemma_tab_lower_char(tabs, range.start as int, 0, lo as int);
        }
        let mut end = lo;
        while end < self.tabs.len() && self.tabs[end].end <= range.end
            invariant
                tabs == self.tabs@,
                lo <= end <= tabs.len(),
                tab_upper(tabs, range.end as int, lo as int) == tab_upper(
                    tabs,
                    range.end as int,
                    end as int,
                ),
            decreases tabs.len() - end,
        {
            end += 1;
        }
        (lo, end)
    }

    /// Copies of the context entries, sharing the same values.
    fn inherit_context(&self) -> (r: Vec<ContextEntry>)
        ensures
            r@ == self.context@,
    {
        let mut out: Vec<ContextEntry> = Vec::new();
        let mut i: usize = 0;
        while i < self.context.len()
            invariant
                0 <= i <= self.context@.len(),
                out@ == self.context@.take(i as int),
            decreases self.context@.len() - i,
        {
            out.push(self.context[i].share_again());
            proof {
                assert(self.context@.take(i + 1) =~= self.context@.take(i as int).push(self.context@[i as int]));
            }
            i += 1;
        }
        proof {
            assert(self.context@.take(self.context@.len() as int) =~= self.context@);
        }
        out
    }

    /// The view made of the given ranges, one after another. Derived views
    /// inherit the lazy marks and context.
    pub(crate) fn select(&self, ranges: &[Range<usize>]) -> (r: Self)
        requires
            self.wf(),
            forall|i: int| 0 <= i < ranges@.len() ==> valid_range(self@.text, #[trigger] ranges@[i]),
        ensures
            r.wf(),
            r@ == select_model(self@, ranges@),
            r.contexts() == self.contexts(),
    {
        let ghost m = self@;
        proof {
            self.lemma_text_valid();
        }
        let bytes = self.text.as_str().as_bytes();
        let mut text: Vec<u8> = Vec::new();
        let mut offsets: Vec<usize> = Vec::new();
        offsets.push(0);
        let mut tabs: Vec<Range<usize>> = Vec::new();
        let mut i: usize = 0;
        while i < ranges.len()
            invariant
                m == self@,
                m.wf(),
                bytes@ == m.text,
                forall|k: int| 0 <= k < ranges@.len() ==> valid_range(m.text, #[trigger] ranges@[k]),
                0 <= i <= ranges@.len(),
                text@ == select_text(m.text, ranges@.take(i as int)),
                offsets@ == select_offsets(m.offsets, ranges@.take(i as int)),
                tabs@ == select_tabs(m.text, m.tabs, ranges@.take(i as int)),
                valid_utf8(text@),
                offsets@.len() == text@.len() + 1,
                tabs_wf(text@, tabs@),
            decreases ranges@.len() - i,
        {
            let range = &ranges[i];
            let ghost prefix = ranges@.take(i as int);
            let ghost next = ranges@.take(i + 1);
            proof {
                assert(next.drop_last() =~= prefix);
                assert(next.last() == *range);
                lemma_boundary_in_bounds(m.text, range.start as int);
                lemma_boundary_in_bounds(m.text, range.end as int);
                lemma_valid_between(m.text, range.start as int, range.end as int);
            }
            let start = text.len();
            let ghost prev_text = text@;
            text.extend_from_slice(&bytes[range.start..range.end]);
            let (lo, hi) = self.tabs_in(range);
            proof {
                lemma_tab_lower_bounds(m.tabs, range.start as int, 0);
                lemma_tab_upper_bounds(m.tabs, range.end as int, lo as int);
            }
            let ghost prev_tabs = tabs@;
            let mut j = lo;
            while j < hi
                invariant
                    m == self@,
                    m.wf(),
                    lo <= j <= hi <= m.tabs.len(),
                    forall|k: int| lo <= k < hi ==> #[trigger] m.tabs[k].end <= range.end,
                    lo < m.tabs.len() ==> m.tabs[lo as int].start >= range.start,
                    range.end <= m.text.len(),
                    start + (range.end - range.start) == text@.len(),
                    tabs@ == prev_tabs + translate_tabs(
                        m.tabs.subrange(lo as int, j as int),
                        start as int,
                        range.start as int,
                    ),
                decreases hi - j,
            {
                let tab = &self.tabs[j];
                proof {
                    assert(tab_in_text(m.text, m.tabs[lo as int]));
                    assert(tab_in_text(m.text, m.tabs[j as int]));
                    if j > lo {
                        assert(m.tabs[lo as int].end <= m.tabs[j as int].start);
                    }
                    assert(m.tabs[j as int].start >= range.start);
                    assert(m.tabs[j as int].end <= range.end);
                    assert(tab.start == m.tabs[j as int].start);
                    assert(text@.len() == text.len());
                    assert(start + (tab.end - range.start) <= text.len());
                }
                tabs.push((start + (tab.start - range.start))..(start + (tab.end - range.start)));
                proof {
                    assert(m.tabs.subrange(lo as int, j + 1) =~= m.tabs.subrange(lo as int, j as int).push(m.tabs[j as int]));
                    assert(tabs@ =~= prev_tabs + translate_tabs(
                        m.tabs.subrange(lo as int, j + 1),
                        start as int,
                        range.start as int,
                    ));
                }
                j += 1;
            }
            assert(self.offsets@.len() == m.text.len() + 1);
            assert(self.offsets@.len() == self.offsets.len());
            assert(range.end < self.offsets.len());
            let last = offsets.len() - 1;
            offsets.set(last, self.offsets[range.start]);
            offsets.extend_from_slice(&self.offsets.as_slice()[range.start + 1..range.end + 1]);
            proof {
                let piece = m.text.subrange(range.start as int, range.end as int);
                valid_utf8_concat(select_text(m.text, prefix), piece);
                assert(text@ =~= select_text(m.text, next));
                assert(offsets@ =~= select_offsets(m.offsets, next));
                assert(tabs@ =~= select_tabs(m.text, m.tabs, next));
                assert(prev_text == select_text(m.text, prefix));
                assert(text@.len() == text.len());
                lemma_select_tabs_step(m, prev_tabs, select_text(m.text, prefix), *range, lo as int, hi as int);
            }
            i += 1;
        }
        proof {
            assert(ranges@.take(ranges@.len() as int) =~= ranges@);
        }
        let context = self.inherit_context();
        let lazy = self.lazy.clone();
        let text = match string_from_bytes(text) {
            Some(t) => t,
            None => String::new(),
        };
        SourceView { lazy, text, offsets, tabs, context }
    }

    /// The view made of the given ranges, after checking that each one is in
    /// order and on character boundaries.
    pub fn join(&self, ranges: &[Range<usize>]) -> (r: Result<Self, ParseError>)
        requires
            self.wf(),
        ensures
            r is Ok <==> forall|i: int| 0 <= i < ranges@.len() ==> valid_range(self@.text, #[trigger] ranges@[i]),
            r matches Ok(v) ==> v.wf() && v@ == select_model(self@, ranges@) && v.contexts() == self.contexts(),
            r matches Err(e) ==> e == ParseError::InternalError,
    {
        let mut i: usize = 0;
        while i < ranges.len()
            invariant
                self.wf(),
                0 <= i <= ranges@.len(),
                forall|k: int| 0 <= k < i ==> valid_range(self@.text, #[trigger] ranges@[k]),
            decreases ranges@.len() - i,
        {
            let range = &ranges[i];
            match self.span_for(range.start..range.end) {
                Ok(_) => {},
                Err(e) => {
                    return Err(e);
                },
            }
            i += 1;
        }
        Ok(self.select(ranges))
    }

    /// The view with every tab replaced by spaces up to the next multiple of
    /// four columns (columns restart after a line feed). The expansions are
    /// recorded; earlier records are not kept.
    pub fn expand_tabs(&self) -> (r: Self)
        requires
            self.wf(),
        ensures
            r.wf(),
            r@ == expand_model(self@),
            r.contexts() == self.contexts(),
    {
        let ghost m = self@;
        let ghost t = m.text;
        let ghost o = m.offsets;
        proof {
            self.lemma_text_valid();
        }
        let bytes = self.text.as_str().as_bytes();
        let n = bytes.len();
        let mut text: Vec<u8> = Vec::new();
        let mut offsets: Vec<usize> = Vec::new();
        offsets.push(self.offsets[0]);
        let mut tabs: Vec<Range<usize>> = Vec::new();
        let mut column: usize = 0;
        let mut pos: usize = 0;
        while pos < n
            invariant
                m == self@,
                m.wf(),
                t == m.text,
                o == m.offsets,
                bytes@ == t,
                n == t.len(),
                0 <= pos <= n,
                text@ == expand_text(t, pos as int),
                offsets@ == expand_offsets(t, o, pos as int),
                tabs@ == expand_tabs_list(t, pos as int),
                column == expand_column(t, pos as int),
                column <= text@.len(),
                offsets@.len() == text@.len() + 1,
                tabs_wf(text@, tabs@),
                forall|k: int| 0 <= k < tabs@.len() ==> #[trigger] tabs@[k].end <= text@.len(),
            decreases n - pos,
        {
            let b = bytes[pos];
            proof {
                assert(self.offsets@.len() == self.offsets.len());
            }
            if b == 9 {
                let width = 4 - column % 4;
                let start = text.len();
                let ghost prev_text = text@;
                let ghost prev_tabs = tabs@;
                let mut k: usize = 0;
                while k < width
                    invariant
                        0 <= k <= width,
                        width <= 4,
                        text@ == prev_text + spaces(k as nat),
                    decreases width - k,
                {
                    text.push(32);
                    proof {
                        assert(prev_text + spaces((k + 1) as nat) =~= (prev_text + spaces(
                            k as nat,
                        )).push(32));
                    }
                    k += 1;
                }
                tabs.push(start..text.len());
                let ghost prev_offsets = offsets@;
                let mut k: usize = 0;
                while k + 1 < width
                    invariant
                        0 <= k < width,
                        width <= 4,
                        pos < o.len(),
                        self.offsets@ == o,
                        offsets@ == prev_offsets + Seq::new(k as nat, |q: int| o[pos as int]),
                    decreases width - k,
                {
                    offsets.push(self.offsets[pos]);
                    proof {
                        assert(prev_offsets + Seq::new((k + 1) as nat, |q: int| o[pos as int])
                            =~= (prev_offsets + Seq::new(k as nat, |q: int| o[pos as int])).push(
                            o[pos as int],
                        ));
                    }
                    k += 1;
                }
                offsets.push(self.offsets[pos + 1]);
                column += width;
                proof {
                    assert(text@ =~= expand_text(t, pos + 1));
                    assert(offsets@ =~= expand_offsets(t, o, pos + 1));
                    assert(tabs@ =~= expand_tabs_list(t, pos + 1));
                    assert forall|i: int| 0 <= i < tabs@.len() implies tab_in_text(
                        text@,
                        #[trigger] tabs@[i],
                    ) by {
                        if i < prev_tabs.len() {
                            assert(tabs@[i] == prev_tabs[i]);
                            assert(tab_in_text(prev_text, prev_tabs[i]));
                            assert forall|q: int| tabs@[i].start <= q < tabs@[i].end implies #[trigger] text@[q]
                                == byte_space() by {
                                assert(text@[q] == prev_text[q]);
                            }
                        } else {
                            assert forall|q: int| tabs@[i].start <= q < tabs@[i].end implies #[trigger] text@[q]
                                == byte_space() by {
                                assert(text@[q] == spaces(width as nat)[q - start]);
                            }
                        }
                    }
                    assert forall|i: int, j: int| 0 <= i < j < tabs@.len() implies #[trigger] tabs@[i].end
                        <= #[trigger] tabs@[j].start by {
                        if j < prev_tabs.len() {
                            assert(tabs@[i] == prev_tabs[i]);
                            assert(tabs@[j] == prev_tabs[j]);
                        } else {
                            assert(tabs@[i] == prev_tabs[i]);
                        }
                    }
                }
            } else {
                let ghost prev_text = text@;
                let ghost prev_tabs = tabs@;
                text.push(b);
                offsets.push(self.offsets[pos + 1]);
                assert(text@.len() == text.len());
                if b == 10 {
                    column = 0;
                } else if !(0x80 <= b && b <= 0xbf) {
                    column += 1;
                }
                proof {
                    assert(tabs@ =~= expand_tabs_list(t, pos + 1));
                    assert forall|i: int| 0 <= i < tabs@.len() implies tab_in_text(
                        text@,
                        #[trigger] tabs@[i],
                    ) by {
                        assert(tab_in_text(prev_text, prev_tabs[i]));
                        assert forall|q: int| tabs@[i].start <= q < tabs@[i].end implies #[trigger] text@[q]
                            == byte_space() by {
                            assert(text@[q] == prev_text[q]);
                        }
                    }
                }
            }
            pos += 1;
        }
        proof {
            assert(t.subrange(0, t.len() as int) =~= t);
            lemma_expand_valid(t, 0);
        }
        let context = self.inherit_context();
        let lazy = self.lazy.clone();
        let text = match string_from_bytes(text) {
            Some(s) => s,
            None => String::new(),
        };
        SourceView { lazy, text, offsets, tabs, context }
    }

    /// A tab record's ends are character boundaries of the text.
    proof fn lemma_tab_boundaries(&self, k: int)
        requires
            self.wf(),
            0 <= k < self@.tabs.len(),
        ensures
            is_char_boundary(self@.text, self@.tabs[k].start as int),
            is_char_boundary(self@.text, self@.tabs[k].end as int),
            self@.tabs[k].start < self@.tabs[k].end <= self@.text.len(),
    {
        let m = self@;
        assert(tab_in_text(m.text, m.tabs[k]));
        let s = m.tabs[k].start as int;
        let e = m.tabs[k].end as int;
        assert(m.text[s] == byte_space());
        assert(m.text[e - 1] == byte_space());
        lemma_ascii_boundaries(m.text, s);
        lemma_ascii_boundaries(m.text, e - 1);
    }

    /// The text of `range` with every whole tab expansion inside it turned
    /// back into a tab character.
    pub fn literal(&self, range: Range<usize>) -> (r: String)
        requires
            self.wf(),
            valid_range(self@.text, range),
        ensures
            encode_utf8(r@) == ({
                let lo = tab_lower(self@.tabs, range.start as int, 0);
                let hi = tab_upper(self@.tabs, range.end as int, lo);
                restore_text(self@.text, self@.tabs, lo, hi, range.start as int, range.end as int)
            }),
    {
        let ghost m = self@;
        let ghost t = m.text;
        proof {
            self.lemma_text_valid();
            lemma_boundary_in_bounds(t, range.start as int);
            lemma_boundary_in_bounds(t, range.end as int);
        }
        let (lo, hi) = self.tabs_in(&range);
        proof {
            lemma_tab_lower_bounds(m.tabs, range.start as int, 0);
            lemma_tab_upper_bounds(m.tabs, range.end as int, lo as int);
        }
        let bytes = self.text.as_str().as_bytes();
        let mut out: Vec<u8> = Vec::new();
        let mut pos = range.start;
        let mut k = lo;
        proof {
            assert(out@ =~= restore_text_prefix(t, m.tabs, lo as int, lo as int, range.start as int));
        }
        while k < hi
            invariant
                m == self@,
                m.wf(),
                t == m.text,
                bytes@ == t,
                valid_range(t, range),
                range.end <= t.len(),
                lo <= k <= hi <= m.tabs.len(),
                lo < m.tabs.len() ==> m.tabs[lo as int].start >= range.start,
                forall|j: int| lo <= j < hi ==> #[trigger] m.tabs[j].end <= range.end,
                pos as int == gap_start(m.tabs, lo as int, k as int, range.start as int),
                is_char_boundary(t, pos as int),
                range.start <= pos <= range.end,
                k < hi ==> pos <= m.tabs[k as int].start,
                out@ == restore_text_prefix(t, m.tabs, lo as int, k as int, range.start as int),
                valid_utf8(out@),
            decreases hi - k,
        {
            let tab = &self.tabs[k];
            proof {
                self.lemma_tab_boundaries(k as int);
                lemma_valid_between(t, pos as int, m.tabs[k as int].start as int);
                lemma_ascii_byte_valid(byte_tab());
            }
            let ghost prev = out@;
            out.extend_from_slice(&bytes[pos..tab.start]);
            out.push(9);
            pos = tab.end;
            proof {
                let piece = t.subrange(gap_start(m.tabs, lo as int, k as int, range.start as int), m.tabs[k as int].start as int);
                valid_utf8_concat(prev, piece);
                valid_utf8_concat(prev + piece, seq![byte_tab()]);
                assert(out@ =~= prev + piece + seq![byte_tab()]);
                assert(out@ =~= restore_text_prefix(t, m.tabs, lo as int, k + 1, range.start as int));
                if k + 1 < hi {
                    assert(m.tabs[k as int].end <= m.tabs[k + 1].start);
                }
                assert(tab_in_text(t, m.tabs[lo as int]));
                if k > lo {
                    assert(m.tabs[lo as int].end <= m.tabs[k as int].start);
                }
            }
            k += 1;
        }
        proof {
            lemma_valid_between(t, pos as int, range.end as int);
            valid_utf8_concat(out@, t.subrange(pos as int, range.end as int));
        }
        out.extend_from_slice(&bytes[pos..range.end]);
        proof {
            assert(out@ =~= restore_text(t, m.tabs, lo as int, hi as int, range.start as int, range.end as int));
        }
        match string_from_bytes(out) {
            Some(s) => s,
            None => String::new(),
        }
    }

    /// The view with every recorded tab expansion turned back into a tab.
    /// The boundary after a restored tab maps to its expansion's end.
    pub fn restore_tabs(self) -> (r: Self)
        requires
            self.wf(),
        ensures
            r.wf(),
            r@ == restore_model(self@),
            r.contexts() == self.contexts(),
    {
        let ghost m = self@;
        let ghost t = m.text;
        let ghost o = m.offsets;
        proof {
            self.lemma_text_valid();
        }
        if self.tabs.len() == 0 {
            proof {
                assert(t.subrange(0, t.len() as int) =~= t);
                assert(restore_text(t, m.tabs, 0, 0, 0, t.len() as int) =~= t);
                assert(seq![o[0]] + o.subrange(1, o.len() as int) =~= o);
                assert(m.tabs =~= Seq::<Range<usize>>::empty());
            }
            return self;
        }
        let bytes = self.text.as_str().as_bytes();
        let n = self.tabs.len();
        let mut text: Vec<u8> = Vec::new();
        let mut offsets: Vec<usize> = Vec::new();
        offsets.push(self.offsets[0]);
        let mut pos: usize = 0;
        let mut k: usize = 0;
        proof {
            is_char_boundary_start_end_of_seq(t);
        }
        while k < n
            invariant
                m == self@,
                m.wf(),
                t == m.text,
                o == m.offsets,
                bytes@ == t,
                n == m.tabs.len(),
                0 <= k <= n,
                pos as int == gap_start(m.tabs, 0, k as int, 0),
                is_char_boundary(t, pos as int),
                pos <= t.len(),
                k < n ==> pos <= m.tabs[k as int].start,
                text@ == restore_text_prefix(t, m.tabs, 0, k as int, 0),
                offsets@ == restore_offsets_prefix(o, m.tabs, k as int),
                offsets@.len() == text@.len() + 1,
                valid_utf8(text@),
            decreases n - k,
        {
            let tab = &self.tabs[k];
            proof {
                self.lemma_tab_boundaries(k as int);
                lemma_valid_between(t, pos as int, m.tabs[k as int].start as int);
                lemma_ascii_byte_valid(byte_tab());
                assert(self.offsets@.len() == self.offsets.len());
            }
            let ghost prev = text@;
            text.extend_from_slice(&bytes[pos..tab.start]);
            text.push(9);
            offsets.extend_from_slice(&self.offsets.as_slice()[pos + 1..tab.start + 1]);
            offsets.push(self.offsets[tab.end]);
            pos = tab.end;
            proof {
                let piece = t.subrange(gap_start(m.tabs, 0, k as int, 0), m.tabs[k as int].start as int);
                valid_utf8_concat(prev, piece);
                valid_utf8_concat(prev + piece, seq![byte_tab()]);
                assert(text@ =~= prev + piece + seq![byte_tab()]);
                assert(text@ =~= restore_text_prefix(t, m.tabs, 0, k + 1, 0));
                assert(offsets@ =~= restore_offsets_prefix(o, m.tabs, k + 1));
                if k + 1 < n {
                    assert(m.tabs[k as int].end <= m.tabs[k + 1].start);
                }
            }
            k += 1;
        }
        proof {
            is_char_boundary_start_end_of_seq(t);
            lemma_valid_between(t, pos as int, t.len() as int);
            valid_utf8_concat(text@, t.subrange(pos as int, t.len() as int));
            assert(self.offsets@.len() == self.offsets.len());
        }
        text.extend_from_slice(&bytes[pos..bytes.len()]);
        offsets.extend_from_slice(&self.offsets.as_slice()[pos + 1..self.offsets.len()]);
        proof {
            assert(text@ =~= restore_model(m).text);
            assert(offsets@ =~= restore_model(m).offsets);
        }
        let context = self.inherit_context();
        let lazy = self.lazy;
        let text = match string_from_bytes(text) {
            Some(s) => s,
            None => String::new(),
        };
        SourceView { lazy, text, offsets, tabs: Vec::new(), context }
    }

    /// A fresh view of `source`: CR LF and lone CR become LF, NUL becomes
    /// U+FFFD; no tabs are recorded, nothing is lazy and there is no context.
    pub fn new(source: &str) -> (r: Self)
        ensures
            r.wf(),
            r@.text == normalized_text(source.spec_bytes(), 0),
            r@.offsets == seq![0usize] + normalized_offsets(source.spec_bytes(), 0),
            r@.tabs.len() == 0,
            r@.lazy.len() == 0,
            r.contexts().len() == 0,
    {
        let bytes = source.as_bytes();
        let ghost s = bytes@;
        let n = bytes.len();
        let mut out: Vec<u8> = Vec::new();
        let mut offsets: Vec<usize> = Vec::new();
        offsets.push(0);
        let mut i: usize = 0;
        while i < n
            invariant
                n == s.len(),
                s == source.spec_bytes(),
                bytes@ == s,
                0 <= i <= n,
                normalized_text(s, 0) == out@ + normalized_text(s, i as int),
                normalized_offsets(s, 0) == offsets@.skip(1) + normalized_offsets(s, i as int),
                offsets@.len() == out@.len() + 1,
                offsets@[0] == 0,
            decreases n - i,
        {
            let b = bytes[i];
            if b == 13 {
                out.push(10);
                if i + 1 < n && bytes[i + 1] == 10 {
                    offsets.push(i + 2);
                    i += 2;
                } else {
                    offsets.push(i + 1);
                    i += 1;
                }
            } else if b == 0 {
                out.push(0xef);
                out.push(0xbf);
                out.push(0xbd);
                offsets.push(i);
                offsets.push(i);
                offsets.push(i + 1);
                i += 1;
            } else {
                out.push(b);
                offsets.push(i + 1);
                i += 1;
            }
        }
        proof {
            assert(normalized_text(s, i as int) =~= Seq::<u8>::empty());
            assert(normalized_offsets(s, i as int) =~= Seq::<usize>::empty());
            assert(out@ =~= normalized_text(s, 0));
            assert(offsets@ =~= seq![0usize] + normalized_offsets(s, 0));
            encode_utf8_valid_utf8(source@);
            assert(s.subrange(0, s.len() as int) =~= s);
            lemma_normalized_valid(s, 0);
        }
        let text = match string_from_bytes(out) {
            Some(t) => t,
            None => String::new(),
        };
        SourceView {
            lazy: Vec::new(),
            text,
            offsets,
            tabs: Vec::new(),
            context: Vec::new(),
        }
    }
}

/// Facts about expanding a prefix: one original boundary per expanded
/// boundary, and the recorded expansions are non-empty, inside the expanded
/// text and in increasing order.
proof fn lemma_expand_len_mono(t: Seq<u8>, i: int, j: int)
    requires
        0 <= i <= j,
    ensures
        expand_text(t, i).len() <= expand_text(t, j).len(),
    decreases j - i,
{
    if i < j {
        lemma_expand_len_mono(t, i, j - 1);
    }
}

proof fn lemma_expand_prefix(t: Seq<u8>, o: Seq<usize>, i: int)
    requires
        0 <= i <= t.len(),
        expand_text(t, i).len() <= usize::MAX,
    ensures
        expand_offsets(t, o, i).len() == expand_text(t, i).len() + 1,
        forall|j: int|
            0 <= j < expand_tabs_list(t, i).len() ==> #[trigger] expand_tabs_list(t, i)[j].start
                < expand_tabs_list(t, i)[j].end <= expand_text(t, i).len(),
        forall|j: int, k: int|
            0 <= j < k < expand_tabs_list(t, i).len() ==> #[trigger] expand_tabs_list(t, i)[j].end
                <= #[trigger] expand_tabs_list(t, i)[k].start,
        expand_text(t, i).len() <= 4 * i,
    decreases i,
{
    if i > 0 {
        lemma_expand_len_mono(t, i - 1, i);
        lemma_expand_prefix(t, o, i - 1);
        let tabs0 = expand_tabs_list(t, i - 1);
        let tabs1 = expand_tabs_list(t, i);
        let e0 = expand_text(t, i - 1);
        let e1 = expand_text(t, i);
        if t[i - 1] == byte_tab() {
            let w = tab_width(expand_column(t, i - 1));
            assert(tabs1 == tabs0.push(Range { start: e0.len() as usize, end: (e0.len() + w) as usize }));
            assert(e1.len() == e0.len() + w);
            assert forall|j: int| 0 <= j < tabs1.len() implies #[trigger] tabs1[j].start
                < tabs1[j].end <= e1.len() by {
                if j < tabs0.len() {
                    assert(tabs1[j] == tabs0[j]);
                    assert(tabs0[j].start < tabs0[j].end <= e0.len());
                }
            }
            assert forall|j: int, k: int| 0 <= j < k < tabs1.len() implies #[trigger] tabs1[j].end
                <= #[trigger] tabs1[k].start by {
                assert(tabs1[j] == tabs0[j]);
                assert(tabs0[j].start < tabs0[j].end <= e0.len());
                if k < tabs0.len() {
                    assert(tabs1[k] == tabs0[k]);
                    assert(tabs0[j].end <= tabs0[k].start);
                }
            }
        } else {
            assert(tabs1 == tabs0);
            assert(e1.len() == e0.len() + 1);
            assert forall|j: int| 0 <= j < tabs1.len() implies #[trigger] tabs1[j].start
                < tabs1[j].end <= e1.len() by {
                assert(tabs0[j].start < tabs0[j].end <= e0.len());
            }
            assert(forall|j: int|
            0 <= j < expand_tabs_list(t, i).len() ==> #[trigger] expand_tabs_list(t, i)[j].start
                < expand_tabs_list(t, i)[j].end);
            assert(forall|j: int|
            0 <= j < expand_tabs_list(t, i).len() ==> #[trigger] expand_tabs_list(t, i)[j].start
                < expand_tabs_list(t, i)[j].end <= expand_text(t, i).len());
        }
    }
}

proof fn lemma_restore_text_frame(
    a: Seq<u8>,
    b: Seq<u8>,
    tabs1: Seq<Range<usize>>,
    tabs2: Seq<Range<usize>>,
    k: int,
    l: int,
)
    requires
        0 <= k <= tabs1.len(),
        k <= tabs2.len(),
        0 <= l <= a.len(),
        l <= b.len(),
        forall|x: int| 0 <= x < l ==> #[trigger] a[x] == b[x],
        forall|j: int| 0 <= j < k ==> #[trigger] tabs1[j] == tabs2[j],
        forall|j: int| 0 <= j < k ==> #[trigger] tabs1[j].start < tabs1[j].end <= l,
        forall|i: int, j: int| 0 <= i < j < k ==> #[trigger] tabs1[i].end <= #[trigger] tabs1[j].start,
    ensures
        restore_text_prefix(a, tabs1, 0, k, 0) == restore_text_prefix(b, tabs2, 0, k, 0),
    decreases k,
{
    if k > 0 {
        lemma_restore_text_frame(a, b, tabs1, tabs2, k - 1, l);
        let g = gap_start(tabs1, 0, k - 1, 0);
        assert(tabs1[k - 1] == tabs2[k - 1]);
        if k > 1 {
            assert(tabs1[k - 2] == tabs2[k - 2]);
            assert(tabs1[k - 2].end <= tabs1[k - 1].start);
        }
        assert(gap_start(tabs2, 0, k - 1, 0) == g);
        assert(a.subrange(g, tabs1[k - 1].start as int) =~= b.subrange(g, tabs1[k - 1].start as int));
    }
}

proof fn lemma_restore_offsets_frame(
    a: Seq<usize>,
    b: Seq<usize>,
    tabs1: Seq<Range<usize>>,
    tabs2: Seq<Range<usize>>,
    k: int,
    l: int,
)
    requires
        0 <= k <= tabs1.len(),
        k <= tabs2.len(),
        0 <= l < a.len(),
        l < b.len(),
        forall|x: int| 0 <= x <= l ==> #[trigger] a[x] == b[x],
        forall|j: int| 0 <= j < k ==> #[trigger] tabs1[j] == tabs2[j],
        forall|j: int| 0 <= j < k ==> #[trigger] tabs1[j].start < tabs1[j].end <= l,
        forall|i: int, j: int| 0 <= i < j < k ==> #[trigger] tabs1[i].end <= #[trigger] tabs1[j].start,
    ensures
        restore_offsets_prefix(a, tabs1, k) == restore_offsets_prefix(b, tabs2, k),
    decreases k,
{
    if k > 0 {
        lemma_restore_offsets_frame(a, b, tabs1, tabs2, k - 1, l);
        let g = gap_start(tabs1, 0, k - 1, 0);
        assert(tabs1[k - 1] == tabs2[k - 1]);
        if k > 1 {
            assert(tabs1[k - 2] == tabs2[k - 2]);
            assert(tabs1[k - 2].end <= tabs1[k - 1].start);
        }
        assert(gap_start(tabs2, 0, k - 1, 0) == g);
        assert(a.subrange(g + 1, tabs1[k - 1].start + 1) =~= b.subrange(
            g + 1,
            tabs1[k - 1].start + 1,
        ));
    }
}

/// Restoring the expansion of the first `i` bytes gives those bytes back,
/// with the original boundaries of the first `i + 1` view boundaries.
proof fn lemma_restore_expand_prefix(t: Seq<u8>, o: Seq<usize>, i: int)
    requires
        0 <= i <= t.len(),
        expand_text(t, i).len() <= usize::MAX,
        o.len() == t.len() + 1,
    ensures
        ({
            let e = expand_text(t, i);
            let et = expand_tabs_list(t, i);
            let eo = expand_offsets(t, o, i);
            let n = et.len() as int;
            &&& restore_text(e, et, 0, n, 0, e.len() as int) == t.subrange(0, i)
            &&& restore_offsets_prefix(eo, et, n) + eo.subrange(
                gap_start(et, 0, n, 0) + 1,
                eo.len() as int,
            ) == o.subrange(0, i + 1)
        }),
    decreases i,
{
    lemma_expand_prefix(t, o, i);
    if i == 0 {
        let eo = expand_offsets(t, o, 0);
        assert(expand_text(t, 0) =~= Seq::<u8>::empty());
        assert(restore_text(expand_text(t, 0), seq![], 0, 0, 0, 0) =~= t.subrange(0, 0));
        assert(seq![o[0]] + eo.subrange(1, 1) =~= o.subrange(0, 1));
    } else {
        lemma_expand_len_mono(t, i - 1, i);
        lemma_restore_expand_prefix(t, o, i - 1);
        lemma_expand_prefix(t, o, i - 1);
        let e0 = expand_text(t, i - 1);
        let et0 = expand_tabs_list(t, i - 1);
        let eo0 = expand_offsets(t, o, i - 1);
        let n0 = et0.len() as int;
        let e1 = expand_text(t, i);
        let et1 = expand_tabs_list(t, i);
        let eo1 = expand_offsets(t, o, i);
        let g0 = gap_start(et0, 0, n0, 0);
        assert(0 <= g0 <= e0.len()) by {
            if n0 > 0 {
                assert(et0[n0 - 1].start < et0[n0 - 1].end <= e0.len());
            }
        }
        lemma_restore_text_frame(e1, e0, et1, et0, n0, e0.len() as int);
        lemma_restore_offsets_frame(eo1, eo0, et1, et0, n0, e0.len() as int);
        if t[i - 1] == byte_tab() {
            let w = tab_width(expand_column(t, i - 1));
            assert(et1[n0] == Range { start: e0.len() as usize, end: (e0.len() + w) as usize });
            assert(gap_start(et1, 0, n0, 0) == g0);
            assert(e1.subrange(g0, e0.len() as int) =~= e0.subrange(g0, e0.len() as int));
            assert(restore_text_prefix(e1, et1, 0, n0 + 1, 0) =~= restore_text_prefix(
                e0,
                et0,
                0,
                n0,
                0,
            ) + e0.subrange(g0, e0.len() as int).push(byte_tab()));
            assert(e1.subrange(e1.len() as int, e1.len() as int) =~= Seq::<u8>::empty());
            assert(t.subrange(0, i) =~= t.subrange(0, i - 1).push(t[i - 1]));
            assert(restore_text(e1, et1, 0, n0 + 1, 0, e1.len() as int) =~= t.subrange(0, i));
            assert(eo1.subrange(g0 + 1, e0.len() + 1int) =~= eo0.subrange(g0 + 1, eo0.len() as int));
            assert(eo1[(e0.len() + w) as int] == o[i]);
            assert(eo1.subrange((e0.len() + w) as int + 1, eo1.len() as int) =~= Seq::<usize>::empty());
            assert(o.subrange(0, i + 1) =~= o.subrange(0, i).push(o[i]));
            assert(restore_offsets_prefix(eo1, et1, n0 + 1) + eo1.subrange(
                gap_start(et1, 0, n0 + 1, 0) + 1,
                eo1.len() as int,
            ) =~= o.subrange(0, i + 1));
        } else {
            assert(et1 == et0);
            assert(e1.subrange(g0, e1.len() as int) =~= e0.subrange(g0, e0.len() as int).push(
                t[i - 1],
            ));
            assert(t.subrange(0, i) =~= t.subrange(0, i - 1).push(t[i - 1]));
            assert(restore_text(e1, et1, 0, n0, 0, e1.len() as int) =~= t.subrange(0, i));
            assert(eo1.subrange(g0 + 1, eo1.len() as int) =~= eo0.subrange(
                g0 + 1,
                eo0.len() as int,
            ).push(o[i]));
            assert(o.subrange(0, i + 1) =~= o.subrange(0, i).push(o[i]));
        }
    }
}

/// Restoring the tabs of a tab-expanded view gives back the view's text,
/// original offsets and lazy marks; only earlier tab records are dropped.
pub proof fn lemma_restore_after_expand(m: SourceModel)
    requires
        m.wf(),
        expand_model(m).text.len() <= usize::MAX,
    ensures
        restore_model(expand_model(m)) == (SourceModel { tabs: seq![], ..m }),
{
    let n = m.text.len() as int;
    lemma_restore_expand_prefix(m.text, m.offsets, n);
    assert(m.text.subrange(0, n) =~= m.text);
    assert(m.offsets.subrange(0, n + 1) =~= m.offsets);
    let r = restore_model(expand_model(m));
    assert(r.text == m.text);
    assert(r.offsets == m.offsets);
}

proof fn lemma_tab_upper_past_all(tabs: Seq<Range<usize>>, end: int, k: int)
    requires
        0 <= k <= tabs.len(),
        forall|j: int| 0 <= j < tabs.len() ==> #[trigger] tabs[j].end <= end,
    ensures
        tab_upper(tabs, end, k) == tabs.len(),
    decreases tabs.len() - k,
{
    if k < tabs.len() {
        lemma_tab_upper_past_all(tabs, end, k + 1);
    }
}

/// The literal text of the whole tab-expanded view is the view's text before
/// expansion: every expansion turns back into its tab.
pub proof fn lemma_literal_after_expand(m: SourceModel)
    requires
        m.wf(),
        expand_model(m).text.len() <= usize::MAX,
    ensures
        ({
            let e = expand_model(m);
            let lo = tab_lower(e.tabs, 0, 0);
            let hi = tab_upper(e.tabs, e.text.len() as int, lo);
            restore_text(e.text, e.tabs, lo, hi, 0, e.text.len() as int) == m.text
        }),
{
    let e = expand_model(m);
    lemma_restore_after_expand(m);
    lemma_expand_prefix(m.text, m.offsets, m.text.len() as int);
    assert(tab_lower(e.tabs, 0, 0) == 0);
    lemma_tab_upper_past_all(e.tabs, e.text.len() as int, 0);
}

proof fn lemma_expand_no_tab_prefix(t: Seq<u8>, i: int)
    requires
        0 <= i <= t.len(),
    ensures
        forall|k: int| 0 <= k < expand_text(t, i).len() ==> #[trigger] expand_text(t, i)[k] != byte_tab(),
    decreases i,
{
    if i > 0 {
        lemma_expand_no_tab_prefix(t, i - 1);
        let e0 = expand_text(t, i - 1);
        let e1 = expand_text(t, i);
        if t[i - 1] == byte_tab() {
            let w = tab_width(expand_column(t, i - 1));
            assert forall|k: int| 0 <= k < e1.len() implies #[trigger] e1[k] != byte_tab() by {
                if k < e0.len() {
                    assert(e1[k] == e0[k]);
                } else {
                    assert(e1[k] == spaces(w)[k - e0.len()]);
                }
            }
        } else {
            assert forall|k: int| 0 <= k < e1.len() implies #[trigger] e1[k] != byte_tab() by {
                if k < e0.len() {
                    assert(e1[k] == e0[k]);
                }
            }
        }
    }
}

/// No tab character is left in a tab-expanded view.
pub proof fn lemma_expand_leaves_no_tab(m: SourceModel)
    ensures
        forall|k: int|
            0 <= k < expand_model(m).text.len() ==> #[trigger] expand_model(m).text[k] != byte_tab(),
{
    lemma_expand_no_tab_prefix(m.text, m.text.len() as int);
}

/// A view joined from one range holds that range's text and maps each of
/// its boundaries to the original position the parent mapped it to.
pub proof fn lemma_join_one_range(m: SourceModel, r: Range<usize>)
    requires
        m.wf(),
        r.start <= r.end <= m.text.len(),
    ensures
        select_model(m, seq![r]).text == m.text.subrange(r.start as int, r.end as int),
        select_model(m, seq![r]).offsets == m.offsets.subrange(r.start as int, r.end + 1),
        forall|k: int|
            0 <= k <= r.end - r.start ==> #[trigger] select_model(m, seq![r]).offsets[k] == m.offsets[r.start
                + k],
{
    let rs = seq![r];
    assert(rs.drop_last() =~= Seq::<Range<usize>>::empty());
    assert(rs.last() == r);
    assert(select_text(m.text, rs.drop_last()) =~= Seq::<u8>::empty());
    assert(select_text(m.text, rs) =~= m.text.subrange(r.start as int, r.end as int));
    assert(select_offsets(m.offsets, rs.drop_last()).drop_last() =~= Seq::<usize>::empty());
    assert(select_offsets(m.offsets, rs) =~= m.offsets.subrange(r.start as int, r.end + 1));
}


/// The offsets never decrease along the view.
pub open spec fn offsets_sorted(o: Seq<usize>) -> bool {
    forall|a: int, b: int| 0 <= a <= b < o.len() ==> #[trigger] o[a] <= #[trigger] o[b]
}

proof fn lemma_sorted_concat(a: Seq<usize>, b: Seq<usize>)
    requires
        offsets_sorted(a),
        offsets_sorted(b),
        a.len() == 0 || b.len() == 0 || a.last() <= b[0],
    ensures
        offsets_sorted(a + b),
{
    let c = a + b;
    assert forall|x: int, y: int| 0 <= x <= y < c.len() implies #[trigger] c[x] <= #[trigger] c[y] by {
        if y < a.len() {
            assert(c[x] == a[x] && c[y] == a[y]);
        } else if x >= a.len() {
            assert(c[x] == b[x - a.len()] && c[y] == b[y - a.len()]);
        } else {
            assert(c[x] == a[x] && c[y] == b[y - a.len()]);
            assert(a[x] <= a[a.len() - 1]);
            assert(b[0] <= b[y - a.len()]);
        }
    }
}

proof fn lemma_normalized_offsets_sorted(s: Seq<u8>, i: int)
    requires
        0 <= i <= s.len(),
        s.len() < usize::MAX,
    ensures
        offsets_sorted(normalized_offsets(s, i)),
        forall|k: int|
            0 <= k < normalized_offsets(s, i).len() ==> i <= #[trigger] normalized_offsets(s, i)[k]
                <= s.len(),
    decreases s.len() - i,
{
    if i < s.len() {
        let next = if s[i] == byte_cr() && i + 1 < s.len() && s[i + 1] == byte_lf() {
            i + 2
        } else {
            i + 1
        };
        lemma_normalized_offsets_sorted(s, next);
        let rest = normalized_offsets(s, next);
        let head = if s[i] == byte_cr() {
            seq![next as usize]
        } else if s[i] == 0 {
            seq![i as usize, i as usize, (i + 1) as usize]
        } else {
            seq![(i + 1) as usize]
        };
        assert(normalized_offsets(s, i) == head + rest);
        assert(forall|k: int| 0 <= k < head.len() ==> i <= #[trigger] head[k] <= next);
        assert(offsets_sorted(head)) by {
            if s[i] == 0 && s[i] != byte_cr() {
                assert(head == seq![i as usize, i as usize, (i + 1) as usize]);
            }
        }
        if rest.len() > 0 {
            assert(next <= rest[0]);
        }
        lemma_sorted_concat(head, rest);
        let all = head + rest;
        assert forall|k: int| 0 <= k < all.len() implies i <= #[trigger] all[k] <= s.len() by {
            if k >= head.len() {
                assert(all[k] == rest[k - head.len()]);
            }
        }
    }
}

/// A new view's offsets never decrease and stay within the input: spans it
/// gives for ranges in order are in order and inside the input.
pub proof fn lemma_new_offsets_sorted(s: Seq<u8>)
    requires
        s.len() < usize::MAX,
    ensures
        offsets_sorted(seq![0usize] + normalized_offsets(s, 0)),
        forall|k: int|
            0 <= k < (seq![0usize] + normalized_offsets(s, 0)).len() ==> #[trigger] (seq![0usize]
                + normalized_offsets(s, 0))[k] <= s.len(),
{
    lemma_normalized_offsets_sorted(s, 0);
    let o = seq![0usize] + normalized_offsets(s, 0);
    lemma_sorted_concat(seq![0usize], normalized_offsets(s, 0));
    assert forall|k: int| 0 <= k < o.len() implies #[trigger] o[k] <= s.len() by {
        if k > 0 {
            assert(o[k] == normalized_offsets(s, 0)[k - 1]);
        }
    }
}

proof fn lemma_expand_offsets_sorted(t: Seq<u8>, o: Seq<usize>, i: int)
    requires
        0 <= i < o.len(),
        offsets_sorted(o),
    ensures
        offsets_sorted(expand_offsets(t, o, i)),
        expand_offsets(t, o, i).len() > 0,
        expand_offsets(t, o, i).last() == o[i],
        forall|k: int|
            0 <= k < expand_offsets(t, o, i).len() ==> #[trigger] expand_offsets(t, o, i)[k] <= o[i],
    decreases i,
{
    if i > 0 {
        lemma_expand_offsets_sorted(t, o, i - 1);
        let prev = expand_offsets(t, o, i - 1);
        assert(o[i - 1] <= o[i]);
        if t[i - 1] == byte_tab() {
            let w = tab_width(expand_column(t, i - 1));
            let mid = Seq::new((w - 1) as nat, |k: int| o[i - 1]);
            assert(offsets_sorted(mid));
            lemma_sorted_concat(prev, mid);
            lemma_sorted_concat(prev + mid, seq![o[i]]);
            assert(expand_offsets(t, o, i) == (prev + mid).push(o[i]));
            assert((prev + mid).push(o[i]) =~= (prev + mid) + seq![o[i]]);
            let e = expand_offsets(t, o, i);
            assert forall|k: int| 0 <= k < e.len() implies #[trigger] e[k] <= o[i] by {
                assert(e[k] <= e[e.len() - 1]);
            }
        } else {
            lemma_sorted_concat(prev, seq![o[i]]);
            assert(prev.push(o[i]) =~= prev + seq![o[i]]);
            let e = expand_offsets(t, o, i);
            assert forall|k: int| 0 <= k < e.len() implies #[trigger] e[k] <= o[i] by {
                assert(e[k] <= e[e.len() - 1]);
            }
        }
    }
}

/// The spans of a fresh view are monotone and bounded: for view boundaries
/// `a <= b` of the view made from `s`, the original positions are in the
/// same order and at most the length of `s`.
pub proof fn lemma_fresh_spans_monotone(s: Seq<u8>, a: int, b: int)
    requires
        s.len() < usize::MAX,
        0 <= a <= b < (seq![0usize] + normalized_offsets(s, 0)).len(),
    ensures
        (seq![0usize] + normalized_offsets(s, 0))[a] <= (seq![0usize] + normalized_offsets(s, 0))[b] <= s.len(),
{
    lemma_new_offsets_sorted(s);
    let o = seq![0usize] + normalized_offsets(s, 0);
    assert(o[a] <= o[b]);
    assert(o[b] <= s.len());
}

/// Expanding tabs keeps offsets that never decrease, and maps the end of the
/// view to the same original position.
pub proof fn lemma_expand_keeps_offsets_sorted(m: SourceModel)
    requires
        m.wf(),
        offsets_sorted(m.offsets),
    ensures
        offsets_sorted(expand_model(m).offsets),
        expand_model(m).offsets.last() == m.offsets.last(),
{
    lemma_expand_offsets_sorted(m.text, m.offsets, m.text.len() as int);
}


proof fn lemma_subrange_sorted(o: Seq<usize>, a: int, b: int)
    requires
        offsets_sorted(o),
        0 <= a <= b <= o.len(),
    ensures
        offsets_sorted(o.subrange(a, b)),
{
    let t = o.subrange(a, b);
    assert forall|x: int, y: int| 0 <= x <= y < t.len() implies #[trigger] t[x] <= #[trigger] t[y] by {
        assert(t[x] == o[a + x] && t[y] == o[a + y]);
    }
}

/// Every range is in order and ends within `len`, and each range starts
/// where or after the previous one ended.
pub open spec fn ranges_ascending(ranges: Seq<Range<usize>>, len: int) -> bool {
    &&& forall|i: int| 0 <= i < ranges.len() ==> (#[trigger] ranges[i]).start <= ranges[i].end <= len
    &&& forall|i: int, j: int| 0 <= i < j < ranges.len() ==> #[trigger] ranges[i].end <= #[trigger] ranges[j].start
}

proof fn lemma_select_offsets_sorted(o: Seq<usize>, ranges: Seq<Range<usize>>)
    requires
        offsets_sorted(o),
        ranges_ascending(ranges, o.len() - 1),
    ensures
        offsets_sorted(select_offsets(o, ranges)),
        select_offsets(o, ranges).len() > 0,
        ranges.len() > 0 ==> select_offsets(o, ranges).last() == o[ranges.last().end as int],
    decreases ranges.len(),
{
    if ranges.len() > 0 {
        let r = ranges.last();
        let init = ranges.drop_last();
        assert forall|i: int| 0 <= i < init.len() implies (#[trigger] init[i]).start <= init[i].end <= o.len() - 1 by {
            assert(init[i] == ranges[i]);
        }
        assert forall|i: int, j: int| 0 <= i < j < init.len() implies #[trigger] init[i].end <= #[trigger] init[j].start by {
            assert(init[i] == ranges[i] && init[j] == ranges[j]);
        }
        lemma_select_offsets_sorted(o, init);
        let prev = select_offsets(o, init);
        let a = prev.drop_last();
        let b = o.subrange(r.start as int, r.end + 1);
        assert(ranges[ranges.len() - 1] == r);
        lemma_subrange_sorted(o, r.start as int, r.end + 1);
        assert(offsets_sorted(a)) by {
            lemma_subrange_sorted(prev, 0, prev.len() - 1);
            assert(a =~= prev.subrange(0, prev.len() - 1));
        }
        if a.len() > 0 {
            assert(init.len() > 0);
            let q = init.last();
            assert(init[init.len() - 1] == ranges[init.len() - 1]);
            assert(q.end <= r.start);
            assert(a.last() <= prev.last());
            assert(o[q.end as int] <= o[r.start as int]);
            assert(b[0] == o[r.start as int]);
        }
        lemma_sorted_concat(a, b);
        assert(select_offsets(o, ranges) == a + b);
    }
}

/// Joining ranges that come one after another keeps offsets that never
/// decrease, so the joined view's spans stay in order too.
pub proof fn lemma_join_keeps_offsets_sorted(m: SourceModel, ranges: Seq<Range<usize>>)
    requires
        m.wf(),
        offsets_sorted(m.offsets),
        ranges_ascending(ranges, m.text.len() as int),
    ensures
        offsets_sorted(select_model(m, ranges).offsets),
{
    lemma_select_offsets_sorted(m.offsets, ranges);
}

proof fn lemma_restore_offsets_sorted(o: Seq<usize>, tabs: Seq<Range<usize>>, k: int)
    requires
        offsets_sorted(o),
        0 <= k <= tabs.len(),
        o.len() > 0,
        forall|i: int| 0 <= i < tabs.len() ==> (#[trigger] tabs[i]).start < tabs[i].end < o.len(),
        forall|i: int, j: int| 0 <= i < j < tabs.len() ==> #[trigger] tabs[i].end <= #[trigger] tabs[j].start,
    ensures
        offsets_sorted(restore_offsets_prefix(o, tabs, k)),
        restore_offsets_prefix(o, tabs, k).len() > 0,
        restore_offsets_prefix(o, tabs, k).last() == o[gap_start(tabs, 0, k, 0)],
    decreases k,
{
    if k > 0 {
        lemma_restore_offsets_sorted(o, tabs, k - 1);
        let prev = restore_offsets_prefix(o, tabs, k - 1);
        let g = gap_start(tabs, 0, k - 1, 0);
        let t = tabs[k - 1];
        assert(0 <= g <= t.start) by {
            if k - 1 > 0 {
                assert(tabs[k - 2].end <= tabs[k - 1].start);
            }
        }
        let mid = o.subrange(g + 1, t.start + 1);
        lemma_subrange_sorted(o, g + 1, t.start + 1);
        if mid.len() > 0 {
            assert(mid[0] == o[g + 1]);
            assert(o[g] <= o[g + 1]);
        }
        lemma_sorted_concat(prev, mid);
        let pm = prev + mid;
        assert(pm.last() <= o[t.end as int]) by {
            if mid.len() > 0 {
                assert(pm.last() == o[t.start as int]);
            } else {
                assert(pm.last() == o[g]);
            }
            assert(o[t.start as int] <= o[t.end as int]);
            assert(o[g] <= o[t.end as int]);
        }
        lemma_sorted_concat(pm, seq![o[t.end as int]]);
        assert(pm.push(o[t.end as int]) =~= pm + seq![o[t.end as int]]);
        assert(restore_offsets_prefix(o, tabs, k) == pm.push(o[t.end as int]));
        assert(gap_start(tabs, 0, k, 0) == t.end);
    }
}

/// Restoring tabs keeps offsets that never decrease.
pub proof fn lemma_restore_keeps_offsets_sorted(m: SourceModel)
    requires
        m.wf(),
        offsets_sorted(m.offsets),
    ensures
        offsets_sorted(restore_model(m).offsets),
{
    let n = m.tabs.len() as int;
    let o = m.offsets;
    assert forall|i: int| 0 <= i < m.tabs.len() implies (#[trigger] m.tabs[i]).start < m.tabs[i].end < o.len() by {
        assert(tab_in_text(m.text, m.tabs[i]));
    }
    lemma_restore_offsets_sorted(o, m.tabs, n);
    let prefix = restore_offsets_prefix(o, m.tabs, n);
    let last = gap_start(m.tabs, 0, n, 0);
    assert(0 <= last < o.len()) by {
        if n > 0 {
            assert(tab_in_text(m.text, m.tabs[n - 1]));
        }
    }
    let tail = o.subrange(last + 1, o.len() as int);
    lemma_subrange_sorted(o, last + 1, o.len() as int);
    if tail.len() > 0 {
        assert(tail[0] == o[last + 1]);
        assert(o[last] <= o[last + 1]);
    }
    lemma_sorted_concat(prefix, tail);
}

} // verus!
