//! UTF-8 facts used by the source views: which byte ranges of valid text are
//! themselves valid text, and where characters start.
use vstd::prelude::*;
use vstd::string::StringSliceAdditionalSpecFns;
use vstd::utf8::*;

verus! {

broadcast use vstd::seq::group_seq_axioms;

proof fn lemma_ascii_codepoint(b: u8)
    by (bit_vector)
    requires
        b < 0x80,
    ensures
        (b & 0x7f) as u32 == b as u32,
{
}

/// A single ASCII byte is valid UTF-8.
pub proof fn lemma_ascii_byte_valid(b: u8)
    requires
        b < 0x80,
    ensures
        valid_utf8(seq![b]),
{
    reveal_with_fuel(valid_utf8, 2);
    lemma_ascii_codepoint(b);
    let s = seq![b];
    assert(pop_first_scalar(s) =~= Seq::<u8>::empty());
}

/// A sequence of ASCII bytes is valid UTF-8.
pub proof fn lemma_ascii_seq_valid(s: Seq<u8>)
    requires
        forall|i: int| 0 <= i < s.len() ==> #[trigger] s[i] < 0x80,
    ensures
        valid_utf8(s),
    decreases s.len(),
{
    if s.len() > 0 {
        lemma_ascii_byte_valid(s[0]);
        lemma_ascii_seq_valid(s.drop_first());
        valid_utf8_concat(seq![s[0]], s.drop_first());
        assert(seq![s[0]] + s.drop_first() =~= s);
    }
}

proof fn lemma_replacement_codepoint()
    by (bit_vector)
    ensures
        (((0xefu8 & 0x0f) as u32) << 12u32) | (((0xbfu8 & 0x3f) as u32) << 6u32) | ((0xbdu8
            & 0x3f) as u32) == 0xfffdu32,
{
}

/// The three-byte encoding of U+FFFD is valid UTF-8.
pub proof fn lemma_replacement_valid()
    ensures
        valid_utf8(seq![0xefu8, 0xbfu8, 0xbdu8]),
{
    reveal_with_fuel(valid_utf8, 2);
    lemma_replacement_codepoint();
    let s = seq![0xefu8, 0xbfu8, 0xbdu8];
    assert(decode_first_codepoint(s) == 0xfffdu32);
    assert(pop_first_scalar(s) =~= Seq::<u8>::empty());
}

/// The first scalar of a non-empty valid sequence is valid on its own, and the
/// rest of the sequence is valid too.
pub proof fn lemma_first_scalar_split(s: Seq<u8>)
    requires
        valid_utf8(s),
        s.len() > 0,
    ensures
        1 <= length_of_first_scalar(s) <= 4,
        length_of_first_scalar(s) <= s.len(),
        valid_utf8(s.subrange(0, length_of_first_scalar(s))),
        valid_utf8(s.subrange(length_of_first_scalar(s), s.len() as int)),
        forall|k: int|
            1 <= k < length_of_first_scalar(s) ==> #[trigger] is_continuation_byte(s[k]),
        !is_continuation_byte(s[0]),
        length_of_first_scalar(s) == 1 <==> s[0] < 0x80,
{
    reveal_with_fuel(valid_utf8, 2);
    let n = length_of_first_scalar(s);
    let p = s.subrange(0, n);
    assert(pop_first_scalar(p) =~= Seq::<u8>::empty());
    assert(valid_first_scalar(p));
}

/// Sequences of valid text joined end to end are valid, and the join point is a
/// character boundary.
pub proof fn lemma_concat_boundary(a: Seq<u8>, b: Seq<u8>)
    requires
        valid_utf8(a),
        valid_utf8(b),
    ensures
        valid_utf8(a + b),
        is_char_boundary(a + b, a.len() as int),
{
    valid_utf8_concat(a, b);
    let ab = a + b;
    if b.len() == 0 {
        assert(ab =~= a);
        is_char_boundary_start_end_of_seq(a);
    } else {
        lemma_first_scalar_split(b);
        assert(ab[a.len() as int] == b[0]);
        is_char_boundary_iff_not_is_continuation_byte(ab, a.len() as int);
    }
}

/// A character boundary of valid text lies within the text.
pub proof fn lemma_boundary_in_bounds(t: Seq<u8>, i: int)
    requires
        valid_utf8(t),
        is_char_boundary(t, i),
    ensures
        0 <= i <= t.len(),
    decreases t.len(),
{
    if i != 0 && t.len() > 0 && 0 < i <= t.len() {
    } else if i != 0 {
        if t.len() > 0 {
            lemma_first_scalar_split(t);
            let rest = pop_first_scalar(t);
            lemma_boundary_in_bounds(rest, i - length_of_first_scalar(t));
        }
    }
}

/// In valid text, an index is a character boundary exactly when it is the end
/// of the text or the byte there is not a continuation byte.
pub proof fn lemma_boundary_iff(t: Seq<u8>, i: int)
    requires
        valid_utf8(t),
        0 <= i <= t.len(),
    ensures
        is_char_boundary(t, i) <==> (i == t.len() || !is_continuation_byte(t[i])),
{
    if i == t.len() {
        is_char_boundary_start_end_of_seq(t);
    } else {
        is_char_boundary_iff_not_is_continuation_byte(t, i);
    }
}

/// The bytes of valid text between two character boundaries are valid text.
pub proof fn lemma_valid_between(t: Seq<u8>, a: int, b: int)
    requires
        valid_utf8(t),
        0 <= a <= b <= t.len(),
        is_char_boundary(t, a),
        is_char_boundary(t, b),
    ensures
        valid_utf8(t.subrange(a, b)),
{
    valid_utf8_split(t, b);
    let p = t.subrange(0, b);
    lemma_boundary_iff(t, a);
    lemma_boundary_iff(p, a);
    valid_utf8_split(p, a);
    assert(p.subrange(a, b) =~= t.subrange(a, b));
}

/// An ASCII byte of valid text starts a character, and so does the byte after it.
pub proof fn lemma_ascii_boundaries(t: Seq<u8>, k: int)
    requires
        valid_utf8(t),
        0 <= k < t.len(),
        t[k] < 0x80,
    ensures
        is_char_boundary(t, k),
        is_char_boundary(t, k + 1),
{
    lemma_boundary_iff(t, k);
    valid_utf8_split(t, k);
    let rest = t.subrange(k, t.len() as int);
    lemma_first_scalar_split(rest);
    let pre = t.subrange(0, k);
    lemma_ascii_byte_valid(t[k]);
    valid_utf8_concat(pre, seq![t[k]]);
    assert(pre + seq![t[k]] =~= t.subrange(0, k + 1));
    assert(rest.subrange(1, rest.len() as int) =~= t.subrange(k + 1, t.len() as int));
    lemma_concat_boundary(t.subrange(0, k + 1), t.subrange(k + 1, t.len() as int));
    assert(t.subrange(0, k + 1) + t.subrange(k + 1, t.len() as int) =~= t);
}

/// The encoding of two character sequences one after the other is the
/// concatenation of their encodings.
pub proof fn lemma_encode_concat(a: Seq<char>, b: Seq<char>)
    ensures
        encode_utf8(a + b) == encode_utf8(a) + encode_utf8(b),
    decreases a.len(),
{
    if a.len() == 0 {
        assert(a + b =~= b);
        assert(encode_utf8(a) =~= Seq::<u8>::empty());
        assert(encode_utf8(a) + encode_utf8(b) =~= encode_utf8(b));
    } else {
        assert((a + b).drop_first() =~= a.drop_first() + b);
        assert((a + b)[0] == a[0]);
        lemma_encode_concat(a.drop_first(), b);
        assert(encode_utf8(a + b) =~= encode_utf8(a) + encode_utf8(b));
    }
}

/// Converts bytes known to be valid UTF-8 into an owned string.
///
/// Calls `String::from_utf8`, which returns the string holding exactly those
/// bytes when they are valid UTF-8 and an error otherwise.
#[verifier::external_body]
pub(crate) fn string_from_bytes(bytes: Vec<u8>) -> (r: Option<String>)
    ensures
        r is Some <==> valid_utf8(bytes@),
        r matches Some(s) ==> encode_utf8(s@) == bytes@,
{
    String::from_utf8(bytes).ok()
}

/// Whether two strings hold the same characters, compared byte by byte.
pub(crate) fn str_eq(a: &str, b: &str) -> (r: bool)
    ensures
        r == (a@ == b@),
{
    let x = a.as_bytes();
    let y = b.as_bytes();
    proof {
        encode_utf8_decode_utf8(a@);
        encode_utf8_decode_utf8(b@);
    }
    if x.len() != y.len() {
        return false;
    }
    let mut i: usize = 0;
    while i < x.len()
        invariant
            x@.len() == y@.len(),
            x@ == a.spec_bytes(),
            y@ == b.spec_bytes(),
            0 <= i <= x@.len(),
            forall|k: int| 0 <= k < i ==> x@[k] == y@[k],
        decreases x@.len() - i,
    {
        if x[i] != y[i] {
            assert(x@[i as int] != y@[i as int]);
            return false;
        }
        i += 1;
    }
    assert(x@ =~= y@);
    true
}

} // verus!
