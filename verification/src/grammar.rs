//! Dispatch of inline rules by the byte at the current position: each byte
//! lists, in rule order, the inline rules whose markers are empty or contain
//! it.
use vstd::prelude::*;

verus! {

/// Rule `k` is tried at byte `c`: its markers are empty or contain `c`.
pub open spec fn tried_at(markers: Seq<Seq<u8>>, k: int, c: u8) -> bool {
    markers[k].len() == 0 || markers[k].contains(c)
}

/// The rules among the first `n` tried at byte `c`, in rule order.
pub open spec fn candidates(markers: Seq<Seq<u8>>, n: int, c: u8) -> Seq<usize>
    decreases n,
{
    if n <= 0 {
        seq![]
    } else if tried_at(markers, n - 1, c) {
        candidates(markers, n - 1, c).push((n - 1) as usize)
    } else {
        candidates(markers, n - 1, c)
    }
}

/// Whether `c` is among `markers`.
fn has_marker(markers: &[u8], c: u8) -> (r: bool)
    ensures
        r == markers@.contains(c),
{
    let mut i: usize = 0;
    while i < markers.len()
        invariant
            0 <= i <= markers@.len(),
            forall|j: int| 0 <= j < i ==> markers@[j] != c,
        decreases markers@.len() - i,
    {
        if markers[i] == c {
            assert(markers@[i as int] == c);
            return true;
        }
        i += 1;
    }
    false
}

/// For every byte value, the inline rules tried at it, by the rules'
/// markers in rule order.
pub fn dispatch(markers: &[&[u8]]) -> (r: Vec<Vec<usize>>)
    ensures
        r@.len() == 256,
        forall|c: int|
            0 <= c < 256 ==> (#[trigger] r@[c])@ == candidates(
                markers@.map_values(|m: &[u8]| m@),
                markers@.len() as int,
                c as u8,
            ),
{
    let ghost ms = markers@.map_values(|m: &[u8]| m@);
    let mut table: Vec<Vec<usize>> = Vec::new();
    let mut c: usize = 0;
    while c < 256
        invariant
            0 <= c <= 256,
            ms == markers@.map_values(|m: &[u8]| m@),
            table@.len() == c,
            forall|b: int| 0 <= b < c ==> (#[trigger] table@[b])@ == candidates(ms, markers@.len() as int, b as u8),
        decreases 256 - c,
    {
        let byte = c as u8;
        let mut list: Vec<usize> = Vec::new();
        let mut k: usize = 0;
        while k < markers.len()
            invariant
                0 <= k <= markers@.len(),
                ms == markers@.map_values(|m: &[u8]| m@),
                list@ == candidates(ms, k as int, byte),
            decreases markers@.len() - k,
        {
            let m = markers[k];
            if m.len() == 0 || has_marker(m, byte) {
                list.push(k);
            }
            assert(ms[k as int] == m@);
            k += 1;
        }
        table.push(list);
        proof {
            assert(byte == c as u8);
        }
        c += 1;
    }
    table
}

} // verus!
