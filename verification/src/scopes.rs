//! Finding a name given twice in one scope. Scopes are numbered by the caller,
//! one number per parent instance, with `None` for the root scope.
use vstd::prelude::*;
use crate::text::str_eq;

verus! {

/// A declaration as name checking sees it: the number of its parent scope
/// (`None` at the root) and its name, if it has one.
pub type ScopedName<'a> = (Option<usize>, Option<&'a str>);

/// Entry `j` has a name, and an earlier entry has the same scope and name.
pub open spec fn repeats_earlier(entries: Seq<ScopedName>, j: int) -> bool {
    &&& entries[j].1 is Some
    &&& exists|i: int|
        0 <= i < j && (#[trigger] entries[i]).0 == entries[j].0 && entries[i].1 is Some
            && entries[i].1.unwrap()@ == entries[j].1.unwrap()@
}

/// The first entry whose scope and name an earlier entry already has, if any.
/// Unnamed entries never repeat.
pub fn first_repeated_name(entries: &[ScopedName]) -> (r: Option<usize>)
    ensures
        match r {
            Some(j) => j < entries@.len() && repeats_earlier(entries@, j as int) && forall|i: int|
                0 <= i < j ==> !#[trigger] repeats_earlier(entries@, i),
            None => forall|i: int| 0 <= i < entries@.len() ==> !#[trigger] repeats_earlier(entries@, i),
        },
{
    let mut j: usize = 0;
    while j < entries.len()
        invariant
            0 <= j <= entries@.len(),
            forall|i: int| 0 <= i < j ==> !#[trigger] repeats_earlier(entries@, i),
        decreases entries@.len() - j,
    {
        let (scope, name) = entries[j];
        if let Some(name) = name {
            let mut i: usize = 0;
            while i < j
                invariant
                    0 <= i <= j < entries@.len(),
                    entries@[j as int] == (scope, Some(name)),
                    forall|h: int| 0 <= h < j ==> !#[trigger] repeats_earlier(entries@, h),
                    forall|h: int|
                        0 <= h < i ==> !((#[trigger] entries@[h]).0 == scope && entries@[h].1 is Some
                            && entries@[h].1.unwrap()@ == name@),
                decreases j - i,
            {
                let (other_scope, other_name) = entries[i];
                let same_name = match other_name {
                    Some(other) => str_eq(other, name),
                    None => false,
                };
                if same_name && other_scope == scope {
                    proof {
                        assert(repeats_earlier(entries@, j as int));
                    }
                    return Some(j);
                }
                i += 1;
            }
        }
        j += 1;
    }
    None
}

} // verus!
