//! Output budgets of a render: a piece of rendered output stays within
//! `MAX_OUTPUT_BYTES`, and one render appends at most `MAX_RENDER_WORK` bytes
//! in all, counting the nested output that handlers build and append again.
use crate::text::lemma_encode_concat;
use vstd::prelude::*;
use vstd::string::{StringExecFns, StringSliceAdditionalSpecFns};
use vstd::utf8::encode_utf8;

verus! {

/// Most bytes one piece of rendered output may hold.
pub const MAX_OUTPUT_BYTES: usize = 1_048_576;

/// Most bytes one render may append in all.
pub const MAX_RENDER_WORK: usize = 8_388_608;

/// The state of one render that handlers append their output through.
pub struct Context {
    work: usize,
}

impl Context {
    /// Bytes appended so far in this render.
    pub closed spec fn spec_work(&self) -> nat {
        self.work as nat
    }

    /// A render that has appended nothing yet.
    pub fn new() -> (r: Self)
        ensures
            r.spec_work() == 0,
    {
        Context { work: 0 }
    }

    /// Appends `value` to `output`, unless `output` would then exceed
    /// `MAX_OUTPUT_BYTES` or the render's appended bytes would exceed
    /// `MAX_RENDER_WORK`; then nothing changes and the error is
    /// `resource_limit`.
    pub fn append(&mut self, output: &mut String, value: &str) -> (r: Result<(), &'static str>)
        ensures
            ({
                let len = encode_utf8(value@).len();
                if encode_utf8(old(output)@).len() + len > MAX_OUTPUT_BYTES || old(self).spec_work()
                    + len > MAX_RENDER_WORK {
                    &&& r == Err::<(), &'static str>("resource_limit")
                    &&& final(output)@ == old(output)@
                    &&& final(self).spec_work() == old(self).spec_work()
                } else {
                    &&& r is Ok
                    &&& final(output)@ == old(output)@ + value@
                    &&& final(self).spec_work() == old(self).spec_work() + len
                }
            }),
            encode_utf8(old(output)@).len() <= MAX_OUTPUT_BYTES ==> encode_utf8(final(output)@).len()
                <= MAX_OUTPUT_BYTES,
            old(self).spec_work() <= MAX_RENDER_WORK ==> final(self).spec_work() <= MAX_RENDER_WORK,
    {
        let len = value.as_bytes().len();
        let work = self.work.saturating_add(len);
        if output.as_str().as_bytes().len().saturating_add(len) > MAX_OUTPUT_BYTES || work > MAX_RENDER_WORK {
            return Err("resource_limit");
        }
        self.work = work;
        let ghost before = output@;
        output.append(value);
        proof {
            lemma_encode_concat(before, value@);
        }
        Ok(())
    }
}

} // verus!
