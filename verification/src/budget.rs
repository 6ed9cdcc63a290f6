//! Processing limits of one parse and the budget that enforces them: work
//! spent, tokens made and nesting depth.
use crate::error::ParseError;
use vstd::prelude::*;

verus! {

/// Limits on one parse.
#[derive(Debug, Clone, Copy, PartialEq, Eq, Structural)]
pub struct Limits {
    /// Most bytes of input.
    pub input_bytes: usize,
    /// Most units of work.
    pub work: usize,
    /// Most tokens.
    pub tokens: usize,
    /// Most nodes in the result.
    pub nodes: usize,
    /// Deepest nesting.
    pub depth: usize,
}

/// What one parse has used of its limits.
pub struct Budget {
    limits: Limits,
    work: usize,
    tokens: usize,
}

impl Budget {
    /// The limits this budget enforces.
    pub closed spec fn spec_limits(&self) -> Limits {
        self.limits
    }

    /// Work spent so far.
    pub closed spec fn spec_work(&self) -> nat {
        self.work as nat
    }

    /// Tokens made so far.
    pub closed spec fn spec_tokens(&self) -> nat {
        self.tokens as nat
    }

    /// The limits this budget enforces.
    pub fn limits(&self) -> (r: Limits)
        ensures
            r == self.spec_limits(),
    {
        self.limits
    }

    /// Nothing used yet of `limits`.
    pub fn new(limits: Limits) -> (r: Self)
        ensures
            r.spec_limits() == limits,
            r.spec_work() == 0,
            r.spec_tokens() == 0,
    {
        Budget { limits, work: 0, tokens: 0 }
    }

    /// Spends `n` units of work: fails with the `work` limit, spending
    /// nothing, when the total would pass the limit.
    pub fn spend(&mut self, n: usize) -> (r: Result<(), ParseError>)
        ensures
            final(self).spec_limits() == old(self).spec_limits(),
            final(self).spec_tokens() == old(self).spec_tokens(),
            if old(self).spec_work() + n <= old(self).spec_limits().work {
                r is Ok && final(self).spec_work() == old(self).spec_work() + n
            } else {
                r == Err::<(), ParseError>(ParseError::Limit { limit: "work" })
                    && final(self).spec_work() == old(self).spec_work()
            },
    {
        if n > self.limits.work || self.work > self.limits.work - n {
            return Err(ParseError::limit("work"));
        }
        self.work = self.work + n;
        Ok(())
    }

    /// Makes one more token: fails with the `tokens` limit, making none,
    /// when that would pass the limit.
    pub fn token(&mut self) -> (r: Result<(), ParseError>)
        ensures
            final(self).spec_limits() == old(self).spec_limits(),
            final(self).spec_work() == old(self).spec_work(),
            if old(self).spec_tokens() + 1 <= old(self).spec_limits().tokens {
                r is Ok && final(self).spec_tokens() == old(self).spec_tokens() + 1
            } else {
                r == Err::<(), ParseError>(ParseError::Limit { limit: "tokens" })
                    && final(self).spec_tokens() == old(self).spec_tokens()
            },
    {
        if self.tokens >= self.limits.tokens {
            return Err(ParseError::limit("tokens"));
        }
        self.tokens = self.tokens + 1;
        Ok(())
    }

    /// Checks a nesting depth against the `depth` limit.
    pub fn depth(&self, depth: usize) -> (r: Result<(), ParseError>)
        ensures
            if depth <= self.spec_limits().depth {
                r is Ok
            } else {
                r == Err::<(), ParseError>(ParseError::Limit { limit: "depth" })
            },
    {
        if depth > self.limits.depth {
            return Err(ParseError::limit("depth"));
        }
        Ok(())
    }
}

} // verus!
