//! The state of scanning one inline view: where the scan stands, the tokens
//! made so far and the open brackets. Every token made counts against the
//! token limit; literal text joins a text token right before it.
use crate::budget::Budget;
use crate::error::ParseError;
use crate::inline::{Bracket, TextInput};
use crate::source::SourceView;
use crate::tokens::{token_view, token_views, KindView, Token, TokenKind};
use vstd::prelude::*;
use vstd::string::{StringExecFns, StringSliceAdditionalSpecFns};
use vstd::utf8::{decode_utf8, encode_utf8_decode_utf8, is_char_boundary};

verus! {

broadcast use vstd::seq::group_seq_axioms;

/// Where scanning an inline view stands.
pub struct State<'a, O> {
    pub source: &'a SourceView,
    pub position: usize,
    pub tokens: Vec<Token<O>>,
    pub brackets: Vec<Bracket>,
}

/// The characters of `t[a..b]`.
pub open spec fn piece(t: Seq<u8>, a: int, b: int) -> Seq<char> {
    decode_utf8(t.subrange(a, b))
}

impl<'a, O> State<'a, O> {
    /// A scan of `source` from its start, with no tokens and no brackets.
    pub fn new(source: &'a SourceView) -> (r: Self)
        ensures
            r.source == source,
            r.position == 0,
            r.tokens@.len() == 0,
            r.brackets@.len() == 0,
    {
        State { source, position: 0, tokens: Vec::new(), brackets: Vec::new() }
    }

    /// Makes a token: fails with the `tokens` limit, making none, when that
    /// would pass the limit.
    pub fn push(&mut self, budget: &mut Budget, start: usize, end: usize, kind: TokenKind<O>) -> (r: Result<
        (),
        ParseError,
    >)
        ensures
            final(self).source == old(self).source,
            final(self).position == old(self).position,
            final(self).brackets == old(self).brackets,
            final(budget).spec_limits() == old(budget).spec_limits(),
            final(budget).spec_work() == old(budget).spec_work(),
            if old(budget).spec_tokens() + 1 <= old(budget).spec_limits().tokens {
                &&& r is Ok
                &&& final(budget).spec_tokens() == old(budget).spec_tokens() + 1
                &&& final(self).tokens@ == old(self).tokens@.push(Token { start, end, kind })
            } else {
                &&& r == Err::<(), ParseError>(ParseError::Limit { limit: "tokens" })
                &&& final(budget).spec_tokens() == old(budget).spec_tokens()
                &&& final(self).tokens@ == old(self).tokens@
            },
    {
        match budget.token() {
            Ok(()) => {},
            Err(e) => {
                return Err(e);
            },
        }
        self.tokens.push(Token { start, end, kind });
        Ok(())
    }

    /// Adds the text from the scan position to `end` as literal text: it
    /// joins a text token right before it, which then ends at `end`;
    /// otherwise it becomes a new text token, made as [`State::push`] makes
    /// one.
    pub fn literal(&mut self, budget: &mut Budget, end: usize) -> (r: Result<(), ParseError>)
        requires
            old(self).source.wf(),
            old(self).position <= end,
            is_char_boundary(old(self).source@.text, old(self).position as int),
            is_char_boundary(old(self).source@.text, end as int),
        ensures
            final(self).source == old(self).source,
            final(self).position == old(self).position,
            final(self).brackets == old(self).brackets,
            final(budget).spec_limits() == old(budget).spec_limits(),
            final(budget).spec_work() == old(budget).spec_work(),
            ({
                let v = piece(old(self).source@.text, old(self).position as int, end as int);
                let before = token_views(old(self).tokens@);
                if before.len() > 0 && before.last().2 is Text {
                    &&& r is Ok
                    &&& final(budget).spec_tokens() == old(budget).spec_tokens()
                    &&& token_views(final(self).tokens@) == before.drop_last().push(
                        (before.last().0, end, KindView::Text(before.last().2->Text_0 + v)),
                    )
                } else if old(budget).spec_tokens() + 1 <= old(budget).spec_limits().tokens {
                    &&& r is Ok
                    &&& final(budget).spec_tokens() == old(budget).spec_tokens() + 1
                    &&& token_views(final(self).tokens@) == before.push(
                        (old(self).position, end, KindView::Text(v)),
                    )
                } else {
                    &&& r == Err::<(), ParseError>(ParseError::Limit { limit: "tokens" })
                    &&& final(budget).spec_tokens() == old(budget).spec_tokens()
                    &&& final(self).tokens@ == old(self).tokens@
                }
            }),
    {
        let input = TextInput { source: self.source, range: self.position..end, after_decoded_text: false };
        let value = input.text();
        proof {
            encode_utf8_decode_utf8(value@);
        }
        let ghost v = piece(self.source@.text, self.position as int, end as int);
        assert(value@ == v);
        let ghost before = token_views(self.tokens@);
        let joins = match self.tokens.last() {
            Some(last) => match &last.kind {
                TokenKind::Text(_) => true,
                _ => false,
            },
            None => false,
        };
        if joins {
            let last = self.tokens.pop().unwrap();
            proof {
                assert(token_views(self.tokens@) =~= before.drop_last());
                assert(before.last() == token_view(last));
            }
            let Token { start, end: _, kind } = last;
            match kind {
                TokenKind::Text(previous) => {
                    let mut text = previous;
                    text.append(value);
                    self.tokens.push(Token { start, end, kind: TokenKind::Text(text) });
                    proof {
                        assert(token_views(self.tokens@) =~= before.drop_last().push(
                            token_view(Token { start, end, kind: TokenKind::<O>::Text(text) }),
                        ));
                    }
                },
                _ => {},
            }
            Ok(())
        } else {
            let position = self.position;
            let r = self.push(budget, position, end, TokenKind::Text(value.to_string()));
            proof {
                if r is Ok {
                    assert(token_views(self.tokens@) =~= before.push(token_views(self.tokens@).last()));
                }
            }
            r
        }
    }
}

} // verus!
