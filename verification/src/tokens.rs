//! Inline tokens before text rules run: markers left unpaired become text,
//! empty tokens go, and text tokens that touch are joined into one.
use vstd::prelude::*;
use vstd::string::StringExecFns;

verus! {

/// A token of inline parsing: a byte range of the view and what it holds.
pub struct Token<O> {
    pub start: usize,
    pub end: usize,
    pub kind: TokenKind<O>,
}

/// What a token holds: text, a delimiter marker left unpaired, nothing, or
/// another token (an atom, an opener or a closer), which joining passes
/// through unchanged.
pub enum TokenKind<O> {
    Text(String),
    Marker(String),
    Empty,
    Other(O),
}

/// A token's kind with its text as characters.
pub enum KindView<O> {
    Text(Seq<char>),
    Marker(Seq<char>),
    Empty,
    Other(O),
}

/// A token as its start, end and kind.
pub type TokenView<O> = (usize, usize, KindView<O>);

/// The token's start, end and kind.
pub open spec fn token_view<O>(t: Token<O>) -> TokenView<O> {
    (
        t.start,
        t.end,
        match t.kind {
            TokenKind::Text(v) => KindView::Text(v@),
            TokenKind::Marker(v) => KindView::Marker(v@),
            TokenKind::Empty => KindView::Empty,
            TokenKind::Other(o) => KindView::Other(o),
        },
    )
}

/// The views of a sequence of tokens.
pub open spec fn token_views<O>(ts: Seq<Token<O>>) -> Seq<TokenView<O>> {
    ts.map_values(|t: Token<O>| token_view(t))
}

/// The tokens after joining: a marker becomes text, an empty token is
/// dropped, and a text token that starts where a text token before it ended
/// is appended to it.
pub open spec fn joined<O>(ts: Seq<TokenView<O>>) -> Seq<TokenView<O>>
    decreases ts.len(),
{
    if ts.len() == 0 {
        seq![]
    } else {
        let prev = joined(ts.drop_last());
        let t = ts.last();
        let kind = match t.2 {
            KindView::Marker(v) => KindView::Text(v),
            other => other,
        };
        match kind {
            KindView::Empty => prev,
            KindView::Text(v) => if prev.len() > 0 && prev.last().2 is Text && prev.last().1 == t.0 {
                prev.drop_last().push((prev.last().0, t.1, KindView::Text(prev.last().2->Text_0 + v)))
            } else {
                prev.push((t.0, t.1, KindView::Text(v)))
            },
            _ => prev.push((t.0, t.1, kind)),
        }
    }
}

/// The characters of the text and marker tokens, in order.
pub open spec fn token_text<O>(ts: Seq<TokenView<O>>) -> Seq<char>
    decreases ts.len(),
{
    if ts.len() == 0 {
        seq![]
    } else {
        token_text(ts.drop_last()) + match ts.last().2 {
            KindView::Text(v) => v,
            KindView::Marker(v) => v,
            _ => seq![],
        }
    }
}

/// The tokens that are neither text, markers nor empty, in order.
pub open spec fn other_tokens<O>(ts: Seq<TokenView<O>>) -> Seq<TokenView<O>>
    decreases ts.len(),
{
    if ts.len() == 0 {
        seq![]
    } else if ts.last().2 is Other {
        other_tokens(ts.drop_last()).push(ts.last())
    } else {
        other_tokens(ts.drop_last())
    }
}

/// Tokens `k` and `k + 1` are text tokens that touch.
pub open spec fn touching_text<O>(ts: Seq<TokenView<O>>, k: int) -> bool {
    &&& ts[k].2 is Text
    &&& ts[k + 1].2 is Text
    &&& ts[k].1 == ts[k + 1].0
}

proof fn lemma_token_text_push<O>(s: Seq<TokenView<O>>, x: TokenView<O>)
    ensures
        token_text(s.push(x)) == token_text(s) + match x.2 {
            KindView::Text(v) => v,
            KindView::Marker(v) => v,
            _ => seq![],
        },
{
    assert(s.push(x).drop_last() =~= s);
}

/// What joining does, whatever precedes a token: no marker and no empty
/// token is left, no two text tokens that touch are left side by side, the
/// text of the text and marker tokens is kept in order, and the other tokens
/// are kept unchanged in order.
pub proof fn lemma_joined<O>(ts: Seq<TokenView<O>>)
    ensures
        forall|k: int| 0 <= k < joined(ts).len() ==> (#[trigger] joined(ts)[k]).2 !is Marker,
        forall|k: int| 0 <= k < joined(ts).len() ==> (#[trigger] joined(ts)[k]).2 !is Empty,
        other_tokens(joined(ts)) == other_tokens(ts),
        forall|k: int| 0 <= k < joined(ts).len() - 1 ==> !#[trigger] touching_text(joined(ts), k),
        token_text(joined(ts)) == token_text(ts),
    decreases ts.len(),
{
    if ts.len() > 0 {
        let init = ts.drop_last();
        lemma_joined(init);
        let prev = joined(init);
        let t = ts.last();
        lemma_token_text_push(init, t);
        assert(init.push(t) =~= ts);
        assert(ts.drop_last() =~= init);
        let kind = match t.2 {
            KindView::Marker(v) => KindView::Text(v),
            other => other,
        };
        match kind {
            KindView::Empty => {},
            KindView::Text(v) => {
                if prev.len() > 0 && prev.last().2 is Text && prev.last().1 == t.0 {
                    let last = prev.last();
                    let merged = (last.0, t.1, KindView::Text(last.2->Text_0 + v));
                    let d = prev.drop_last();
                    assert(d.push(last) =~= prev);
                    lemma_token_text_push(d, last);
                    lemma_token_text_push(d, merged);
                    let r = d.push(merged);
                    assert(r == joined(ts));
                    assert(r.drop_last() =~= d);
                    assert(prev.drop_last() =~= d);
                    assert forall|k: int| 0 <= k < r.len() implies (#[trigger] r[k]).2 !is Marker && r[k].2 !is Empty by {
                        if k < d.len() {
                            assert(r[k] == prev[k]);
                        }
                    }
                    assert forall|k: int| 0 <= k < r.len() - 1 implies !#[trigger] touching_text(r, k) by {
                        assert(r[k] == prev[k]);
                        if k + 1 < prev.len() - 1 {
                            assert(r[k + 1] == prev[k + 1]);
                            assert(!touching_text(prev, k));
                        } else {
                            assert(!touching_text(prev, k));
                            assert(prev[k + 1] == last);
                        }
                    }
                } else {
                    let x = (t.0, t.1, KindView::Text(v));
                    lemma_token_text_push(prev, x);
                    let r = prev.push(x);
                    assert(r.drop_last() =~= prev);
                    assert forall|k: int| 0 <= k < r.len() implies (#[trigger] r[k]).2 !is Marker && r[k].2 !is Empty by {
                        if k < prev.len() {
                            assert(r[k] == prev[k]);
                        }
                    }
                    assert forall|k: int| 0 <= k < r.len() - 1 implies !#[trigger] touching_text(r, k) by {
                        if k < prev.len() - 1 {
                            assert(!touching_text(prev, k));
                        }
                    }
                }
            },
            _ => {
                let x = (t.0, t.1, kind);
                lemma_token_text_push(prev, x);
                let r = prev.push(x);
                assert(r.drop_last() =~= prev);
                assert forall|k: int| 0 <= k < r.len() implies (#[trigger] r[k]).2 !is Marker && r[k].2 !is Empty by {
                    if k < prev.len() {
                        assert(r[k] == prev[k]);
                    }
                }
                assert forall|k: int| 0 <= k < r.len() - 1 implies !#[trigger] touching_text(r, k) by {
                    if k < prev.len() - 1 {
                        assert(!touching_text(prev, k));
                    }
                }
            },
        }
    }
}

/// Turns unpaired markers into text, drops empty tokens and joins text
/// tokens that touch, keeping the order.
pub fn join_text_tokens<O>(tokens: Vec<Token<O>>) -> (r: Vec<Token<O>>)
    ensures
        token_views(r@) == joined(token_views(tokens@)),
        forall|k: int| 0 <= k < r@.len() ==> !((#[trigger] r@[k]).kind is Marker) && !(r@[k].kind is Empty),
        other_tokens(token_views(r@)) == other_tokens(token_views(tokens@)),
        forall|k: int|
            0 <= k < r@.len() - 1 ==> !((#[trigger] r@[k]).kind is Text && r@[k + 1].kind is Text && r@[k].end
                == r@[k + 1].start),
        token_text(token_views(r@)) == token_text(token_views(tokens@)),
{
    let ghost all = tokens@;
    let mut rest = tokens;
    let mut reversed: Vec<Token<O>> = Vec::new();
    while rest.len() > 0
        invariant
            all.len() == rest@.len() + reversed@.len(),
            rest@ == all.take(rest@.len() as int),
            forall|k: int| 0 <= k < reversed@.len() ==> #[trigger] reversed@[k] == all[all.len() - 1 - k],
        decreases rest@.len(),
    {
        let t = rest.pop().unwrap();
        reversed.push(t);
        proof {
            assert(rest@ =~= all.take(rest@.len() as int));
        }
    }
    let mut out: Vec<Token<O>> = Vec::new();
    while reversed.len() > 0
        invariant
            forall|k: int| 0 <= k < reversed@.len() ==> #[trigger] reversed@[k] == all[all.len() - 1 - k],
            reversed@.len() <= all.len(),
            token_views(out@) == joined(token_views(all.take(all.len() - reversed@.len()))),
        decreases reversed@.len(),
    {
        let ghost done = all.len() - reversed@.len();
        let ghost before = token_views(out@);
        let token = reversed.pop().unwrap();
        proof {
            assert(token == all[done]);
            let seen = token_views(all.take(done + 1));
            assert(seen.drop_last() =~= token_views(all.take(done)));
            assert(seen.last() == token_view(token));
        }
        let kind = match token.kind {
            TokenKind::Marker(v) => TokenKind::Text(v),
            other => other,
        };
        match kind {
            TokenKind::Empty => {},
            TokenKind::Text(value) => {
                let joins = match out.last() {
                    Some(last) => match &last.kind {
                        TokenKind::Text(_) => last.end == token.start,
                        _ => false,
                    },
                    None => false,
                };
                if joins {
                    let last = out.pop().unwrap();
                    proof {
                        assert(token_views(out@) =~= before.drop_last());
                        assert(before.last() == token_view(last));
                    }
                    match last.kind {
                        TokenKind::Text(previous) => {
                            let mut text = previous;
                            text.append(value.as_str());
                            out.push(Token { start: last.start, end: token.end, kind: TokenKind::Text(text) });
                        },
                        _ => {},
                    }
                    proof {
                        assert(token_views(out@) =~= before.drop_last().push(token_views(out@).last()));
                    }
                } else {
                    out.push(Token { start: token.start, end: token.end, kind: TokenKind::Text(value) });
                    proof {
                        assert(token_views(out@) =~= before.push(token_views(out@).last()));
                    }
                }
            },
            other => {
                out.push(Token { start: token.start, end: token.end, kind: other });
                proof {
                    assert(token_views(out@) =~= before.push(token_views(out@).last()));
                }
            },
        }
    }
    proof {
        assert(all.take(all.len() as int) =~= all);
        lemma_joined(token_views(all));
        let v = token_views(out@);
        assert forall|k: int| 0 <= k < out@.len() implies !((#[trigger] out@[k]).kind is Marker) && !(out@[k].kind is Empty) by {
            assert(v[k] == token_view(out@[k]));
        }
        assert forall|k: int| 0 <= k < out@.len() - 1 implies !((#[trigger] out@[k]).kind is Text
            && out@[k + 1].kind is Text && out@[k].end == out@[k + 1].start) by {
            assert(v[k] == token_view(out@[k]));
            assert(v[k + 1] == token_view(out@[k + 1]));
            assert(!touching_text(v, k));
        }
    }
    out
}

} // verus!
