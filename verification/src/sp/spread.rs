//! Added tokens without content, which stand between all bytes of a text.
use crate::bpe::added::{
    added_views, longest_match, patterns, AddedMatcher, AddedToken, AddedTokenDef,
};
use crate::bpe::tiktoken::all_nonempty;
use crate::sp::model::{section_end, section_next, section_piece, Piece};
use crate::text::{trim_ws_end, trim_ws_start};
use vstd::prelude::*;

verus! {

/// The added token that stands at `p`.
pub open spec fn token_here(toks: Seq<AddedToken>, s: Seq<u8>, p: int) -> Option<int> {
    match longest_match(patterns(toks), s, p) {
        Some((start, k)) => if start == p {
            Some(k)
        } else {
            None
        },
        None => None,
    }
}

/// The section before a token, and the token. One that starts inside white
/// space that the token before consumed is dropped.
pub open spec fn token_pieces(tok: AddedToken, s: Seq<u8>, chunk: int, start: int) -> Seq<Piece> {
    if start < chunk {
        Seq::empty()
    } else {
        section_piece(chunk, section_end(tok, s, chunk, start)) + seq![Piece::Token(tok.id)]
    }
}

/// Where the text goes on after a token.
pub open spec fn token_next(
    tok: AddedToken,
    s: Seq<u8>,
    chunk: int,
    start: int,
    end: int,
) -> int {
    if start < chunk {
        chunk
    } else {
        section_next(tok, s, end)
    }
}

/// The pieces of a text from `chunk` on, with tokens found from `p` on: at each
/// position the longest token, or `gap`, which has no content. `gap` does not
/// stand right behind another token: `ended` says that one ended at `p`.
pub open spec fn spread_pieces(
    toks: Seq<AddedToken>,
    gap: AddedToken,
    s: Seq<u8>,
    p: int,
    chunk: int,
    ended: bool,
) -> Seq<Piece>
    decreases s.len() + 1 - p,
{
    if !(0 <= p <= s.len()) {
        section_piece(chunk, s.len() as int)
    } else {
        match token_here(toks, s, p) {
            Some(k) => {
                let tok = toks[k];
                let end = p + tok.content.len();
                if end > p {
                    token_pieces(tok, s, chunk, p) + spread_pieces(
                        toks,
                        gap,
                        s,
                        end,
                        token_next(tok, s, chunk, p, end),
                        true,
                    )
                } else {
                    Seq::empty()
                }
            },
            None => if ended {
                spread_pieces(toks, gap, s, p + 1, chunk, false)
            } else {
                token_pieces(gap, s, chunk, p) + spread_pieces(
                    toks,
                    gap,
                    s,
                    p + 1,
                    token_next(gap, s, chunk, p, p),
                    false,
                )
            },
        }
    }
}

/// Appends the section before a token, and the token. Returns where the text
/// goes on.
fn push_token(
    def: &AddedTokenDef,
    text: &[u8],
    chunk: usize,
    start: usize,
    end: usize,
    out: &mut Vec<Piece>,
) -> (next: usize)
    requires
        chunk <= text@.len(),
        start <= end <= text@.len(),
        forall|i: int|
            0 <= i < old(out)@.len() ==> ((#[trigger] old(out)@[i]) matches Piece::Section(a, b) ==> a
                < b <= text@.len()),
    ensures
        next == token_next(def@, text@, chunk as int, start as int, end as int),
        next <= text@.len(),
        final(out)@ == old(out)@ + token_pieces(def@, text@, chunk as int, start as int),
        forall|i: int|
            0 <= i < final(out)@.len() ==> ((#[trigger] final(out)@[i]) matches Piece::Section(a, b)
                ==> a < b <= text@.len()),
{
    let ghost before = out@;
    if start < chunk {
        proof {
            assert(before + Seq::<Piece>::empty() =~= before);
        }
        return chunk;
    }
    let total: usize = text.len();
    let mut stop: usize = start;
    if def.lstrip {
        stop = chunk + trim_ws_end(vstd::slice::slice_subrange(text, chunk, start));
    }
    if chunk < stop {
        out.push(Piece::Section(chunk, stop));
    }
    proof {
        assert(out@ =~= before + section_piece(chunk as int, stop as int));
    }
    out.push(Piece::Token(def.id));
    proof {
        assert(out@ =~= before + token_pieces(def@, text@, chunk as int, start as int));
    }
    if def.rstrip {
        let tail = vstd::slice::slice_subrange(text, end, total);
        proof {
            assert(tail@ =~= text@.skip(end as int));
        }
        end + trim_ws_start(tail)
    } else {
        end
    }
}

/// Splits a text around added tokens, one of which has no content.
pub fn split_spread(
    specs: &Vec<AddedTokenDef>,
    matcher: &AddedMatcher,
    gap: &AddedTokenDef,
    text: &[u8],
) -> (r: Vec<Piece>)
    requires
        matcher@ == patterns(added_views(specs@)),
        all_nonempty(added_views(specs@)),
    ensures
        r@ == spread_pieces(added_views(specs@), gap@, text@, 0, 0, false),
        forall|i: int|
            0 <= i < r@.len() ==> ((#[trigger] r@[i]) matches Piece::Section(a, b) ==> a < b <= text@.len()),
{
    let ghost toks = added_views(specs@);
    let ghost s = text@;
    let ghost all = spread_pieces(toks, gap@, s, 0, 0, false);
    let total: usize = text.len();
    let mut out: Vec<Piece> = Vec::new();
    let mut p: usize = 0;
    let mut chunk: usize = 0;
    let mut ended = false;
    let mut more = true;
    proof {
        assert(out@ + all =~= all);
    }
    while more
        invariant
            s == text@,
            total == s.len(),
            toks == added_views(specs@),
            matcher@ == patterns(toks),
            all_nonempty(toks),
            all == spread_pieces(toks, gap@, s, 0, 0, false),
            p <= total,
            chunk <= total,
            more ==> out@ + spread_pieces(toks, gap@, s, p as int, chunk as int, ended) == all,
            !more ==> out@ + section_piece(chunk as int, total as int) == all,
            forall|i: int|
                0 <= i < out@.len() ==> ((#[trigger] out@[i]) matches Piece::Section(a, b) ==> a < b
                    <= total),
        decreases total - p, if more { 1int } else { 0int },
    {
        let ghost before = out@;
        let ghost rest = spread_pieces(toks, gap@, s, p as int, chunk as int, ended);
        let found: Option<usize> = match matcher.find(text, p) {
            Some((start, k)) => if start == p {
                Some(k)
            } else {
                None
            },
            None => None,
        };
        match found {
            Some(k) => {
                proof {
                    assert(toks[k as int] == specs@[k as int]@);
                    assert(patterns(toks)[k as int] == toks[k as int].content);
                }
                let end: usize = p + specs[k].content.len();
                chunk = push_token(&specs[k], text, chunk, p, end, &mut out);
                ended = true;
                p = end;
                proof {
                    let then = spread_pieces(toks, gap@, s, p as int, chunk as int, ended);
                    assert(out@ + then =~= before + rest);
                }
            },
            None => {
                if !ended {
                    chunk = push_token(gap, text, chunk, p, p, &mut out);
                }
                ended = false;
                proof {
                    let then = spread_pieces(toks, gap@, s, p + 1, chunk as int, false);
                    assert(out@ + then =~= before + rest);
                }
                if p == total {
                    more = false;
                } else {
                    p += 1;
                }
            },
        }
    }
    let ghost before = out@;
    if chunk < total {
        out.push(Piece::Section(chunk, total));
    }
    proof {
        assert(out@ =~= before + section_piece(chunk as int, total as int));
    }
    out
}

} // verus!
