//! The peek cache: one current token and a stack of further ones.

use vstd::prelude::*;

use crate::scan::{view_tok, view_toks, Tok, TokView};

verus! {

/// The size of a page. Some machines have larger ones; all that is needed is
/// a sensible value.
pub const PAGE_SIZE: usize = 4096;

/// The size of one cache entry, a token kind and a string slice, on a
/// machine with 64 bits.
pub const TOK_SIZE: usize = 24;

/// The number of tokens that fill the cache in one go.
pub const PEEK_CACHE_SIZE: usize = (PAGE_SIZE - 16) / TOK_SIZE;

/// A cache of peeked tokens, filled a page at a time.
///
/// `buf` is a stack: its last token is the next to become current.
#[derive(Debug)]
pub struct LexCache<'a> {
    /// The current token
    pub peeked: Option<Tok<'a>>,
    /// The tokens after it, the last one first
    pub buf: Vec<Tok<'a>>,
}

/// The view of an optional token, as a sequence of at most one.
pub open spec fn view_opt(t: Option<Tok>) -> Seq<TokView> {
    match t {
        Some(t) => seq![view_tok(t)],
        None => Seq::empty(),
    }
}

impl<'a> Default for LexCache<'a> {
    fn default() -> (r: Self)
        ensures
            r.peeked is None,
            r.buf@.len() == 0,
    {
        LexCache { peeked: None, buf: Vec::with_capacity(8) }
    }
}

/// Reversing the views of tokens is viewing the reversed tokens.
pub proof fn lemma_view_toks_push(s: Seq<Tok>, t: Tok)
    ensures
        view_toks(s.push(t)) == view_toks(s).push(view_tok(t)),
        view_toks(s.push(t)).reverse() == seq![view_tok(t)] + view_toks(s).reverse(),
{
    assert(view_toks(s.push(t)) =~= view_toks(s).push(view_tok(t)));
    assert(view_toks(s.push(t)).reverse() =~= seq![view_tok(t)] + view_toks(s).reverse());
}

/// A sequence of tokens, turned around, as a new vector.
pub fn reversed<'a>(v: &Vec<Tok<'a>>) -> (r: Vec<Tok<'a>>)
    ensures
        r@ == v@.reverse(),
{
    let mut out: Vec<Tok<'a>> = Vec::with_capacity(v.len());
    let mut i: usize = v.len();
    while i > 0
        invariant
            i <= v@.len(),
            out@.len() == v@.len() - i,
            forall|j: int| 0 <= j < out@.len() ==> out@[j] == v@[v@.len() - 1 - j],
        decreases i,
    {
        i -= 1;
        out.push(v[i]);
    }
    assert(out@ =~= v@.reverse());
    out
}

impl<'a> LexCache<'a> {
    /// The tokens in the cache, in the order in which they will be current.
    pub open spec fn pending(&self) -> Seq<TokView> {
        view_opt(self.peeked) + view_toks(self.buf@).reverse()
    }

    /// Puts tokens in front of those in the cache.
    ///
    /// `tokens` holds them as the cache does, the last one first. Where the
    /// cache has a current token, the first of the new tokens becomes current
    /// and the old one waits behind them all.
    pub fn extend(&mut self, tokens: Vec<Tok<'a>>)
        ensures
            final(self).pending() == view_toks(tokens@).reverse() + old(self).pending(),
            final(self).peeked is Some <==> old(self).peeked is Some,
            old(self).peeked is None ==> final(self).buf@ == old(self).buf@ + tokens@,
    {
        // Push the current token back to the cache
        let peeking = if let Some(peeked) = self.peeked {
            self.buf.push(peeked);
            true
        } else {
            false
        };
        let ghost pushed = self.buf@;
        let ghost added = tokens@;
        let mut tokens = tokens;
        self.buf.append(&mut tokens);
        // Pop the first token again
        if peeking {
            self.peeked = self.buf.pop();
        }
        proof {
            let all = pushed + added;
            assert(view_toks(all).reverse() =~= view_toks(added).reverse() + view_toks(
                pushed,
            ).reverse());
            if peeking {
                lemma_view_toks_push(old(self).buf@, old(self).peeked->0);
                lemma_view_toks_push(all.drop_last(), all.last());
                assert(all.drop_last().push(all.last()) =~= all);
                assert(self.buf@ =~= all.drop_last());
            }
            assert(self.pending() =~= view_toks(added).reverse() + old(self).pending());
        }
    }

    /// Fills the empty cache with at most a page of `tokens`, which come in
    /// the order of the source. The first of them becomes current.
    pub fn bump(&mut self, tokens: Vec<Tok<'a>>)
        requires
            old(self).buf@.len() == 0,
        ensures
            final(self).pending() == view_toks(
                tokens@.take(
                    if tokens@.len() <= PEEK_CACHE_SIZE {
                        tokens@.len() as int
                    } else {
                        PEEK_CACHE_SIZE as int
                    },
                ),
            ),
            final(self).peeked is None <==> tokens@.len() == 0,
    {
        // Fill the cache with a page of tokens
        let mut page = tokens;
        page.truncate(PEEK_CACHE_SIZE);
        // Reverse the cache to make it a stack
        self.buf = reversed(&page);
        // Pop the first token again
        self.peeked = self.buf.pop();
        proof {
            if page@.len() > 0 {
                assert(view_toks(page@.reverse().drop_last()).reverse() =~= view_toks(
                    page@,
                ).drop_first());
            }
            assert(self.pending() =~= view_toks(page@));
        }
    }
}

} // verus!
