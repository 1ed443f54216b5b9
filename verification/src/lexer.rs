//! The lexer that the parser reads: a stream context and the bumper that
//! refills its outer cache.

use vstd::prelude::*;
use vstd::utf8::*;

use crate::cache::PEEK_CACHE_SIZE;
use crate::command_spec::CommandSpec;
use crate::macro_engine::Macro;
use crate::scan::{
    lemma_text_of_concat, lemma_text_of_one, lemma_tokens_len, lemma_tokens_spell, text_of,
    tokens_of, view_tok, view_toks, RawLexer, Tok, TokView,
};
use crate::stream::StreamContext;
use crate::text::{first_char, lemma_encode_injective, lemma_utf8_len_split, utf8_len};
use crate::token::Token;

verus! {

/// What a macro is in contracts: its arity and the views of its body's tokens.
pub type MacroView = (u8, Seq<TokView>);

/// Querying the macros that a stream has met.
pub trait MacroifyStream<'a> {
    /// The macros that are bound, by name.
    spec fn macros(&self) -> Map<Seq<char>, MacroView>;

    /// Get a macro by name, if the stream has met its definition.
    fn get_macro(&self, name: &str) -> (r: Option<Macro<'a>>)
        ensures
            r is Some <==> self.macros().contains_key(name@),
            r matches Some(m) ==> (m.arity, m.body_view()) == self.macros()[name@],
    ;
}

/// Bumping the token stream: refilling the outer cache once the parser has
/// used it up. It is called less often than tokens are peeked.
pub trait BumpTokenStream<'a>: MacroifyStream<'a> {
    /// What the bumper needs of the context between calls.
    spec fn inv(&self, ctx: &StreamContext<'a>) -> bool;

    /// The tokens that the bumper will yet deliver, given the inner stream of
    /// the context.
    spec fn delivers(&self, inner: Seq<TokView>) -> Seq<TokView>;

    /// What the bumper needs does not depend on what the outer cache holds.
    proof fn inv_frame(&self, a: &StreamContext<'a>, b: &StreamContext<'a>)
        requires
            a.inner == b.inner,
            a.peek_inner == b.peek_inner,
        ensures
            self.inv(a) == self.inv(b),
    ;

    /// Bump the token stream with at least one token if possible: the tokens
    /// put into the outer cache are the first of those that were to be
    /// delivered.
    fn bump(&mut self, ctx: &mut StreamContext<'a>)
        requires
            old(self).inv(old(ctx)),
            old(ctx).peek_outer.buf@.len() == 0,
        ensures
            final(self).inv(final(ctx)),
            final(ctx).inner.spec_commands() == old(ctx).inner.spec_commands(),
            final(ctx).peek_outer.pending() + final(self).delivers(final(ctx).inner_stream())
                == old(self).delivers(old(ctx).inner_stream()),
            final(ctx).peek_outer.peeked is None ==> final(ctx).peek_outer.buf@.len() == 0
                && final(self).delivers(final(ctx).inner_stream()).len() == 0,
    ;
}

/// Cuts up to a page of tokens off the source.
pub fn lex_page<'a>(l: &mut RawLexer<'a>) -> (r: Vec<Tok<'a>>)
    ensures
        final(l).spec_commands() == old(l).spec_commands(),
        r@.len() <= PEEK_CACHE_SIZE,
        view_toks(r@) + tokens_of(final(l).remaining(), final(l).spec_commands().names())
            == tokens_of(old(l).remaining(), old(l).spec_commands().names()),
        r@.len() < PEEK_CACHE_SIZE ==> final(l).remaining().len() == 0,
{
    let mut page: Vec<Tok<'a>> = Vec::new();
    let ghost names = l.spec_commands().names();
    let ghost all = tokens_of(l.remaining(), names);
    assert(view_toks(page@) + all =~= all);
    while page.len() < PEEK_CACHE_SIZE
        invariant_except_break
            page@.len() <= PEEK_CACHE_SIZE,
        invariant
            l.spec_commands() == old(l).spec_commands(),
            names == l.spec_commands().names(),
            view_toks(page@) + tokens_of(l.remaining(), names) == all,
        ensures
            page@.len() <= PEEK_CACHE_SIZE,
            page@.len() < PEEK_CACHE_SIZE ==> l.remaining().len() == 0,
        decreases PEEK_CACHE_SIZE - page@.len(),
    {
        let ghost before = view_toks(page@);
        match StreamContext::lex_one(l) {
            Some(t) => {
                page.push(t);
                proof {
                    assert(view_toks(page@) =~= before + seq![view_tok(t)]);
                    assert(view_toks(page@) + tokens_of(l.remaining(), names) =~= before + (
                    seq![view_tok(t)] + tokens_of(l.remaining(), names)));
                }
            },
            None => {
                break ;
            },
        }
    }
    page
}

impl<'a> MacroifyStream<'a> for () {
    open spec fn macros(&self) -> Map<Seq<char>, MacroView> {
        Map::empty()
    }

    fn get_macro(&self, _name: &str) -> (r: Option<Macro<'a>>) {
        None
    }
}

/// The default bumper: it fills the outer cache with a page of tokens of
/// the scanner at a time, and delivers the tokens of the source as they are.
/// It leaves the inner cache alone, and wants it empty.
impl<'a> BumpTokenStream<'a> for () {
    open spec fn inv(&self, ctx: &StreamContext<'a>) -> bool {
        ctx.peek_inner.peeked is None && ctx.peek_inner.buf@.len() == 0
    }

    open spec fn delivers(&self, inner: Seq<TokView>) -> Seq<TokView> {
        inner
    }

    proof fn inv_frame(&self, a: &StreamContext<'a>, b: &StreamContext<'a>) {
    }

    fn bump(&mut self, ctx: &mut StreamContext<'a>) {
        proof {
            assert(ctx.inner_stream() =~= ctx.unread());
        }
        let page = lex_page(&mut ctx.inner);
        proof {
            assert(page@.take(page@.len() as int) =~= page@);
            lemma_tokens_len(ctx.inner.remaining(), ctx.names());
            assert(ctx.inner_stream() =~= ctx.unread());
        }
        ctx.peek_outer.bump(page);
    }
}

/// A small lexer for TeX, with one token of lookahead.
pub struct Lexer<'a, S: BumpTokenStream<'a>> {
    /// A stream context shared with the bumper
    ctx: StreamContext<'a>,
    /// What refills the outer cache of the context
    bumper: S,
}

impl<'a> Lexer<'a, ()> {
    /// Create a new lexer on a main input source. It delivers the tokens of
    /// the source as they are.
    pub fn new(input: &'a str, commands: &'a CommandSpec) -> (r: Self)
        ensures
            r.wf(),
            r.names() == commands.names(),
            r.stream() == tokens_of(input@, commands.names()),
            r.text() == input@,
    {
        proof {
            lemma_tokens_spell(input@, commands.names());
        }
        Self::new_with_bumper(input, commands, ())
    }
}

impl<'a, S: BumpTokenStream<'a>> Lexer<'a, S> {
    /// What holds of a lexer between calls: the bumper has what it needs, and
    /// the current token is missing only at the end of the stream.
    pub closed spec fn wf(&self) -> bool {
        &&& self.bumper.inv(&self.ctx)
        &&& self.ctx.peek_outer.peeked is None ==> self.ctx.peek_outer.buf@.len() == 0
            && self.bumper.delivers(self.ctx.inner_stream()).len() == 0
    }

    /// The names of the declared commands.
    pub closed spec fn names(&self) -> Set<Seq<char>> {
        self.ctx.names()
    }

    /// The macros that the bumper has bound.
    pub closed spec fn macros(&self) -> Map<Seq<char>, MacroView> {
        self.bumper.macros()
    }

    /// The tokens that wait in the outer cache, the current one first.
    pub closed spec fn pending(&self) -> Seq<TokView> {
        self.ctx.peek_outer.pending()
    }

    /// The current token.
    pub closed spec fn head(&self) -> Option<TokView> {
        match self.ctx.peek_outer.peeked {
            Some(t) => Some(view_tok(t)),
            None => None,
        }
    }

    /// The kind of the current token.
    pub open spec fn head_kind(&self) -> Option<Token> {
        match self.head() {
            Some(t) => Some(t.0),
            None => None,
        }
    }

    /// The text of the current token; empty where there is none.
    pub open spec fn head_text(&self) -> Seq<char> {
        match self.head() {
            Some(t) => t.1,
            None => Seq::empty(),
        }
    }

    /// The tokens that the lexer will yet deliver, the current one first.
    pub closed spec fn stream(&self) -> Seq<TokView> {
        self.ctx.peek_outer.pending() + self.bumper.delivers(self.ctx.inner_stream())
    }

    /// The text of the tokens that the lexer will yet deliver.
    pub open spec fn text(&self) -> Seq<char> {
        text_of(self.stream())
    }

    /// The current token is the first of the stream, and it is missing only
    /// at the end of the stream.
    pub proof fn lemma_head(&self)
        requires
            self.wf(),
        ensures
            self.head() is None ==> self.stream().len() == 0 && self.text().len() == 0,
            self.head() matches Some(t) ==> {
                &&& self.pending().len() > 0
                &&& self.pending()[0] == t
                &&& self.stream().len() > 0
                &&& self.stream()[0] == t
            },
    {
        assert(self.ctx.peek_outer.buf@.len() == 0 ==> view_toks(
            self.ctx.peek_outer.buf@,
        ).reverse().len() == 0);
    }

    /// Create a new lexer on a main input source with a bumper. It delivers
    /// what the bumper makes of the tokens of the source.
    pub fn new_with_bumper(input: &'a str, commands: &'a CommandSpec, bumper: S) -> (r: Self)
        requires
            forall|c: StreamContext<'a>|
                c.peek_inner.peeked is None && c.peek_inner.buf@.len() == 0 ==> #[trigger] bumper.inv(
                    &c,
                ),
        ensures
            r.wf(),
            r.names() == commands.names(),
            r.stream() == bumper.delivers(tokens_of(input@, commands.names())),
    {
        let mut n = Lexer { ctx: StreamContext::new(input, commands), bumper };
        proof {
            assert(n.ctx.inner_stream() =~= tokens_of(input@, commands.names()));
            assert(view_toks(n.ctx.peek_outer.buf@).reverse() =~= Seq::<TokView>::empty());
        }
        n.next();
        proof {
            assert(n.stream() =~= bumper.delivers(tokens_of(input@, commands.names())));
        }
        n
    }

    /// Advances the lexer by one token: to the next of those that wait in the
    /// outer cache, or, when there is none, to the first of a new page.
    fn next(&mut self)
        requires
            old(self).bumper.inv(&old(self).ctx),
        ensures
            final(self).wf(),
            final(self).names() == old(self).names(),
            final(self).stream() == view_toks(old(self).ctx.peek_outer.buf@).reverse() + old(
                self).bumper.delivers(old(self).ctx.inner_stream()),
            old(self).ctx.peek_outer.buf@.len() > 0 ==> final(self).pending() == view_toks(
                old(self).ctx.peek_outer.buf@,
            ).reverse(),
    {
        let ghost buf = self.ctx.peek_outer.buf@;
        if let Some(peeked) = self.ctx.peek_outer.buf.pop() {
            self.ctx.peek_outer.peeked = Some(peeked);
            proof {
                assert(view_toks(buf).reverse() =~= seq![view_tok(peeked)] + view_toks(
                    buf.drop_last(),
                ).reverse());
                self.bumper.inv_frame(&self.ctx, &old(self).ctx);
            }
            return ;
        }
        proof {
            assert(view_toks(buf).reverse() =~= Seq::<TokView>::empty());
            self.bumper.inv_frame(&self.ctx, &old(self).ctx);
        }
        self.bumper.bump(&mut self.ctx);
        proof {
            assert(self.stream() =~= view_toks(buf).reverse() + old(self).bumper.delivers(
                old(self).ctx.inner_stream(),
            ));
        }
    }

    /// Peek the next token.
    pub fn peek(&self) -> (r: Option<Token>)
        ensures
            r == self.head_kind(),
    {
        match self.ctx.peek_outer.peeked {
            Some((kind, _)) => Some(kind),
            None => None,
        }
    }

    /// Peek the next token's text.
    pub fn peek_text(&self) -> (r: Option<&'a str>)
        ensures
            r is Some <==> self.head() is Some,
            r matches Some(s) ==> s@ == self.head_text(),
    {
        match self.ctx.peek_outer.peeked {
            Some((_, text)) => Some(text),
            None => None,
        }
    }

    /// Peek the next token's first char.
    pub fn peek_char(&self) -> (r: Option<char>)
        ensures
            r is Some <==> self.head() is Some && self.head_text().len() > 0,
            r matches Some(c) ==> c == self.head_text()[0],
    {
        match self.peek_text() {
            Some(text) => first_char(text),
            None => None,
        }
    }

    /// Update the peeked token and return the old one.
    pub fn eat(&mut self) -> (r: Option<Tok<'a>>)
        requires
            old(self).wf(),
        ensures
            final(self).wf(),
            final(self).names() == old(self).names(),
            r is None <==> old(self).head() is None,
            r is None ==> *final(self) == *old(self),
            r matches Some(t) ==> {
                &&& old(self).head() == Some(view_tok(t))
                &&& old(self).stream() == seq![view_tok(t)] + final(self).stream()
                &&& old(self).text() == t.1@ + final(self).text()
                &&& old(self).pending().len() > 1 ==> final(self).pending() == old(
                    self).pending().drop_first()
            },
    {
        let peeked = match self.ctx.peek_outer.peeked {
            Some(t) => t,
            None => {
                return None;
            },
        };
        self.ctx.peek_outer.peeked = None;
        proof {
            let rest = view_toks(old(self).ctx.peek_outer.buf@).reverse();
            assert(old(self).pending() =~= seq![view_tok(peeked)] + rest);
            assert(old(self).pending().drop_first() =~= rest);
            assert(old(self).stream() =~= seq![view_tok(peeked)] + (rest + old(
                self).bumper.delivers(old(self).ctx.inner_stream())));
            self.bumper.inv_frame(&self.ctx, &old(self).ctx);
        }
        self.next();
        proof {
            lemma_text_of_concat(seq![view_tok(peeked)], self.stream());
            lemma_text_of_one(view_tok(peeked));
        }
        Some(peeked)
    }

    /// Drops the first `cnt` bytes of the current token's text, and moves on
    /// to the next token if that leaves nothing of it.
    ///
    /// With this the parser takes a word apart character by character.
    pub fn consume_utf8_bytes(&mut self, cnt: usize)
        requires
            old(self).wf(),
            old(self).head() matches Some(t) ==> utf8_len(t.1) <= cnt || is_char_boundary(
                encode_utf8(t.1),
                cnt as int,
            ),
        ensures
            final(self).wf(),
            final(self).names() == old(self).names(),
            old(self).head() is None ==> *final(self) == *old(self),
            old(self).head() matches Some(t) ==> if utf8_len(t.1) <= cnt {
                &&& old(self).stream() == seq![t] + final(self).stream()
                &&& old(self).text() == t.1 + final(self).text()
                &&& old(self).pending().len() > 1 ==> final(self).pending() == old(
                    self).pending().drop_first()
            } else {
                final(self).head() matches Some(n) && {
                    &&& n.0 == t.0
                    &&& encode_utf8(n.1) == encode_utf8(t.1).skip(cnt as int)
                    &&& final(self).pending() == old(self).pending().update(0, n)
                    &&& final(self).stream() == old(self).stream().update(0, n)
                    &&& forall|k: int|
                        0 <= k <= t.1.len() && utf8_len(#[trigger] t.1.take(k)) == cnt ==> n.1
                            == t.1.skip(k) && old(self).text() == t.1.take(k) + final(self).text()
                }
            },
    {
        let (kind, text) = match self.ctx.peek_outer.peeked {
            Some(t) => t,
            None => {
                return ;
            },
        };
        let ghost rest = view_toks(old(self).ctx.peek_outer.buf@).reverse();
        let ghost more = old(self).bumper.delivers(old(self).ctx.inner_stream());
        proof {
            assert(old(self).pending() =~= seq![view_tok((kind, text))] + rest);
            assert(old(self).pending().drop_first() =~= rest);
            assert(old(self).stream() =~= seq![view_tok((kind, text))] + (rest + more));
        }
        if text.as_bytes().len() <= cnt {
            self.next();
            proof {
                lemma_text_of_concat(seq![view_tok((kind, text))], self.stream());
                lemma_text_of_one(view_tok((kind, text)));
            }
        } else {
            let (_, tail) = text.split_at(cnt);
            self.ctx.peek_outer.peeked = Some((kind, tail));
            proof {
                let t = view_tok((kind, text));
                let n = view_tok((kind, tail));
                self.bumper.inv_frame(&self.ctx, &old(self).ctx);
                assert(self.pending() =~= old(self).pending().update(0, n));
                assert(self.stream() =~= old(self).stream().update(0, n));
                let tail_toks = rest + more;
                assert(old(self).stream() =~= seq![t] + tail_toks);
                assert(self.stream() =~= seq![n] + tail_toks);
                lemma_text_of_concat(seq![t], tail_toks);
                lemma_text_of_concat(seq![n], tail_toks);
                lemma_text_of_one(t);
                lemma_text_of_one(n);
                assert forall|k: int|
                    0 <= k <= t.1.len() && utf8_len(#[trigger] t.1.take(k)) == cnt implies n.1
                    == t.1.skip(k) && old(self).text() == t.1.take(k) + self.text() by {
                    lemma_utf8_len_split(t.1, k);
                    assert(encode_utf8(t.1).skip(cnt as int) =~= encode_utf8(t.1.skip(k)));
                    lemma_encode_injective(n.1, t.1.skip(k));
                    assert(t.1 =~= t.1.take(k) + t.1.skip(k));
                    assert(old(self).text() =~= t.1.take(k) + self.text());
                }
            }
        }
    }

    /// The macro bound to `name`, if the bumper has met its definition.
    pub fn get_macro(&mut self, name: &str) -> (r: Option<Macro<'a>>)
        ensures
            *final(self) == *old(self),
            r is Some <==> old(self).macros().contains_key(name@),
            r matches Some(m) ==> (m.arity, m.body_view()) == old(self).macros()[name@],
    {
        self.bumper.get_macro(name)
    }
}

} // verus!
