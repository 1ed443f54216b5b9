//! The stream context: the scanner with its two peek caches.

use vstd::prelude::*;

use crate::cache::{view_opt, LexCache};
use crate::command_spec::CommandSpec;
use crate::scan::{
    first_token, head_token, lemma_tokens_len, lemma_tokens_unfold,
    tokens_of, view_tok, view_toks, RawLexer, Tok, TokView,
};
use crate::text::{lemma_ascii_width, lemma_utf8_len_bounds, parse_u8, split_chars, u8_value};
use crate::token::{classify, BraceKind, CommandName, Token};

verus! {

/// The number of tokens of white space and comments that `s` starts with.
pub open spec fn leading_trivia(s: Seq<TokView>) -> nat
    decreases s.len(),
{
    if s.len() > 0 && s[0].0.spec_is_trivia() {
        1 + leading_trivia(s.drop_first())
    } else {
        0
    }
}

/// The change in the depth of curly braces that a token makes.
pub open spec fn curly_delta(t: Token) -> int {
    if t == Token::Left(BraceKind::Curly) {
        1
    } else if t == Token::Right(BraceKind::Curly) {
        -1
    } else {
        0
    }
}

/// The depth of curly braces after the tokens of `s`, counted from zero.
pub open spec fn curly_depth(s: Seq<TokView>) -> int
    decreases s.len(),
{
    if s.len() == 0 {
        0
    } else {
        curly_depth(s.drop_last()) + curly_delta(s.last().0)
    }
}

/// Whether reading up to `until` ends before the token at `i`: the token is
/// `until` and the curly braces before it are balanced.
pub open spec fn ends_at(s: Seq<TokView>, i: int, until: Token) -> bool {
    0 <= i < s.len() && s[i].0 == until && curly_depth(s.take(i)) == 0
}

/// The first index from `from` on at which reading up to `until` ends, or the
/// length of `s` if there is none.
pub open spec fn balanced_end(s: Seq<TokView>, from: int, until: Token) -> int
    decreases s.len() - from,
{
    if from < 0 || from >= s.len() {
        s.len() as int
    } else if ends_at(s, from, until) {
        from
    } else {
        balanced_end(s, from + 1, until)
    }
}

/// `balanced_end` is the first index at which reading ends.
pub proof fn lemma_balanced_end(s: Seq<TokView>, from: int, until: Token)
    requires
        0 <= from <= s.len(),
    ensures
        from <= balanced_end(s, from, until) <= s.len(),
        balanced_end(s, from, until) < s.len() ==> ends_at(s, balanced_end(s, from, until), until),
        forall|i: int| from <= i < balanced_end(s, from, until) ==> !ends_at(s, i, until),
    decreases s.len() - from,
{
    if from < s.len() && !ends_at(s, from, until) {
        lemma_balanced_end(s, from + 1, until);
    }
}

/// The leading trivia of a sequence are within it.
pub proof fn lemma_leading_trivia(s: Seq<TokView>)
    ensures
        leading_trivia(s) <= s.len(),
        forall|i: int| 0 <= i < leading_trivia(s) ==> (#[trigger] s[i]).0.spec_is_trivia(),
        leading_trivia(s) < s.len() ==> !s[leading_trivia(s) as int].0.spec_is_trivia(),
    decreases s.len(),
{
    if s.len() > 0 && s[0].0.spec_is_trivia() {
        let t = s.drop_first();
        lemma_leading_trivia(t);
        assert forall|i: int| 0 <= i < leading_trivia(s) implies (#[trigger] s[i]).0.spec_is_trivia() by {
            if i > 0 {
                assert(s[i] == t[i - 1]);
            }
        }
        if leading_trivia(s) < s.len() {
            assert(s[leading_trivia(s) as int] == t[leading_trivia(t) as int]);
        }
    }
}

/// The stream after its first token.
pub open spec fn rest_of(s: Seq<TokView>) -> Seq<TokView> {
    if s.len() > 0 {
        s.drop_first()
    } else {
        s
    }
}

/// The stream from its first token on that is no trivia.
pub open spec fn past_trivia(s: Seq<TokView>) -> Seq<TokView> {
    s.skip(leading_trivia(s) as int)
}

/// The stream after its first token, the trivia that follow, and the closer of
/// `bk` if it comes next.
pub open spec fn past_closer(s: Seq<TokView>, bk: BraceKind) -> Seq<TokView> {
    let u = past_trivia(rest_of(s));
    if u.len() > 0 && u[0].0 == Token::Right(bk) {
        u.drop_first()
    } else {
        u
    }
}

/// The kind of the first token of the stream.
pub open spec fn first_kind_of(s: Seq<TokView>) -> Option<Token> {
    if s.len() > 0 {
        Some(s[0].0)
    } else {
        None
    }
}

/// A stream context for the lexer: the scanner, the outer cache that the
/// parser reads, and the inner cache that a bumper reads ahead in.
pub struct StreamContext<'a> {
    /// The scanner on the input source
    pub inner: RawLexer<'a>,
    /// Outer peek
    pub peek_outer: LexCache<'a>,
    /// Inner peek
    pub peek_inner: LexCache<'a>,
}

impl<'a> StreamContext<'a> {
    /// The names of the declared commands.
    pub open spec fn names(&self) -> Set<Seq<char>> {
        self.inner.spec_commands().names()
    }

    /// The tokens that the scanner has yet to cut.
    pub open spec fn unread(&self) -> Seq<TokView> {
        tokens_of(self.inner.remaining(), self.names())
    }

    /// The current token of the inner stream.
    pub open spec fn current(&self) -> Option<TokView> {
        match self.peek_inner.peeked {
            Some(t) => Some(view_tok(t)),
            None => None,
        }
    }

    /// The tokens of the inner stream after the current one.
    pub open spec fn upcoming(&self) -> Seq<TokView> {
        view_toks(self.peek_inner.buf@).reverse() + self.unread()
    }

    /// The inner stream: the current token, if there is one, and those after it.
    pub open spec fn inner_stream(&self) -> Seq<TokView> {
        view_opt(self.peek_inner.peeked) + self.upcoming()
    }

    /// Whether the context is past its start: it lacks a current token only
    /// at the end of the inner stream.
    pub open spec fn settled(&self) -> bool {
        self.current() is None ==> self.upcoming().len() == 0
    }

    /// In a settled context, the upcoming tokens are the stream after its
    /// first token, which is the current one.
    pub proof fn lemma_settled(&self)
        requires
            self.settled(),
        ensures
            self.upcoming() == rest_of(self.inner_stream()),
            self.current() is Some <==> self.inner_stream().len() > 0,
            self.current() matches Some(t) ==> self.inner_stream()[0] == t,
            self.current() == (if self.inner_stream().len() > 0 {
                Some(self.inner_stream()[0])
            } else {
                None
            }),
    {
        match self.current() {
            Some(t) => {
                assert(self.inner_stream() =~= seq![t] + self.upcoming());
                assert(self.inner_stream().drop_first() =~= self.upcoming());
            },
            None => {
                assert(self.inner_stream() =~= self.upcoming());
            },
        }
    }

    /// A context that stands at the `n`-th token of `up`, or at its end, has
    /// the stream of `up` from that token on.
    pub proof fn lemma_stands_at(&self, up: Seq<TokView>, n: int)
        requires
            0 <= n <= up.len(),
            n < up.len() ==> self.current() == Some(up[n]) && self.upcoming() == up.skip(n + 1),
            n >= up.len() ==> self.current() is None && self.upcoming().len() == 0,
        ensures
            self.settled(),
            self.inner_stream() == up.skip(n),
    {
        if n < up.len() {
            assert(self.inner_stream() =~= seq![up[n]] + up.skip(n + 1));
            assert(self.inner_stream() =~= up.skip(n));
        } else {
            assert(self.inner_stream() =~= up.skip(n));
        }
    }

    /// A context at the start of `input`, with empty caches.
    pub fn new(input: &'a str, commands: &'a CommandSpec) -> (r: Self)
        ensures
            r.inner.remaining() == input@,
            r.inner.spec_commands() == commands,
            r.peek_outer.peeked is None,
            r.peek_outer.buf@.len() == 0,
            r.peek_inner.peeked is None,
            r.peek_inner.buf@.len() == 0,
    {
        StreamContext {
            inner: RawLexer::new(input, commands),
            peek_outer: LexCache::default(),
            peek_inner: LexCache::default(),
        }
    }

    /// Cuts one token off the source and classifies it if it is a command.
    pub fn lex_one(l: &mut RawLexer<'a>) -> (r: Option<Tok<'a>>)
        ensures
            final(l).spec_commands() == old(l).spec_commands(),
            r is None <==> old(l).remaining().len() == 0,
            r is None ==> final(l).remaining() == old(l).remaining(),
            r matches Some(tok) ==> {
                let names = old(l).spec_commands().names();
                let len = first_token(old(l).remaining(), names).1;
                &&& view_tok(tok) == head_token(old(l).remaining(), names)
                &&& final(l).remaining() == old(l).remaining().skip(len as int)
                &&& 1 <= len <= old(l).remaining().len()
                &&& tokens_of(old(l).remaining(), names) == seq![view_tok(tok)] + tokens_of(
                    final(l).remaining(),
                    names,
                )
            },
    {
        proof {
            if old(l).remaining().len() > 0 {
                lemma_tokens_unfold(old(l).remaining(), old(l).spec_commands().names());
            }
        }
        let (tok, source_text) = match l.next() {
            Some(t) => t,
            None => {
                return None;
            },
        };
        if tok != Token::CommandName(CommandName::Generic) {
            return Some((tok, source_text));
        }
        proof {
            assert(source_text@[0] == '\\');
            assert(source_text@.take(1) =~= seq!['\\']);
            lemma_ascii_width('\\');
        }
        let (_, name) = split_chars(source_text, 1, Ghost(1));
        Some((Token::CommandName(classify(name)), source_text))
    }

    /// Makes the next token of the inner stream current. The inner stream is
    /// not cached by the page.
    pub fn next_token(&mut self)
        ensures
            final(self).peek_outer == old(self).peek_outer,
            final(self).inner.spec_commands() == old(self).inner.spec_commands(),
            old(self).upcoming().len() == 0 ==> final(self).current() is None && final(self).upcoming().len() == 0,
            old(self).upcoming().len() > 0 ==> final(self).current() == Some(old(self).upcoming()[0])
                && final(self).upcoming() == old(self).upcoming().drop_first(),
            final(self).settled(),
            final(self).inner_stream() == old(self).upcoming(),
            old(self).settled() ==> final(self).inner_stream() == rest_of(old(self).inner_stream()),
    {
        proof {
            lemma_tokens_len(self.inner.remaining(), self.names());
        }
        let ghost buf = self.peek_inner.buf@;
        let peeked = match self.peek_inner.buf.pop() {
            Some(t) => {
                proof {
                    assert(view_toks(buf).reverse().drop_first() =~= view_toks(
                        buf.drop_last(),
                    ).reverse());
                    assert(self.upcoming() =~= old(self).upcoming().drop_first());
                }
                Some(t)
            },
            None => {
                let r = Self::lex_one(&mut self.inner);
                proof {
                    assert(view_toks(buf).reverse() =~= Seq::<TokView>::empty());
                    if r is Some {
                        assert(self.upcoming() =~= old(self).upcoming().drop_first());
                    } else {
                        assert(self.upcoming() =~= old(self).upcoming());
                    }
                }
                r
            },
        };
        self.peek_inner.peeked = peeked;
        proof {
            let up = old(self).upcoming();
            if up.len() > 0 {
                assert(up.skip(1) =~= up.drop_first());
            }
            self.lemma_stands_at(up, if up.len() > 0 { 0 } else { up.len() as int } );
            assert(up.skip(0) =~= up);
            if old(self).settled() {
                old(self).lemma_settled();
            }
        }
    }

    /// Makes the next token of the inner stream current and returns it.
    pub fn next_full(&mut self) -> (r: Option<Tok<'a>>)
        ensures
            final(self).peek_outer == old(self).peek_outer,
            final(self).inner.spec_commands() == old(self).inner.spec_commands(),
            r == final(self).peek_inner.peeked,
            old(self).upcoming().len() == 0 ==> r is None && final(self).upcoming().len() == 0,
            old(self).upcoming().len() > 0 ==> final(self).current() == Some(old(self).upcoming()[0])
                && final(self).upcoming() == old(self).upcoming().drop_first(),
            final(self).settled(),
            final(self).inner_stream() == old(self).upcoming(),
            old(self).settled() ==> final(self).inner_stream() == rest_of(old(self).inner_stream()),
    {
        self.next_token();
        self.peek_inner.peeked
    }

    /// The current token of the inner stream.
    pub fn peek_full(&self) -> (r: Option<Tok<'a>>)
        ensures
            r == self.peek_inner.peeked,
    {
        self.peek_inner.peeked
    }

    /// The kind of the current token of the inner stream.
    pub fn peek(&self) -> (r: Option<Token>)
        ensures
            r is Some <==> self.current() is Some,
            r matches Some(k) ==> (self.current() matches Some(t) && t.0 == k),
    {
        match self.peek_inner.peeked {
            Some((kind, _)) => Some(kind),
            None => None,
        }
    }

    /// Moves on to the next token that is not trivia, and returns its kind.
    pub fn next_not_trivia(&mut self) -> (r: Option<Token>)
        ensures
            final(self).peek_outer == old(self).peek_outer,
            final(self).inner.spec_commands() == old(self).inner.spec_commands(),
            ({
                let up = old(self).upcoming();
                let n = leading_trivia(up) as int;
                if n < up.len() {
                    &&& r == Some(up[n].0)
                    &&& final(self).current() == Some(up[n])
                    &&& final(self).upcoming() == up.skip(n + 1)
                } else {
                    &&& r is None
                    &&& final(self).current() is None
                    &&& final(self).upcoming().len() == 0
                }
            }),
            final(self).settled(),
            final(self).inner_stream() == past_trivia(old(self).upcoming()),
            old(self).settled() ==> final(self).inner_stream() == past_trivia(
                rest_of(old(self).inner_stream()),
            ),
            r == first_kind_of(final(self).inner_stream()),
    {
        let ghost up = self.upcoming();
        let ghost mut i: int = 0;
        proof {
            lemma_leading_trivia(up);
            assert(up.skip(0) =~= up);
        }
        loop
            invariant_except_break
                0 <= i <= up.len(),
                self.upcoming() == up.skip(i),
                forall|j: int| 0 <= j < i ==> (#[trigger] up[j]).0.spec_is_trivia(),
            invariant
                self.peek_outer == old(self).peek_outer,
                self.inner.spec_commands() == old(self).inner.spec_commands(),
                up == old(self).upcoming(),
            ensures
                self.current() is None ==> self.upcoming().len() == 0 && leading_trivia(up)
                    >= up.len(),
                self.current() is Some ==> {
                    let n = leading_trivia(up) as int;
                    &&& n < up.len()
                    &&& self.current() == Some(up[n])
                    &&& self.upcoming() == up.skip(n + 1)
                },
            decreases up.len() - i,
        {
            match self.next_full() {
                Some((kind, _)) => {
                    proof {
                        assert(up.skip(i).drop_first() =~= up.skip(i + 1));
                        assert(up.skip(i)[0] == up[i]);
                    }
                    if !kind.is_trivia() {
                        proof {
                            lemma_trivia_run(up, i);
                        }
                        break ;
                    }
                    proof {
                        i = i + 1;
                    }
                },
                None => {
                    proof {
                        assert(up.skip(i).len() == 0);
                        lemma_trivia_run(up, i);
                    }
                    break ;
                },
            }
        }
        proof {
            lemma_leading_trivia(up);
            let n = leading_trivia(up) as int;
            if n < up.len() {
                self.lemma_stands_at(up, n);
            } else {
                self.lemma_stands_at(up, up.len() as int);
            }
            if old(self).settled() {
                old(self).lemma_settled();
            }
        }
        match self.peek_inner.peeked {
            Some((kind, _)) => Some(kind),
            None => None,
        }
    }

    /// The kind of the first token from the current one on that is not trivia.
    /// The stream moves on to that token.
    pub fn peek_not_trivia(&mut self) -> (r: Option<Token>)
        ensures
            final(self).peek_outer == old(self).peek_outer,
            final(self).inner.spec_commands() == old(self).inner.spec_commands(),
            ({
                let all = old(self).inner_stream();
                let n = leading_trivia(all) as int;
                if n < all.len() {
                    &&& r == Some(all[n].0)
                    &&& final(self).current() == Some(all[n])
                    &&& final(self).upcoming() == all.skip(n + 1)
                } else {
                    &&& r is None
                    &&& final(self).current() is None
                    &&& final(self).upcoming().len() == 0
                }
            }),
            final(self).settled(),
            final(self).inner_stream() == past_trivia(old(self).inner_stream()),
            r == first_kind_of(final(self).inner_stream()),
    {
        let ghost all = self.inner_stream();
        let ghost up = self.upcoming();
        match self.peek_inner.peeked {
            Some((kind, _)) => {
                assert(all =~= seq![self.current()->0] + up);
                assert(all.drop_first() =~= up);
                if !kind.is_trivia() {
                    assert(all.skip(1) =~= up);
                    assert(all.skip(0) =~= all);
                    return Some(kind);
                }
                proof {
                    let n = leading_trivia(up) as int;
                    lemma_leading_trivia(up);
                    if n < up.len() {
                        assert(all.skip(n + 2) =~= up.skip(n + 1));
                    }
                    assert(all.skip(n + 1) =~= up.skip(n));
                }
                self.next_not_trivia()
            },
            None => {
                assert(all =~= up);
                self.next_not_trivia()
            },
        }
    }

    /// Moves on if the current token is of the kind `tk`.
    pub fn eat_if(&mut self, tk: Token)
        ensures
            final(self).peek_outer == old(self).peek_outer,
            final(self).inner.spec_commands() == old(self).inner.spec_commands(),
            ({
                let eaten = old(self).current() matches Some(t) && t.0 == tk;
                let up = old(self).upcoming();
                if !eaten {
                    final(self).peek_inner == old(self).peek_inner && final(self).inner == old(self).inner
                } else if up.len() > 0 {
                    final(self).current() == Some(up[0]) && final(self).upcoming()
                        == up.drop_first()
                } else {
                    final(self).current() is None && final(self).upcoming().len() == 0
                }
            }),
    {
        let hit = match self.peek_inner.peeked {
            Some((kind, _)) => kind == tk,
            None => false,
        };
        if hit {
            self.next_token();
        }
    }

    /// Puts a token on the stack of the outer cache.
    pub fn push_outer(&mut self, peeked: Tok<'a>)
        ensures
            final(self).peek_outer.buf@ == old(self).peek_outer.buf@.push(peeked),
            final(self).peek_outer.peeked == old(self).peek_outer.peeked,
            final(self).inner == old(self).inner,
            final(self).peek_inner == old(self).peek_inner,
    {
        self.peek_outer.buf.push(peeked);
    }

    /// Puts tokens in front of the inner stream; `tokens` holds the last of
    /// them first.
    pub fn extend_inner(&mut self, tokens: Vec<Tok<'a>>)
        ensures
            final(self).peek_outer == old(self).peek_outer,
            final(self).inner == old(self).inner,
            final(self).inner_stream() == view_toks(tokens@).reverse() + old(self).inner_stream(),
            final(self).current() is Some <==> old(self).current() is Some,
    {
        self.peek_inner.extend(tokens);
        proof {
            assert(self.inner_stream() =~= self.peek_inner.pending() + self.unread());
            assert(old(self).inner_stream() =~= old(self).peek_inner.pending() + old(
                self).unread());
            assert(self.inner_stream() =~= view_toks(tokens@).reverse() + old(
                self).inner_stream());
        }
    }

    /// Reads the current token as a number below 256, moves on to the token
    /// after the trivia that follow, and over that one too if it closes `bk`.
    /// Where nothing follows but trivia, the result is `None`.
    pub fn peek_u8_opt(&mut self, bk: BraceKind) -> (r: Option<u8>)
        ensures
            final(self).peek_outer == old(self).peek_outer,
            final(self).inner.spec_commands() == old(self).inner.spec_commands(),
            ({
                let up = old(self).upcoming();
                let n = leading_trivia(up) as int;
                if n < up.len() {
                    &&& r == match old(self).current() {
                        Some((Token::Word, text)) => u8_value(text),
                        _ => None,
                    }
                    &&& final(self).inner_stream() == up.skip(
                        if up[n].0 == Token::Right(bk) {
                            n + 1
                        } else {
                            n
                        },
                    )
                } else {
                    r is None && final(self).inner_stream().len() == 0
                }
            }),
            final(self).settled(),
            old(self).settled() ==> final(self).inner_stream() == past_closer(
                old(self).inner_stream(),
                bk,
            ),
    {
        proof {
            if old(self).settled() {
                old(self).lemma_settled();
            }
            lemma_leading_trivia(self.upcoming());
        }
        let res = match self.peek_full() {
            Some((Token::Word, text)) => parse_u8(text),
            _ => None,
        };
        let ghost up = self.upcoming();
        if self.next_not_trivia().is_none() {
            return None;
        }
        let ghost n = leading_trivia(up) as int;
        assert(self.inner_stream() =~= up.skip(n));
        self.eat_if(Token::Right(bk));
        proof {
            if up[n].0 == Token::Right(bk) {
                if up.skip(n + 1).len() > 0 {
                    assert(up.skip(n + 1).drop_first() =~= up.skip(n + 2));
                }
                assert(self.inner_stream() =~= up.skip(n + 1));
            } else {
                assert(self.inner_stream() =~= up.skip(n));
            }
        }
        res
    }

    /// Takes the current token if it is a command name, moves on to the token
    /// after the trivia that follow, and over that one too if it closes `bk`.
    /// Where nothing follows but trivia, the result is `None`.
    pub fn peek_cmd_name_opt(&mut self, bk: BraceKind) -> (r: Option<Tok<'a>>)
        ensures
            final(self).peek_outer == old(self).peek_outer,
            final(self).inner.spec_commands() == old(self).inner.spec_commands(),
            ({
                let up = old(self).upcoming();
                let n = leading_trivia(up) as int;
                if n < up.len() {
                    &&& r == match old(self).peek_inner.peeked {
                        Some((Token::CommandName(c), text)) => Some((Token::CommandName(c), text)),
                        _ => None,
                    }
                    &&& final(self).inner_stream() == up.skip(
                        if up[n].0 == Token::Right(bk) {
                            n + 1
                        } else {
                            n
                        },
                    )
                } else {
                    r is None && final(self).inner_stream().len() == 0
                }
            }),
            final(self).settled(),
            old(self).settled() ==> final(self).inner_stream() == past_closer(
                old(self).inner_stream(),
                bk,
            ),
    {
        proof {
            if old(self).settled() {
                old(self).lemma_settled();
            }
            lemma_leading_trivia(self.upcoming());
        }
        let res = match self.peek_full() {
            Some((Token::CommandName(c), text)) => Some((Token::CommandName(c), text)),
            _ => None,
        };
        let ghost up = self.upcoming();
        if self.next_not_trivia().is_none() {
            return None;
        }
        let ghost n = leading_trivia(up) as int;
        assert(self.inner_stream() =~= up.skip(n));
        self.eat_if(Token::Right(bk));
        proof {
            if up[n].0 == Token::Right(bk) {
                if up.skip(n + 1).len() > 0 {
                    assert(up.skip(n + 1).drop_first() =~= up.skip(n + 2));
                }
                assert(self.inner_stream() =~= up.skip(n + 1));
            } else {
                assert(self.inner_stream() =~= up.skip(n));
            }
        }
        res
    }

    /// The inner stream is its current token, if any, and the upcoming ones.
    pub proof fn lemma_inner_stream(&self)
        ensures
            self.current() is None ==> self.inner_stream() == self.upcoming(),
            self.current() matches Some(t) ==> {
                &&& self.inner_stream() == seq![t] + self.upcoming()
                &&& self.inner_stream().len() == 1 + self.upcoming().len()
                &&& self.inner_stream()[0] == t
                &&& self.inner_stream().drop_first() == self.upcoming()
            },
    {
        match self.current() {
            Some(t) => {
                assert(self.inner_stream() =~= seq![t] + self.upcoming());
                assert(self.inner_stream().drop_first() =~= self.upcoming());
            },
            None => {
                assert(self.inner_stream() =~= self.upcoming());
            },
        }
    }

    /// Collects the tokens from the current one up to the first `bk` closer
    /// that stands outside any curly braces opened on the way, and moves on past
    /// that closer. Where there is none, it collects the whole stream.
    pub fn read_until_balanced(&mut self, bk: BraceKind) -> (r: Vec<Tok<'a>>)
        ensures
            final(self).peek_outer == old(self).peek_outer,
            final(self).inner.spec_commands() == old(self).inner.spec_commands(),
            ({
                let all = old(self).inner_stream();
                let e = balanced_end(all, 0, Token::Right(bk));
                &&& view_toks(r@) == all.take(e)
                &&& if e < all.len() {
                    final(self).inner_stream() == all.skip(e + 1)
                } else {
                    final(self).inner_stream().len() == 0
                }
            }),
            final(self).settled(),
    {
        let until_tok = Token::Right(bk);
        let ghost all = self.inner_stream();
        let buffered = self.peek_inner.buf.len();
        let unread = self.inner.rest().as_bytes().len();
        proof {
            lemma_tokens_len(self.inner.remaining(), self.names());
            lemma_utf8_len_bounds(self.inner.remaining());
            lemma_balanced_end(all, 0, until_tok);
            self.lemma_inner_stream();
        }
        let mut curly_level: i128 = 0;
        let mut res: Vec<Tok<'a>> = Vec::new();
        let mut cur = match self.peek_full() {
            Some(t) => Some(t),
            None => self.next_full(),
        };
        let ghost mut i: int = 0;
        proof {
            self.lemma_inner_stream();
            if all.len() > 0 {
                lemma_skip_step(all, 0);
            }
            assert(all.skip(0) =~= all);
            assert(all.take(0) =~= Seq::<TokView>::empty());
            assert(self.inner_stream() =~= all);
            assert(view_toks(res@) =~= all.take(0));
        }
        loop
            invariant
                0 <= i <= all.len(),
                all.len() <= 1 + buffered + unread,
                self.inner_stream() == all.skip(i),
                cur == self.peek_inner.peeked,
                cur is None ==> self.upcoming().len() == 0,
                view_toks(res@) == all.take(i),
                curly_level == curly_depth(all.take(i)),
                -i <= curly_level <= i,
                balanced_end(all, 0, until_tok) == balanced_end(all, i, until_tok),
                self.peek_outer == old(self).peek_outer,
                self.inner.spec_commands() == old(self).inner.spec_commands(),
            ensures
                i == balanced_end(all, 0, until_tok),
                i < all.len() ==> (cur matches Some(t) && t.0 == until_tok),
                i >= all.len() ==> cur is None,
            decreases all.len() - i,
        {
            proof {
                self.lemma_inner_stream();
            }
            let (e, text) = match cur {
                Some(t) => t,
                None => {
                    break ;
                },
            };
            proof {
                lemma_skip_step(all, i);
            }
            if curly_level == 0 && e == until_tok {
                break ;
            }
            match e {
                Token::Left(BraceKind::Curly) => {
                    curly_level += 1;
                },
                Token::Right(BraceKind::Curly) => {
                    curly_level -= 1;
                },
                _ => {},
            }
            res.push((e, text));
            proof {
                assert(all.take(i + 1).drop_last() =~= all.take(i));
                assert(view_toks(res@) =~= all.take(i + 1));
            }
            cur = self.next_full();
            proof {
                self.lemma_inner_stream();
                if i + 1 < all.len() {
                    lemma_skip_step(all, i + 1);
                }
                assert(self.inner_stream() =~= all.skip(i + 1));
                i = i + 1;
            }
        }
        proof {
            self.lemma_inner_stream();
            if i < all.len() {
                lemma_skip_step(all, i);
            }
        }
        self.eat_if(until_tok);
        proof {
            self.lemma_inner_stream();
            if i < all.len() {
                if i + 1 < all.len() {
                    lemma_skip_step(all, i + 1);
                }
                assert(self.inner_stream() =~= all.skip(i + 1));
            }
        }
        res
    }
}

/// The sequence from `i` on is the element at `i` and the sequence from `i + 1` on.
pub proof fn lemma_skip_step<A>(s: Seq<A>, i: int)
    requires
        0 <= i < s.len(),
    ensures
        s.skip(i).len() > 0,
        s.skip(i)[0] == s[i],
        s.skip(i).drop_first() == s.skip(i + 1),
        s.skip(i) == seq![s[i]] + s.skip(i + 1),
{
    assert(s.skip(i).drop_first() =~= s.skip(i + 1));
    assert(s.skip(i) =~= seq![s[i]] + s.skip(i + 1));
}

/// Trivia up to `i`, and none at `i`, make `i` the number of leading trivia.
pub proof fn lemma_trivia_run(s: Seq<TokView>, i: int)
    requires
        0 <= i <= s.len(),
        forall|j: int| 0 <= j < i ==> (#[trigger] s[j]).0.spec_is_trivia(),
        i == s.len() || !s[i].0.spec_is_trivia(),
    ensures
        leading_trivia(s) == i,
    decreases i,
{
    if i > 0 {
        let t = s.drop_first();
        assert forall|j: int| 0 <= j < i - 1 implies (#[trigger] t[j]).0.spec_is_trivia() by {
            assert(t[j] == s[j + 1]);
        }
        lemma_trivia_run(t, i - 1);
    }
}

} // verus!
