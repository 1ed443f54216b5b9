//! The parser: from the token stream to a concrete syntax tree.
//!
//! Every function here reads tokens off the lexer and hands back what it built
//! from them. Each contract says three things of what was built: it is what the
//! grammar reads off the same tokens, its leaves spell exactly the tokens that
//! were read, and every node of it has the shape of its kind.

use vstd::prelude::*;
use vstd::utf8::*;

use crate::command_spec::{ArgKind, ArgSlot, Associativity, CommandDescriptor, CommandSpec};
use crate::grammar::{
    argument_read, arguments_read, atom_read, attach_read, block_comment_read, char_read,
    command_item_read, command_read, comment_tail_read, env_name_read, environment_read,
    group_read, item_read, items_read, kept_len, last_item_view, leaf,
    missing_mark, name_leaf, node, reshapes, slot_read, text_read, text_tail_read,
    token_leaf, tree_of, trivia_read, One, Out, Stream,
};
use crate::lexer::{BumpTokenStream, Lexer};
use crate::scan::tokens_of;
use crate::shape::{
    closer, all_sound, arg_count, extends, extends_by_leaves, group_closed, group_cut, is_leaf_of,
    is_missing_mark, is_node_of, is_trivia_leaf, lemma_all_sound_split, lemma_extends,
    lemma_extends_trans, lemma_name_index_bound, lemma_push_shape, name_index, sound,
    };
use crate::syntax::{
    elem_text, elems_text, kind_of_token, leaf_kind, lemma_text_concat, lemma_text_push,
    lemma_view_concat, lemma_view_elems, lemma_view_push, view_elem, view_elems, ElemView,
    SyntaxElement, SyntaxKind, SyntaxNode, };
use crate::text::{
    first_char, lemma_prefix_boundary, lemma_utf8_len_bounds,
    lemma_utf8_len_split, parse_u8, split_chars, str_eq, utf8_len, width,
};
use crate::macro_engine::{engine_stream, MacroEngine};
use crate::token::{command_name, name_of, BraceKind, CommandName, Token};

verus! {

/// The closers at which the list that is being parsed ends: that of the scope
/// itself, and those of the scopes around it.
#[derive(Debug, PartialEq, Eq, Clone, Copy, Structural)]
pub struct Scope {
    /// `}` ends the list
    pub curly: bool,
    /// `]` ends the list
    pub bracket: bool,
    /// `)` ends the list
    pub paren: bool,
    /// `\end` ends the list
    pub env: bool,
}

impl Scope {
    /// Whether the list ends before the token `t`.
    pub open spec fn spec_stops(self, t: Token) -> bool {
        match t {
            Token::Right(BraceKind::Curly) => self.curly,
            Token::Right(BraceKind::Bracket) => self.bracket,
            Token::Right(BraceKind::Paren) => self.paren,
            Token::CommandName(CommandName::EndEnvironment) => self.env,
            _ => false,
        }
    }

    /// Whether the list ends before the token `t`.
    #[verifier::when_used_as_spec(spec_stops)]
    pub fn stops(self, t: Token) -> (r: bool)
        ensures
            r == self.spec_stops(t),
    {
        match t {
            Token::Right(BraceKind::Curly) => self.curly,
            Token::Right(BraceKind::Bracket) => self.bracket,
            Token::Right(BraceKind::Paren) => self.paren,
            Token::CommandName(CommandName::EndEnvironment) => self.env,
            _ => false,
        }
    }

    /// The scope of the root, which nothing ends but the end of the input.
    pub fn root() -> (r: Self)
        ensures
            r == Self::spec_root(),
    {
        Scope { curly: false, bracket: false, paren: false, env: false }
    }

    /// The scope of a group of kind `k` inside this scope.
    pub open spec fn spec_within(self, k: BraceKind) -> Self {
        match k {
            BraceKind::Curly => Scope { curly: true, ..self },
            BraceKind::Bracket => Scope { bracket: true, ..self },
            BraceKind::Paren => Scope { paren: true, ..self },
        }
    }

    /// The scope of the body of an environment inside this scope.
    pub open spec fn spec_within_env(self) -> Self {
        Scope { env: true, ..self }
    }

    /// The scope of the root.
    pub open spec fn spec_root() -> Self {
        Scope { curly: false, bracket: false, paren: false, env: false }
    }

    /// The scope of a group of kind `k` inside this scope.
    #[verifier::when_used_as_spec(spec_within)]
    pub fn within(self, k: BraceKind) -> (r: Self)
        ensures
            r == self.spec_within(k),
    {
        match k {
            BraceKind::Curly => Scope { curly: true, ..self },
            BraceKind::Bracket => Scope { bracket: true, ..self },
            BraceKind::Paren => Scope { paren: true, ..self },
        }
    }

    /// The scope of the body of an environment inside this scope.
    #[verifier::when_used_as_spec(spec_within_env)]
    pub fn within_env(self) -> (r: Self)
        ensures
            r == self.spec_within_env(),
    {
        Scope { env: true, ..self }
    }
}

/// The kind of the node of a group.
pub open spec fn group_kind(k: BraceKind) -> SyntaxKind {
    match k {
        BraceKind::Curly => SyntaxKind::ItemCurly,
        BraceKind::Bracket => SyntaxKind::ItemBracket,
        BraceKind::Paren => SyntaxKind::ItemParen,
    }
}

/// Adding to `items` an element that spells the difference between the texts
/// `pre` and `post` keeps the sum of what was built and what is left.
pub proof fn lemma_push_total(
    items: Seq<SyntaxElement>,
    e: SyntaxElement,
    pre: Seq<char>,
    post: Seq<char>,
)
    requires
        pre == elem_text(e) + post,
    ensures
        elems_text(items.push(e)) + post == elems_text(items) + pre,
{
    lemma_text_push(items, e);
    assert(elems_text(items.push(e)) + post =~= elems_text(items) + pre);
}

/// Putting `a` before both sides of an equation between texts keeps it.
pub proof fn lemma_rebalance(
    a: Seq<char>,
    e: Seq<char>,
    t1: Seq<char>,
    b: Seq<char>,
    t0: Seq<char>,
)
    requires
        e + t1 == b + t0,
    ensures
        (a + e) + t1 == (a + b) + t0,
{
    assert((a + e) + t1 =~= a + (e + t1));
    assert((a + b) + t0 =~= a + (b + t0));
}

/// Whether `e` is a leaf of white space, a line break or a comment.
pub fn trivia_leaf(e: &SyntaxElement) -> (r: bool)
    ensures
        r == is_trivia_leaf(*e),
{
    match e {
        SyntaxElement::Token(t) => t.kind == SyntaxKind::TokenWhiteSpace || t.kind
            == SyntaxKind::TokenLineBreak || t.kind == SyntaxKind::TokenComment,
        SyntaxElement::Node(_) => false,
    }
}

/// The index of the last element of `s` that is no trivia leaf, or -1.
pub open spec fn last_item(s: Seq<SyntaxElement>) -> int
    decreases s.len(),
{
    if s.len() == 0 {
        -1
    } else if is_trivia_leaf(s.last()) {
        last_item(s.drop_last())
    } else {
        s.len() - 1
    }
}

/// The last item of a sequence is where the last item of its views is.
pub proof fn lemma_last_item_view(s: Seq<SyntaxElement>)
    ensures
        last_item(s) == last_item_view(view_elems(s)),
    decreases s.len(),
{
    lemma_view_elems(s);
    if s.len() > 0 {
        lemma_view_elems(s.drop_last());
        assert(view_elems(s).drop_last() =~= view_elems(s.drop_last()));
        lemma_last_item_view(s.drop_last());
    }
}

/// Takes the last item off `items`, together with the trivia after it. Where
/// `items` holds nothing but trivia, it takes nothing.
pub fn split_last_item<'a>(items: &mut Vec<SyntaxElement<'a>>) -> (r: Vec<SyntaxElement<'a>>)
    ensures
        old(items)@ == final(items)@ + r@,
        elems_text(old(items)@) == elems_text(final(items)@) + elems_text(r@),
        last_item(old(items)@) < 0 ==> r@.len() == 0,
        last_item(old(items)@) >= 0 ==> final(items)@.len() == last_item(old(items)@),
        view_elems(final(items)@) == view_elems(old(items)@).take(
            kept_len(view_elems(old(items)@)),
        ),
        view_elems(r@) == view_elems(old(items)@).skip(kept_len(view_elems(old(items)@))),
{
    let mut i: usize = items.len();
    assert(items@.take(i as int) =~= items@);
    while i > 0 && trivia_leaf(&items[i - 1])
        invariant
            i <= items@.len(),
            items@ == old(items)@,
            last_item(items@) == last_item(items@.take(i as int)),
        decreases i,
    {
        proof {
            assert(items@.take(i as int).drop_last() =~= items@.take(i - 1));
        }
        i -= 1;
    }
    proof {
        assert(items@.take(items@.len() as int) =~= items@);
    }
    let r = if i == 0 {
        Vec::new()
    } else {
        items.split_off(i - 1)
    };
    proof {
        assert(old(items)@ =~= items@ + r@);
        lemma_text_concat(items@, r@);
        lemma_last_item_view(old(items)@);
        lemma_view_concat(items@, r@);
        lemma_view_elems(items@);
        lemma_view_elems(r@);
        lemma_view_elems(old(items)@);
        let whole = view_elems(old(items)@);
        assert(whole.take(items@.len() as int) =~= view_elems(items@));
        assert(whole.skip(items@.len() as int) =~= view_elems(r@));
    }
    r
}

/// The name of an environment, as contracts see it.
pub open spec fn view_name(name: Option<&str>) -> Option<Seq<char>> {
    match name {
        Some(n) => Some(n@),
        None => None,
    }
}

/// The parser: a lexer and the commands that direct it.
pub struct Parser<'a, S: BumpTokenStream<'a>> {
    /// The token stream
    lexer: Lexer<'a, S>,
    /// The declared commands
    commands: &'a CommandSpec,
}

impl<'a, S: BumpTokenStream<'a>> Parser<'a, S> {
    /// What holds of a parser between calls.
    pub closed spec fn wf(&self) -> bool {
        self.lexer.wf() && self.lexer.names() == self.commands.names()
    }

    /// The declared commands.
    pub closed spec fn spec_commands(&self) -> &'a CommandSpec {
        self.commands
    }

    /// The tokens that are still to be read.
    pub closed spec fn stream(&self) -> Stream {
        self.lexer.stream()
    }

    /// The text of the tokens that are still to be read.
    pub closed spec fn text(&self) -> Seq<char> {
        self.lexer.text()
    }

    /// The number of tokens that are still to be read.
    pub open spec fn fuel(&self) -> nat {
        self.stream().len()
    }

    /// The kind of the current token.
    pub closed spec fn head_kind(&self) -> Option<Token> {
        self.lexer.head_kind()
    }

    /// The text of the current token.
    pub closed spec fn head_text(&self) -> Seq<char> {
        self.lexer.head_text()
    }

    /// Whether the current token names a command that takes its argument
    /// otherwise than after its name, slot by slot.
    pub open spec fn head_reshapes(&self) -> bool {
        reshapes(self.spec_commands()@, name_of(self.head_text()))
    }

    /// The state `post` is reached from `pre` by reading `emitted`.
    pub open spec fn follows(pre: &Self, post: &Self, emitted: Seq<char>) -> bool {
        &&& post.wf()
        &&& post.spec_commands() == pre.spec_commands()
        &&& post.fuel() <= pre.fuel()
        &&& pre.text() == emitted + post.text()
    }

    /// The state `post` is reached from `pre` by reading the element `e`,
    /// which is sound.
    pub open spec fn yields(pre: &Self, post: &Self, e: SyntaxElement) -> bool {
        Self::follows(pre, post, elem_text(e)) && sound(e, pre.spec_commands()@)
    }

    /// The state `post` is reached from `pre` by reading what was added to
    /// `out0` to give `out1`; what was added is sound.
    pub open spec fn grows(
        pre: &Self,
        out0: Seq<SyntaxElement>,
        post: &Self,
        out1: Seq<SyntaxElement>,
    ) -> bool {
        &&& post.wf()
        &&& post.spec_commands() == pre.spec_commands()
        &&& post.fuel() <= pre.fuel()
        &&& elems_text(out1) + post.text() == elems_text(out0) + pre.text()
        &&& extends(out0, out1)
        &&& all_sound(out0, pre.spec_commands()@) ==> all_sound(out1, pre.spec_commands()@)
    }

    /// The elements `out` and the state `post` are what the grammar wants.
    pub open spec fn reads(pre: &Self, post: &Self, out: Seq<SyntaxElement>, want: Out) -> bool {
        &&& view_elems(out) == want.items
        &&& post.stream() == want.rest
        &&& post.stream().len() <= pre.stream().len()
    }

    /// The element `e` and the state `post` are what the grammar wants.
    pub open spec fn reads_one(pre: &Self, post: &Self, e: SyntaxElement, want: One) -> bool {
        &&& view_elem(e) == want.elem
        &&& post.stream() == want.rest
        &&& post.stream().len() < pre.stream().len()
    }

    /// The current token is the first of the stream.
    pub proof fn lemma_stream_head(&self)
        requires
            self.wf(),
        ensures
            self.head_kind() matches Some(k) ==> self.stream().len() > 0 && self.stream()[0] == (
                k,
                self.head_text(),
            ),
            self.head_kind() is None ==> self.stream().len() == 0,
    {
        self.lexer.lemma_head();
    }

    /// Growing twice is growing.
    pub proof fn lemma_grows_trans(
        a: &Self,
        out0: Seq<SyntaxElement>,
        b: &Self,
        out1: Seq<SyntaxElement>,
        c: &Self,
        out2: Seq<SyntaxElement>,
    )
        requires
            Self::grows(a, out0, b, out1),
            Self::grows(b, out1, c, out2),
        ensures
            Self::grows(a, out0, c, out2),
            extends_by_leaves(out0, out1) && extends_by_leaves(out1, out2) ==> extends_by_leaves(
                out0,
                out2,
            ),
    {
        lemma_extends_trans(out0, out1, out2);
    }

    /// Adding a sound element that spells what was read is growing.
    pub proof fn lemma_grows_push(pre: &Self, out: Seq<SyntaxElement>, post: &Self, e: SyntaxElement)
        requires
            Self::yields(pre, post, e),
        ensures
            Self::grows(pre, out, post, out.push(e)),
            view_elems(out.push(e)) == view_elems(out).push(view_elem(e)),
    {
        lemma_push_shape(out, e, pre.spec_commands()@);
        lemma_view_push(out, e);
        lemma_push_total(out, e, pre.text(), post.text());
    }

    /// A parser on the given lexer.
    pub fn new(lexer: Lexer<'a, S>, commands: &'a CommandSpec) -> (r: Self)
        requires
            lexer.wf(),
            lexer.names() == commands.names(),
        ensures
            r.wf(),
            r.spec_commands() == commands,
            r.text() == lexer.text(),
            r.stream() == lexer.stream(),
    {
        Parser { lexer, commands }
    }

    /// Takes the current token as a leaf of the kind `kind`.
    fn bump_as(&mut self, out: &mut Vec<SyntaxElement<'a>>, kind: SyntaxKind)
        requires
            old(self).wf(),
            old(self).head_kind() is Some,
        ensures
            Self::grows(old(self), old(out)@, final(self), final(out)@),
            extends_by_leaves(old(out)@, final(out)@),
            final(self).fuel() < old(self).fuel(),
            final(out)@.len() == old(out)@.len() + 1,
            final(out)@.last() matches SyntaxElement::Token(t) && t.kind == kind && t.text@ == old(
                self).head_text(),
            view_elems(final(out)@) == view_elems(old(out)@).push(
                leaf(kind, old(self).head_text()),
            ),
            final(self).stream() == old(self).stream().drop_first(),
    {
        proof {
            self.lexer.lemma_head();
        }
        match self.lexer.eat() {
            Some((_, text)) => {
                let e = SyntaxElement::leaf(kind, text);
                proof {
                    Self::lemma_grows_push(old(self), out@, self, e);
                    assert(self.stream() =~= old(self).stream().drop_first());
                }
                out.push(e);
            },
            None => {},
        }
    }

    /// Takes the current token as a leaf of its own kind.
    fn bump(&mut self, out: &mut Vec<SyntaxElement<'a>>)
        requires
            old(self).wf(),
            old(self).head_kind() is Some,
        ensures
            Self::grows(old(self), old(out)@, final(self), final(out)@),
            extends_by_leaves(old(out)@, final(out)@),
            final(self).fuel() < old(self).fuel(),
            final(out)@.len() == old(out)@.len() + 1,
            final(out)@.last() matches SyntaxElement::Token(t) && t.kind == leaf_kind(
                old(self).head_kind()->0,
            ) && t.text@ == old(self).head_text(),
            view_elems(final(out)@) == view_elems(old(out)@).push(
                leaf(leaf_kind(old(self).head_kind()->0), old(self).head_text()),
            ),
            final(self).stream() == old(self).stream().drop_first(),
    {
        match self.lexer.peek() {
            Some(tok) => {
                self.bump_as(out, kind_of_token(tok));
            },
            None => {},
        }
    }

    /// Marks with an empty error leaf that something is missing here.
    fn missing(&self, out: &mut Vec<SyntaxElement<'a>>)
        ensures
            final(out)@.len() == old(out)@.len() + 1,
            is_missing_mark(final(out)@.last()),
            extends_by_leaves(old(out)@, final(out)@),
            elems_text(final(out)@) == elems_text(old(out)@),
            view_elems(final(out)@) == view_elems(old(out)@).push(missing_mark()),
    {
        let e = SyntaxElement::leaf(SyntaxKind::TokenError, "");
        proof {
            reveal_strlit("");
            lemma_text_push(out@, e);
            lemma_view_push(out@, e);
            assert(""@ =~= Seq::<char>::empty());
            assert(elems_text(out@) + elem_text(e) =~= elems_text(out@));
            assert(out@.push(e).take(out@.len() as int) =~= out@);
        }
        out.push(e);
    }

    /// Takes the trivia from the current token on as leaves.
    fn trivia(&mut self, out: &mut Vec<SyntaxElement<'a>>)
        requires
            old(self).wf(),
        ensures
            Self::grows(old(self), old(out)@, final(self), final(out)@),
            extends_by_leaves(old(out)@, final(out)@),
            forall|i: int|
                old(out)@.len() <= i < final(out)@.len() ==> is_trivia_leaf(
                    #[trigger] final(out)@[i],
                ),
            final(self).head_kind() matches Some(t) ==> !t.spec_is_trivia(),
            Self::reads(
                old(self),
                final(self),
                final(out)@,
                trivia_read(old(self).stream(), view_elems(old(out)@)),
            ),
    {
        proof {
            assert(out@.take(out@.len() as int) =~= out@);
        }
        let ghost want = trivia_read(self.stream(), view_elems(out@));
        loop
            invariant
                Self::grows(old(self), old(out)@, self, out@),
                extends_by_leaves(old(out)@, out@),
                forall|i: int| old(out)@.len() <= i < out@.len() ==> is_trivia_leaf(#[trigger] out@[i]),
                want == trivia_read(old(self).stream(), view_elems(old(out)@)),
                trivia_read(self.stream(), view_elems(out@)) == want
                    && self.stream().len() <= old(self).stream().len(),
            ensures
                self.head_kind() matches Some(t) ==> !t.spec_is_trivia(),
                want == (Out {
                    items: view_elems(out@),
                    rest: self.stream(),
                }),
            decreases self.fuel(),
        {
            proof {
                self.lemma_stream_head();
            }
            match self.lexer.peek() {
                Some(tok) => {
                    if !tok.is_trivia() {
                        break ;
                    }
                    let ghost pre = *self;
                    let ghost before = out@;
                    self.bump(out);
                    proof {
                        Self::lemma_grows_trans(old(self), old(out)@, &pre, before, self, out@);
                        lemma_extends(before, out@, self.spec_commands()@);
                    }
                },
                None => {
                    break ;
                },
            }
        }
    }

    /// A run of words and the trivia between and after them, as a text node.
    fn text_run(&mut self) -> (r: SyntaxElement<'a>)
        requires
            old(self).wf(),
            old(self).head_kind() == Some(Token::Word),
        ensures
            Self::yields(old(self), final(self), r),
            is_node_of(r, SyntaxKind::ItemText),
            final(self).fuel() < old(self).fuel(),
            Self::reads_one(old(self), final(self), r, text_read(old(self).stream())),
    {
        let mut children: Vec<SyntaxElement<'a>> = Vec::new();
        let ghost none = children@;
        let ghost s = self.stream();
        proof {
            self.lemma_stream_head();
            lemma_view_elems(none);
        }
        self.bump(&mut children);
        let ghost want = text_tail_read(s.drop_first(), seq![token_leaf(s[0])]);
        proof {
            assert(view_elems(children@) =~= seq![token_leaf(s[0])]);
        }
        loop
            invariant
                Self::grows(old(self), none, self, children@),
                none.len() == 0,
                self.fuel() < old(self).fuel(),
                children@.len() >= 1,
                forall|i: int|
                    0 <= i < children@.len() ==> is_leaf_of(
                        #[trigger] children@[i],
                        SyntaxKind::TokenWord,
                    ) || is_trivia_leaf(children@[i]),
                is_leaf_of(children@[0], SyntaxKind::TokenWord),
                s == old(self).stream(),
                text_tail_read(self.stream(), view_elems(children@))
                    == want && self.stream().len() < s.len(),
            ensures
                want == (Out {
                    items: view_elems(children@),
                    rest: self.stream(),
                }),
            decreases self.fuel(),
        {
            proof {
                self.lemma_stream_head();
            }
            match self.lexer.peek() {
                Some(tok) => {
                    if !(tok.is_trivia() || tok == Token::Word) {
                        break ;
                    }
                    let ghost pre = *self;
                    let ghost before = children@;
                    self.bump(&mut children);
                    proof {
                        Self::lemma_grows_trans(old(self), none, &pre, before, self, children@);
                        lemma_extends(before, children@, self.spec_commands()@);
                    }
                },
                None => {
                    break ;
                },
            }
        }
        proof {
            assert(elems_text(none) + old(self).text() =~= old(self).text());
        }
        SyntaxElement::node(SyntaxKind::ItemText, children)
    }

    /// A group: the opening brace, the items up to the closing brace of the
    /// same kind, that brace, and the trivia after it. Where the group is cut
    /// short by the end of a scope around it, an empty error leaf stands where
    /// the closing brace is missing.
    fn group(&mut self, kind: BraceKind, scope: Scope) -> (r: SyntaxElement<'a>)
        requires
            old(self).wf(),
            old(self).head_kind() == Some(Token::Left(kind)),
        ensures
            Self::yields(old(self), final(self), r),
            is_node_of(r, group_kind(kind)),
            final(self).fuel() < old(self).fuel(),
            Self::reads_one(
                old(self),
                final(self),
                r,
                group_read(old(self).stream(), kind, scope, old(self).spec_commands()@),
            ),
        decreases old(self).fuel(), 5nat,
    {
        let ghost commands = self.spec_commands()@;
        let ghost s = self.stream();
        let node_kind = match kind {
            BraceKind::Curly => SyntaxKind::ItemCurly,
            BraceKind::Bracket => SyntaxKind::ItemBracket,
            BraceKind::Paren => SyntaxKind::ItemParen,
        };
        let mut children: Vec<SyntaxElement<'a>> = Vec::new();
        proof {
            assert(elems_text(children@) + self.text() =~= self.text());
            self.lemma_stream_head();
            lemma_view_elems(children@);
        }
        self.bump(&mut children);
        let ghost opened = children@;
        let mut items = self.item_list(scope.within(kind), false);
        proof {
            lemma_text_concat(children@, items@);
            lemma_view_concat(children@, items@);
            assert(elems_text(children@ + items@) + self.text()
                =~= old(self).text());
            assert((opened + items@)[0] == opened[0]);
            assert(view_elems(opened) =~= seq![token_leaf(s[0])]);
            self.lemma_stream_head();
        }
        children.append(&mut items);
        let ghost filled = children@;
        assert(all_sound(filled, commands));
        let closed = match self.lexer.peek() {
            Some(tok) => tok == Token::Right(kind),
            None => false,
        };
        if closed {
            let ghost at_close = *self;
            self.bump(&mut children);
            let ghost with_closer = children@;
            let ghost after_close = *self;
            self.trivia(&mut children);
            proof {
                Self::lemma_grows_trans(
                    &at_close,
                    filled,
                    &after_close,
                    with_closer,
                    self,
                    children@,
                );
                lemma_extends(filled, children@, commands);
                lemma_extends(with_closer, children@, commands);
                let j = with_closer.len() - 1;
                assert(children@[j] == with_closer[j]);
                assert(is_leaf_of(children@[j], closer(node_kind)));
                assert(group_closed(node_kind, children@));
            }
        } else {
            self.missing(&mut children);
            proof {
                lemma_extends(filled, children@, commands);
                assert(group_cut(node_kind, children@));
            }
        }
        SyntaxElement::node(node_kind, children)
    }

    /// The role of the command that the current token names, if it is declared.
    fn head_role(&self) -> (r: Option<Associativity>)
        requires
            self.wf(),
        ensures
            r is Some <==> self.spec_commands()@.contains_key(name_of(self.head_text())),
            r matches Some(a) ==> a == self.spec_commands()@[name_of(self.head_text())].role,
    {
        match self.lexer.peek_text() {
            Some(text) => self.commands.role(command_name(text)),
            None => {
                proof {
                    reveal_strlit("");
                    assert(name_of(self.head_text()) =~= ""@);
                }
                self.commands.role("")
            },
        }
    }

    /// Takes the first character of the current token as a leaf of a word.
    fn bump_char(&mut self, out: &mut Vec<SyntaxElement<'a>>)
        requires
            old(self).wf(),
            old(self).head_kind() is Some,
        ensures
            Self::grows(old(self), old(out)@, final(self), final(out)@),
            extends_by_leaves(old(out)@, final(out)@),
            Self::reads(
                old(self),
                final(self),
                final(out)@,
                (Out {
                    items: view_elems(old(out)@).push(char_read(old(self).stream()).elem),
                    rest: char_read(old(self).stream()).rest,
                }),
            ),
    {
        proof {
            self.lemma_stream_head();
            self.lexer.lemma_head();
        }
        let text = match self.lexer.peek_text() {
            Some(text) => text,
            None => {
                return ;
            },
        };
        match first_char(text) {
            None => {
                self.bump_as(out, SyntaxKind::TokenWord);
            },
            Some(c) => {
                let w = width(c);
                proof {
                    assert(text@.take(1) =~= seq![c]);
                    lemma_prefix_boundary(text@, 1);
                    lemma_utf8_len_split(text@, 1);
                    lemma_utf8_len_bounds(text@.skip(1));
                    if utf8_len(text@) <= w {
                        assert(text@ =~= text@.take(1));
                    }
                }
                let (first, _) = split_chars(text, w, Ghost(1));
                self.lexer.consume_utf8_bytes(w);
                let e = SyntaxElement::leaf(SyntaxKind::TokenWord, first);
                proof {
                    assert(old(self).text() == text@.take(1) + self.text());
                    if utf8_len(text@) <= w {
                        assert(self.stream() =~= old(self).stream().drop_first());
                    }
                    Self::lemma_grows_push(old(self), out@, self, e);
                    assert(out@.push(e).take(out@.len() as int) =~= out@);
                }
                out.push(e);
            },
        }
    }

    /// A single thing that can stand as an operand or as a term: a curly group,
    /// one character of a word, a command with the arguments after it, or one
    /// of a few single tokens. The result says whether there was one.
    fn atom(&mut self, out: &mut Vec<SyntaxElement<'a>>, scope: Scope) -> (found: bool)
        requires
            old(self).wf(),
        ensures
            Self::grows(old(self), old(out)@, final(self), final(out)@),
            arg_count(final(out)@) == arg_count(old(out)@),
            Self::reads(
                old(self),
                final(self),
                final(out)@,
                atom_read(
                    old(self).stream(),
                    view_elems(old(out)@),
                    scope,
                    old(self).spec_commands()@,
                ).0,
            ),
            found == atom_read(
                old(self).stream(),
                view_elems(old(out)@),
                scope,
                old(self).spec_commands()@,
            ).1,
        decreases old(self).fuel(), 9nat,
    {
        let ghost commands = self.spec_commands()@;
        proof {
            assert(out@.take(out@.len() as int) =~= out@);
            self.lemma_stream_head();
        }
        let tok = match self.lexer.peek() {
            Some(tok) => tok,
            None => {
                return false;
            },
        };
        match tok {
            Token::Left(BraceKind::Curly) => {
                let e = self.group(BraceKind::Curly, scope);
                proof {
                    Self::lemma_grows_push(old(self), out@, self, e);
                    lemma_push_shape(out@, e, commands);
                }
                out.push(e);
                true
            },
            Token::Word => {
                self.bump_char(out);
                proof {
                    lemma_extends(old(out)@, out@, commands);
                }
                true
            },
            Token::CommandName(CommandName::Generic)
            | Token::CommandName(CommandName::Left)
            | Token::CommandName(CommandName::Right) => {
                match self.head_role() {
                    Some(Associativity::Left1)
                    | Some(Associativity::Infix)
                    | Some(Associativity::RightGreedy) => false,
                    _ => {
                        let e = self.prefix_command(scope);
                        proof {
                            Self::lemma_grows_push(old(self), out@, self, e);
                            lemma_push_shape(out@, e, commands);
                        }
                        out.push(e);
                        true
                    },
                }
            },
            Token::Comma
            | Token::Tilde
            | Token::Slash
            | Token::Ditto
            | Token::Semicolon
            | Token::MacroArg(_)
            | Token::Left(_) => {
                self.bump(out);
                proof {
                    lemma_extends(old(out)@, out@, commands);
                }
                true
            },
            _ => false,
        }
    }

    /// What fills the slot `slot`, if anything does.
    fn slot(&mut self, slot: ArgSlot, scope: Scope) -> (r: (Vec<SyntaxElement<'a>>, bool))
        requires
            old(self).wf(),
        ensures
            Self::follows(old(self), final(self), elems_text(r.0@)),
            all_sound(r.0@, old(self).spec_commands()@),
            Self::reads(
                old(self),
                final(self),
                r.0@,
                slot_read(old(self).stream(), slot, scope, old(self).spec_commands()@).0,
            ),
            r.1 == slot_read(
                old(self).stream(),
                slot,
                scope,
                old(self).spec_commands()@,
            ).1,
        decreases old(self).fuel(), 10nat,
    {
        let ghost commands = self.spec_commands()@;
        let mut inner: Vec<SyntaxElement<'a>> = Vec::new();
        let ghost none = inner@;
        proof {
            assert(elems_text(none) + self.text() =~= self.text());
            assert(none.take(0) =~= none);
            lemma_view_elems(none);
            assert(view_elems(none) =~= Seq::<ElemView>::empty());
            self.lemma_stream_head();
        }
        let tok = self.lexer.peek();
        let found = match slot.kind {
            ArgKind::Curly => {
                if tok == Some(Token::Left(BraceKind::Curly)) {
                    let e = self.group(BraceKind::Curly, scope);
                    proof {
                        Self::lemma_grows_push(old(self), inner@, self, e);
                        assert(view_elems(none).push(view_elem(e)) =~= seq![view_elem(e)]);
                    }
                    inner.push(e);
                    true
                } else {
                    false
                }
            },
            ArgKind::Bracket => {
                if tok == Some(Token::Left(BraceKind::Bracket)) {
                    let e = self.group(BraceKind::Bracket, scope);
                    proof {
                        Self::lemma_grows_push(old(self), inner@, self, e);
                        assert(view_elems(none).push(view_elem(e)) =~= seq![view_elem(e)]);
                    }
                    inner.push(e);
                    true
                } else {
                    false
                }
            },
            ArgKind::Term => self.atom(&mut inner, scope),
            ArgKind::CommandName => {
                match tok {
                    Some(Token::CommandName(_)) => {
                        self.bump_as(&mut inner, SyntaxKind::ClauseCommandName);
                        proof {
                            assert(view_elems(inner@) =~= seq![name_leaf(old(self).stream()[0])]);
                        }
                        true
                    },
                    _ => false,
                }
            },
            ArgKind::SmallInt => {
                let number = match self.lexer.peek_text() {
                    Some(text) => tok == Some(Token::Word) && parse_u8(text).is_some(),
                    None => false,
                };
                if number {
                    self.bump(&mut inner);
                    proof {
                        assert(view_elems(inner@) =~= seq![token_leaf(old(self).stream()[0])]);
                    }
                }
                number
            },
        };
        proof {
            assert(Self::grows(old(self), none, self, inner@));
            assert(all_sound(none, commands));
            assert(elems_text(none) =~= Seq::<char>::empty());
            assert(old(self).text() =~= elems_text(inner@) + self.text());
        }
        (inner, found)
    }

    /// One argument of a command: the trivia before it, then the argument in
    /// its wrapper. Where nothing fits the slot the wrapper is empty, and an
    /// empty error leaf follows it if the slot is required.
    fn argument(&mut self, slot: ArgSlot, scope: Scope, out: &mut Vec<SyntaxElement<'a>>)
        requires
            old(self).wf(),
        ensures
            Self::grows(old(self), old(out)@, final(self), final(out)@),
            arg_count(final(out)@) == arg_count(old(out)@) + 1,
            Self::reads(
                old(self),
                final(self),
                final(out)@,
                argument_read(
                    old(self).stream(),
                    slot,
                    scope,
                    old(self).spec_commands()@,
                    view_elems(old(out)@),
                ),
            ),
        decreases old(self).fuel(), 11nat,
    {
        let ghost commands = self.spec_commands()@;
        self.trivia(out);
        proof {
            lemma_extends(old(out)@, out@, commands);
        }
        let ghost pre = *self;
        let ghost skipped = out@;
        let (inner, found) = self.slot(slot, scope);
        let e = SyntaxElement::node(SyntaxKind::ClauseArgument, inner);
        proof {
            assert(Self::yields(&pre, self, e));
            Self::lemma_grows_push(&pre, skipped, self, e);
            lemma_push_shape(skipped, e, commands);
            lemma_extends_trans(old(out)@, skipped, skipped.push(e));
        }
        out.push(e);
        if !found && slot.required {
            let ghost wrapped = out@;
            self.missing(out);
            proof {
                lemma_extends(wrapped, out@, commands);
                lemma_extends_trans(old(out)@, wrapped, out@);
            }
        }
    }

    /// A command with the arguments that follow it: one for each slot if the
    /// command is declared as prefix or matrix, none if it is not declared.
    fn prefix_command(&mut self, scope: Scope) -> (r: SyntaxElement<'a>)
        requires
            old(self).wf(),
            old(self).head_kind() is Some,
            !old(self).head_reshapes(),
        ensures
            Self::yields(old(self), final(self), r),
            is_node_of(r, SyntaxKind::ItemCmd),
            final(self).fuel() < old(self).fuel(),
            Self::reads_one(
                old(self),
                final(self),
                r,
                command_read(old(self).stream(), scope, old(self).spec_commands()@),
            ),
        decreases old(self).fuel(), 5nat,
    {
        let ghost cmds = self.spec_commands()@;
        let ghost s = self.stream();
        let commands = self.commands;
        let descriptor = match self.lexer.peek_text() {
            Some(text) => commands.get(command_name(text)),
            None => None,
        };
        let mut children: Vec<SyntaxElement<'a>> = Vec::new();
        let ghost none = children@;
        proof {
            assert(elems_text(none) + self.text() =~= self.text());
            self.lemma_stream_head();
            lemma_view_elems(none);
        }
        self.bump_as(&mut children, SyntaxKind::ClauseCommandName);
        let ghost named = children@;
        proof {
            assert(named =~= none.push(named.last()));
            lemma_push_shape(none, named.last(), cmds);
            assert(name_index(named) == 0);
            assert(arg_count(named) == 0);
            assert(named.take(named.len() as int) =~= named);
            assert(view_elems(named) =~= seq![name_leaf(s[0])]);
        }
        let ghost at_args = *self;
        match descriptor {
            Some(d) => {
                if d.role == Associativity::Prefix || d.role == Associativity::Matrix {
                    self.arguments(d, scope, &mut children);
                    proof {
                        Self::lemma_grows_trans(old(self), none, &at_args, named, self, children@);
                    }
                }
            },
            None => {},
        }
        proof {
            lemma_extends(named, children@, cmds);
            assert(name_index(children@) == 0);
            assert(children@[0] == named[0]);
        }
        SyntaxElement::node(SyntaxKind::ItemCmd, children)
    }

    /// A subscript, a superscript or a prime on `base`: the base in a
    /// wrapper, the operator, and for a script its operand.
    fn attach(&mut self, base: Vec<SyntaxElement<'a>>, scope: Scope) -> (r: SyntaxElement<'a>)
        requires
            old(self).wf(),
            old(self).head_kind() == Some(Token::Underscore) || old(self).head_kind() == Some(
                Token::Caret,
            ) || old(self).head_kind() == Some(Token::Apostrophe),
            all_sound(base@, old(self).spec_commands()@),
        ensures
            final(self).wf(),
            final(self).spec_commands() == old(self).spec_commands(),
            final(self).fuel() < old(self).fuel(),
            elem_text(r) + final(self).text() == elems_text(base@) + old(
                self).text(),
            sound(r, old(self).spec_commands()@),
            is_node_of(r, SyntaxKind::ItemAttachComponent),
            Self::reads_one(
                old(self),
                final(self),
                r,
                attach_read(
                    old(self).stream(),
                    view_elems(base@),
                    scope,
                    old(self).spec_commands()@,
                ),
            ),
        decreases old(self).fuel(), 5nat,
    {
        let ghost commands = self.spec_commands()@;
        let ghost s = self.stream();
        let op = self.lexer.peek();
        let mut children: Vec<SyntaxElement<'a>> = Vec::new();
        let wrapped = SyntaxElement::node(SyntaxKind::ClauseArgument, base);
        proof {
            lemma_text_push(children@, wrapped);
            assert(elems_text(children@.push(wrapped)) =~= elems_text(base@));
            lemma_push_shape(children@, wrapped, commands);
            lemma_view_push(children@, wrapped);
            lemma_view_elems(children@);
            self.lemma_stream_head();
        }
        children.push(wrapped);
        let ghost based = children@;
        self.bump(&mut children);
        let ghost marked = children@;
        proof {
            lemma_extends(based, marked, commands);
            assert(marked.take(marked.len() as int) =~= marked);
            assert(view_elems(marked) =~= seq![
                node(SyntaxKind::ClauseArgument, view_elems(base@)),
                token_leaf(s[0]),
            ]);
        }
        if op != Some(Token::Apostrophe) {
            let ghost a = *self;
            self.trivia(&mut children);
            let ghost b = *self;
            let ghost spaced = children@;
            self.atom(&mut children, scope);
            proof {
                Self::lemma_grows_trans(&a, marked, &b, spaced, self, children@);
                Self::lemma_grows_trans(old(self), based, &a, marked, self, children@);
            }
        }
        proof {
            lemma_extends(marked, children@, commands);
            assert(children@[0] == marked[0]);
            assert(children@[1] == marked[1]);
        }
        SyntaxElement::node(SyntaxKind::ItemAttachComponent, children)
    }

    /// A command in a list. By its role it takes the item before it (left1),
    /// splits the list (infix), takes the rest of the scope (right-greedy),
    /// or takes the arguments after it.
    fn command_item(&mut self, items: Vec<SyntaxElement<'a>>, scope: Scope, greedy: bool) -> (r:
        Vec<SyntaxElement<'a>>)
        requires
            old(self).wf(),
            old(self).head_kind() is Some,
            all_sound(items@, old(self).spec_commands()@),
        ensures
            final(self).wf(),
            final(self).spec_commands() == old(self).spec_commands(),
            final(self).fuel() < old(self).fuel(),
            elems_text(r@) + final(self).text() == elems_text(items@)
                + old(self).text(),
            all_sound(r@, old(self).spec_commands()@),
            Self::reads(
                old(self),
                final(self),
                r@,
                command_item_read(
                    old(self).stream(),
                    view_elems(items@),
                    scope,
                    greedy,
                    old(self).spec_commands()@,
                ),
            ),
            final(self).stream().len() < old(self).stream().len(),
        decreases old(self).fuel(), 8nat,
    {
        let ghost commands = self.spec_commands()@;
        let ghost s = self.stream();
        let mut items = items;
        let ghost before = items@;
        let role = self.head_role();
        let mut children: Vec<SyntaxElement<'a>> = Vec::new();
        proof {
            self.lemma_stream_head();
            lemma_view_elems(children@);
        }
        match role {
            Some(Associativity::Left1) => {
                let base = split_last_item(&mut items);
                proof {
                    lemma_all_sound_split(items@, base@, commands);
                }
                let wrapped = SyntaxElement::node(SyntaxKind::ClauseArgument, base);
                proof {
                    lemma_text_push(children@, wrapped);
                    assert(elems_text(children@.push(wrapped)) =~= elems_text(base@));
                    lemma_push_shape(children@, wrapped, commands);
                    lemma_view_push(children@, wrapped);
                }
                children.push(wrapped);
                let ghost based = children@;
                self.bump_as(&mut children, SyntaxKind::ClauseCommandName);
                proof {
                    assert(children@ =~= based.push(children@.last()));
                    lemma_push_shape(based, children@.last(), commands);
                    assert(based.drop_last() =~= Seq::<SyntaxElement>::empty());
                    assert(name_index(based) < 0);
                    assert(name_index(children@) == 1);
                    assert(arg_count(children@) == 1);
                    assert(view_elems(children@) =~= seq![view_elem(wrapped), name_leaf(s[0])]);
                }
                let e = SyntaxElement::node(SyntaxKind::ItemCmd, children);
                proof {
                    lemma_text_push(items@, e);
                    lemma_push_shape(items@, e, commands);
                    lemma_view_push(items@, e);
                    lemma_rebalance(
                        elems_text(items@),
                        elem_text(e),
                        self.text(),
                        elems_text(base@),
                        old(self).text(),
                    );
                }
                items.push(e);
                items
            },
            Some(Associativity::Infix) | Some(Associativity::RightGreedy) => {
                let split = !greedy && role == Some(Associativity::Infix);
                let mut rest: Vec<SyntaxElement<'a>> = Vec::new();
                if split {
                    let wrapped = SyntaxElement::node(SyntaxKind::ClauseArgument, items);
                    proof {
                        lemma_text_push(children@, wrapped);
                        assert(elems_text(children@.push(wrapped)) =~= elems_text(before));
                        lemma_push_shape(children@, wrapped, commands);
                        lemma_view_push(children@, wrapped);
                        lemma_view_elems(rest@);
                        assert(children@.push(wrapped).drop_last() =~= Seq::<
                            SyntaxElement,
                        >::empty());
                    }
                    children.push(wrapped);
                } else {
                    rest = items;
                    assert(elems_text(children@) =~= Seq::<char>::empty());
                }
                let ghost left = children@;
                self.bump_as(&mut children, SyntaxKind::ClauseCommandName);
                let ghost named = children@;
                let ghost mid = *self;
                let right = self.item_list(scope, true);
                let wrapped = SyntaxElement::node(SyntaxKind::ClauseArgument, right);
                proof {
                    assert(named =~= left.push(named.last()));
                    lemma_push_shape(left, named.last(), commands);
                    lemma_push_shape(named, wrapped, commands);
                    lemma_view_push(named, wrapped);
                    assert(name_index(left) < 0);
                    lemma_name_index_bound(named.push(wrapped));
                    lemma_push_total(children@, wrapped, mid.text(), self.text());
                    assert(named.push(wrapped)[left.len() as int] == named.last());
                    if split {
                        assert(view_elems(named.push(wrapped)) =~= seq![
                            node(SyntaxKind::ClauseArgument, view_elems(before)),
                            name_leaf(s[0]),
                            view_elem(wrapped),
                        ]);
                    } else {
                        assert(view_elems(named.push(wrapped)) =~= seq![
                            name_leaf(s[0]),
                            view_elem(wrapped),
                        ]);
                    }
                }
                children.push(wrapped);
                let e = SyntaxElement::node(SyntaxKind::ItemCmd, children);
                proof {
                    lemma_text_push(rest@, e);
                    lemma_push_shape(rest@, e, commands);
                    lemma_view_push(rest@, e);
                    if split {
                        assert(elems_text(rest@) =~= Seq::<char>::empty());
                        assert(view_elems(rest@).push(view_elem(e)) =~= seq![view_elem(e)]);
                    }
                    assert(elems_text(rest@.push(e)) + self.text() =~= elems_text(before)
                        + old(self).text());
                }
                rest.push(e);
                rest
            },
            _ => {
                let e = self.prefix_command(scope);
                proof {
                    Self::lemma_grows_push(old(self), items@, self, e);
                }
                items.push(e);
                items
            },
        }
    }

    /// The name of an environment in its curly braces, as a group. The result
    /// is the name, if there is one.
    fn env_name(&mut self, out: &mut Vec<SyntaxElement<'a>>) -> (name: Option<&'a str>)
        requires
            old(self).wf(),
        ensures
            Self::grows(old(self), old(out)@, final(self), final(out)@),
            Self::reads(
                old(self),
                final(self),
                final(out)@,
                env_name_read(old(self).stream(), view_elems(old(out)@)).0,
            ),
            view_name(name) == env_name_read(
                old(self).stream(),
                view_elems(old(out)@),
            ).1,
    {
        let ghost commands = self.spec_commands()@;
        let ghost s = self.stream();
        proof {
            self.lemma_stream_head();
        }
        if self.lexer.peek() != Some(Token::Left(BraceKind::Curly)) {
            proof {
                assert(out@.take(out@.len() as int) =~= out@);
            }
            return None;
        }
        let mut inner: Vec<SyntaxElement<'a>> = Vec::new();
        let ghost none = inner@;
        proof {
            assert(elems_text(none) + self.text() =~= self.text());
            lemma_view_elems(none);
        }
        self.bump(&mut inner);
        let ghost opened = inner@;
        let ghost a = *self;
        let mut name: Option<&'a str> = None;
        proof {
            self.lemma_stream_head();
            assert(view_elems(opened) =~= seq![token_leaf(s[0])]);
        }
        if self.lexer.peek() == Some(Token::Word) {
            name = self.lexer.peek_text();
            self.bump(&mut inner);
        } else {
            proof {
                assert(opened.take(opened.len() as int) =~= opened);
            }
        }
        let ghost worded = inner@;
        let ghost b = *self;
        proof {
            Self::lemma_grows_trans(old(self), none, &a, opened, &b, worded);
            lemma_extends(opened, worded, commands);
            self.lemma_stream_head();
        }
        if self.lexer.peek() == Some(Token::Right(BraceKind::Curly)) {
            self.bump(&mut inner);
            proof {
                Self::lemma_grows_trans(old(self), none, &b, worded, self, inner@);
                lemma_extends(worded, inner@, commands);
                lemma_extends_trans(opened, worded, inner@);
                lemma_extends(opened, inner@, commands);
                let j = inner@.len() - 1;
                assert(is_leaf_of(inner@[j], closer(SyntaxKind::ItemCurly)));
                assert(group_closed(SyntaxKind::ItemCurly, inner@));
            }
        } else {
            self.missing(&mut inner);
            proof {
                lemma_extends(worded, inner@, commands);
                lemma_extends_trans(opened, worded, inner@);
                lemma_extends(opened, inner@, commands);
                assert(group_cut(SyntaxKind::ItemCurly, inner@));
            }
        }
        let e = SyntaxElement::node(SyntaxKind::ItemCurly, inner);
        proof {
            assert(old(self).text() =~= elem_text(e) + self.text());
            assert(all_sound(none, commands));
            assert(Self::yields(old(self), self, e));
            Self::lemma_grows_push(old(self), out@, self, e);
        }
        out.push(e);
        name
    }

    /// The arguments for the slots of `d`, after what `out` holds.
    fn arguments(
        &mut self,
        d: &CommandDescriptor,
        scope: Scope,
        out: &mut Vec<SyntaxElement<'a>>,
    )
        requires
            old(self).wf(),
        ensures
            Self::grows(old(self), old(out)@, final(self), final(out)@),
            arg_count(final(out)@) == arg_count(old(out)@) + d.slots@.len(),
            Self::reads(
                old(self),
                final(self),
                final(out)@,
                arguments_read(
                    old(self).stream(),
                    d.slots@,
                    0,
                    scope,
                    old(self).spec_commands()@,
                    view_elems(old(out)@),
                ),
            ),
        decreases old(self).fuel(), 12nat,
    {
        let ghost cmds = self.spec_commands()@;
        let ghost want = arguments_read(
            self.stream(),
            d.slots@,
            0,
            scope,
            cmds,
            view_elems(out@),
        );
        let mut i: usize = 0;
        proof {
            assert(out@.take(out@.len() as int) =~= out@);
        }
        while i < d.slots.len()
            invariant
                i <= d.slots@.len(),
                Self::grows(old(self), old(out)@, self, out@),
                cmds == old(self).spec_commands()@,
                arg_count(out@) == arg_count(old(out)@) + i,
                arguments_read(
                    self.stream(),
                    d.slots@,
                    i as int,
                    scope,
                    cmds,
                    view_elems(out@),
                ) == want && self.stream().len() <= old(self).stream().len(),
            decreases d.slots@.len() - i,
        {
            let slot = d.slots[i];
            let ghost pre = *self;
            let ghost before = out@;
            self.argument(slot, scope, out);
            proof {
                Self::lemma_grows_trans(old(self), old(out)@, &pre, before, self, out@);
            }
            i += 1;
        }
    }

    /// An environment: the begin clause with the name and the declared
    /// arguments, the body up to `\end`, and the end clause. An empty error leaf
    /// marks an end clause that is missing or names another environment.
    fn environment(&mut self, scope: Scope) -> (r: SyntaxElement<'a>)
        requires
            old(self).wf(),
            old(self).head_kind() is Some,
        ensures
            Self::yields(old(self), final(self), r),
            is_node_of(r, SyntaxKind::ItemEnv),
            final(self).fuel() < old(self).fuel(),
            Self::reads_one(
                old(self),
                final(self),
                r,
                environment_read(old(self).stream(), scope, old(self).spec_commands()@),
            ),
        decreases old(self).fuel(), 5nat,
    {
        let ghost cmds = self.spec_commands()@;
        let ghost s = self.stream();
        let commands = self.commands;
        let mut begin: Vec<SyntaxElement<'a>> = Vec::new();
        let ghost none = begin@;
        proof {
            assert(elems_text(none) + self.text() =~= self.text());
            self.lemma_stream_head();
            lemma_view_elems(none);
        }
        self.bump_as(&mut begin, SyntaxKind::ClauseCommandName);
        let ghost a = *self;
        let ghost begin_a = begin@;
        proof {
            assert(view_elems(begin_a) =~= seq![name_leaf(s[0])]);
        }
        self.trivia(&mut begin);
        let ghost b = *self;
        let ghost begin_b = begin@;
        let name = self.env_name(&mut begin);
        let ghost c = *self;
        let ghost begin_c = begin@;
        proof {
            Self::lemma_grows_trans(old(self), none, &a, begin_a, &b, begin_b);
            Self::lemma_grows_trans(old(self), none, &b, begin_b, self, begin@);
        }
        let descriptor = match name {
            Some(n) => commands.get(n),
            None => None,
        };
        match descriptor {
            Some(d) => {
                self.arguments(d, scope, &mut begin);
                proof {
                    Self::lemma_grows_trans(old(self), none, &c, begin_c, self, begin@);
                }
            },
            None => {},
        }
        let mut children: Vec<SyntaxElement<'a>> = Vec::new();
        let clause = SyntaxElement::node(SyntaxKind::ItemBegin, begin);
        proof {
            assert(all_sound(none, cmds));
            lemma_text_push(children@, clause);
            assert(elems_text(children@.push(clause)) =~= elems_text(begin@));
            lemma_push_shape(children@, clause, cmds);
            lemma_view_push(children@, clause);
            lemma_view_elems(children@);
        }
        children.push(clause);
        let ghost begun = children@;
        let mut body = self.item_list(scope.within_env(), false);
        proof {
            lemma_text_concat(children@, body@);
            lemma_view_concat(children@, body@);
            assert(elems_text(children@ + body@) + self.text()
                =~= old(self).text());
            assert((begun + body@)[0] == begun[0]);
            assert(view_elems(begun) =~= seq![view_elem(clause)]);
            self.lemma_stream_head();
        }
        children.append(&mut body);
        let ghost filled = children@;
        assert(all_sound(filled, cmds));
        if self.lexer.peek() == Some(Token::CommandName(CommandName::EndEnvironment)) {
            let ghost at_end = *self;
            let mut end: Vec<SyntaxElement<'a>> = Vec::new();
            let ghost none_end = end@;
            proof {
                assert(elems_text(none_end) + self.text() =~= self.text());
                lemma_view_elems(none_end);
            }
            self.bump_as(&mut end, SyntaxKind::ClauseCommandName);
            let ghost c = *self;
            let ghost end_c = end@;
            proof {
                assert(view_elems(end_c) =~= seq![name_leaf(at_end.stream()[0])]);
            }
            self.trivia(&mut end);
            let ghost d = *self;
            let ghost end_d = end@;
            let end_name = self.env_name(&mut end);
            proof {
                Self::lemma_grows_trans(&at_end, none_end, &c, end_c, &d, end_d);
                Self::lemma_grows_trans(&at_end, none_end, &d, end_d, self, end@);
            }
            let same = match (name, end_name) {
                (Some(a), Some(b)) => str_eq(a, b),
                (None, None) => true,
                _ => false,
            };
            if !same {
                let ghost named = end@;
                self.missing(&mut end);
                proof {
                    lemma_extends(named, end@, cmds);
                }
            }
            let clause = SyntaxElement::node(SyntaxKind::ItemEnd, end);
            proof {
                assert(at_end.text() =~= elem_text(clause) + self.text());
                assert(all_sound(none_end, cmds));
                assert(Self::yields(&at_end, self, clause));
                Self::lemma_grows_push(&at_end, children@, self, clause);
                lemma_push_shape(filled, clause, cmds);
                assert(filled.push(clause)[0] == filled[0]);
            }
            children.push(clause);
        } else {
            self.missing(&mut children);
            proof {
                lemma_extends(filled, children@, cmds);
            }
        }
        SyntaxElement::node(SyntaxKind::ItemEnv, children)
    }

    /// A block comment: `\iffalse` and every token up to and with `\fi`, as
    /// leaves that nothing interprets.
    fn block_comment(&mut self) -> (r: SyntaxElement<'a>)
        requires
            old(self).wf(),
            old(self).head_kind() is Some,
        ensures
            Self::yields(old(self), final(self), r),
            is_node_of(r, SyntaxKind::ItemBlockComment),
            final(self).fuel() < old(self).fuel(),
            Self::reads_one(old(self), final(self), r, block_comment_read(old(self).stream())),
    {
        let ghost s = self.stream();
        let mut children: Vec<SyntaxElement<'a>> = Vec::new();
        let ghost none = children@;
        proof {
            assert(elems_text(none) + self.text() =~= self.text());
            self.lemma_stream_head();
            lemma_view_elems(none);
        }
        self.bump_as(&mut children, SyntaxKind::ClauseCommandName);
        let ghost want = comment_tail_read(s.drop_first(), seq![name_leaf(s[0])]);
        proof {
            assert(view_elems(children@) =~= seq![name_leaf(s[0])]);
        }
        loop
            invariant_except_break
                comment_tail_read(self.stream(), view_elems(children@))
                    == want,
            invariant
                Self::grows(old(self), none, self, children@),
                none.len() == 0,
                self.fuel() < old(self).fuel(),
                s == old(self).stream(),
                self.stream().len() < s.len(),
            ensures
                want == (Out {
                    items: view_elems(children@),
                    rest: self.stream(),
                }),
            decreases self.fuel(),
        {
            proof {
                self.lemma_stream_head();
            }
            match self.lexer.peek() {
                Some(tok) => {
                    let ghost pre = *self;
                    let ghost before = children@;
                    self.bump(&mut children);
                    proof {
                        Self::lemma_grows_trans(old(self), none, &pre, before, self, children@);
                    }
                    if tok == Token::CommandName(CommandName::EndBlockComment) {
                        break ;
                    }
                },
                None => {
                    break ;
                },
            }
        }
        proof {
            assert(all_sound(none, self.spec_commands()@));
        }
        SyntaxElement::node(SyntaxKind::ItemBlockComment, children)
    }

    /// The items of a scope, up to the token that ends it or to the end of the
    /// input.
    ///
    /// In a greedy list, the argument of a right-greedy command, brackets and
    /// parentheses are plain leaves and an infix command does not split the list.
    fn item_list(&mut self, scope: Scope, greedy: bool) -> (r: Vec<SyntaxElement<'a>>)
        requires
            old(self).wf(),
        ensures
            Self::follows(old(self), final(self), elems_text(r@)),
            all_sound(r@, old(self).spec_commands()@),
            final(self).head_kind() matches Some(t) ==> scope.spec_stops(t),
            Self::reads(
                old(self),
                final(self),
                r@,
                items_read(
                    old(self).stream(),
                    Seq::empty(),
                    scope,
                    greedy,
                    old(self).spec_commands()@,
                ),
            ),
        decreases old(self).fuel(), 10nat,
    {
        let ghost commands = self.spec_commands()@;
        let mut items: Vec<SyntaxElement<'a>> = Vec::new();
        let ghost want = items_read(self.stream(), Seq::empty(), scope, greedy, commands);
        proof {
            assert(elems_text(items@) + self.text() =~= self.text());
            lemma_view_elems(items@);
            assert(view_elems(items@) =~= Seq::<ElemView>::empty());
        }
        loop
            invariant
                self.wf(),
                self.spec_commands() == old(self).spec_commands(),
                commands == self.spec_commands()@,
                self.fuel() <= old(self).fuel(),
                elems_text(items@) + self.text() == old(self).text(),
                all_sound(items@, commands),
                items_read(
                    self.stream(),
                    view_elems(items@),
                    scope,
                    greedy,
                    commands,
                ) == want && self.stream().len() <= old(self).stream().len(),
            ensures
                self.head_kind() matches Some(t) ==> scope.spec_stops(t),
                want == (Out {
                    items: view_elems(items@),
                    rest: self.stream(),
                }),
            decreases self.fuel(),
        {
            proof {
                self.lemma_stream_head();
            }
            let tok = match self.lexer.peek() {
                Some(tok) => tok,
                None => {
                    break ;
                },
            };
            if scope.stops(tok) {
                break ;
            }
            let ghost pre = *self;
            let ghost acc = view_elems(items@);
            let ghost step = item_read(pre.stream(), acc, scope, greedy, commands);
            match tok {
                Token::Word => {
                    let e = self.text_run();
                    proof {
                        Self::lemma_grows_push(&pre, items@, self, e);
                    }
                    items.push(e);
                },
                Token::Left(k) => {
                    if greedy && k != BraceKind::Curly {
                        self.bump(&mut items);
                    } else {
                        let e = self.group(k, scope);
                        proof {
                            Self::lemma_grows_push(&pre, items@, self, e);
                        }
                        items.push(e);
                    }
                },
                Token::Underscore | Token::Caret | Token::Apostrophe => {
                    let base = split_last_item(&mut items);
                    proof {
                        lemma_all_sound_split(items@, base@, commands);
                    }
                    let e = self.attach(base, scope);
                    proof {
                        lemma_text_push(items@, e);
                        lemma_push_shape(items@, e, commands);
                        lemma_view_push(items@, e);
                        lemma_rebalance(
                            elems_text(items@),
                            elem_text(e),
                            self.text(),
                            elems_text(base@),
                            pre.text(),
                        );
                    }
                    items.push(e);
                },
                Token::CommandName(CommandName::Generic)
                | Token::CommandName(CommandName::Left)
                | Token::CommandName(CommandName::Right) => {
                    items = self.command_item(items, scope, greedy);
                },
                Token::CommandName(CommandName::BeginEnvironment) => {
                    let e = self.environment(scope);
                    proof {
                        Self::lemma_grows_push(&pre, items@, self, e);
                    }
                    items.push(e);
                },
                Token::CommandName(CommandName::BeginBlockComment) => {
                    let e = self.block_comment();
                    proof {
                        Self::lemma_grows_push(&pre, items@, self, e);
                    }
                    items.push(e);
                },
                Token::Right(_)
                | Token::CommandName(CommandName::EndEnvironment)
                | Token::CommandName(CommandName::EndBlockComment) => {
                    if greedy {
                        self.bump(&mut items);
                    } else {
                        self.bump_as(&mut items, SyntaxKind::TokenError);
                    }
                },
                _ => {
                    self.bump(&mut items);
                },
            }
            proof {
                assert(step == (Out { items: view_elems(items@), rest: self.stream() }));
                assert(self.stream().len() < pre.stream().len());
            }
        }
        items
    }

    /// Parses the whole input into a tree.
    ///
    /// The tree is the one that the grammar gives the tokens that were to be
    /// read. Its leaves spell the text of those tokens, and every node has the
    /// shape of its kind.
    pub fn parse(self) -> (r: SyntaxNode<'a>)
        requires
            self.wf(),
        ensures
            r.kind == SyntaxKind::ScopeRoot,
            sound(SyntaxElement::Node(r), self.spec_commands()@),
            r.spec_text() == self.text(),
            r@ == tree_of(self.stream(), self.spec_commands()@),
    {
        let mut parser = self;
        let children = parser.item_list(Scope::root(), false);
        proof {
            parser.lexer.lemma_head();
            assert(parser.text() =~= Seq::<char>::empty());
            assert(elems_text(children@) + parser.text() =~= elems_text(children@));
        }
        SyntaxNode { kind: SyntaxKind::ScopeRoot, children }
    }
}

/// Parses `input` into a tree, with the tokens as the source has them.
///
/// The tree is the one that the grammar gives the tokens of `input`. Its
/// leaves, in order, spell `input`, and every node has the shape of its kind.
pub fn parse<'a>(input: &'a str, commands: &'a CommandSpec) -> (r: SyntaxNode<'a>)
    ensures
        r.kind == SyntaxKind::ScopeRoot,
        r@ == tree_of(tokens_of(input@, commands.names()), commands@),
        r.spec_text() == input@,
        sound(SyntaxElement::Node(r), commands@),
{
    let lexer = Lexer::new(input, commands);
    Parser::new(lexer, commands).parse()
}

/// Parses `input` into a tree, with the macros that it defines expanded.
///
/// The tree is the one that the grammar gives the tokens that the macro
/// engine delivers. The engine may take `budget` steps; past that it
/// delivers an error token in place of what is left of the input.
pub fn parse_expanded<'a>(input: &'a str, commands: &'a CommandSpec, budget: usize) -> (r:
    SyntaxNode<'a>)
    ensures
        r.kind == SyntaxKind::ScopeRoot,
        r@ == tree_of(
            engine_stream(
                Seq::empty(),
                Seq::empty(),
                budget as nat,
                false,
                tokens_of(input@, commands.names()),
            ),
            commands@,
        ),
        sound(SyntaxElement::Node(r), commands@),
{
    let lexer = Lexer::new_with_bumper(input, commands, MacroEngine::new(budget));
    Parser::new(lexer, commands).parse()
}

} // verus!
