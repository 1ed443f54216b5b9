//! The concrete syntax tree that the parser builds.

use vstd::prelude::*;
use vstd::string::*;

use crate::token::{BraceKind, Token};

verus! {

/// The kinds of the nodes and leaves of a syntax tree.
#[derive(Debug, PartialEq, Eq, PartialOrd, Ord, Clone, Copy, Hash, Structural)]
pub enum SyntaxKind {
    /// A leaf that marks an error; its text is what was in the way, or empty
    /// where something is missing
    TokenError,
    /// A run of line breaks
    TokenLineBreak,
    /// A run of white space
    TokenWhiteSpace,
    /// A line comment
    TokenComment,
    /// `{`
    TokenLBrace,
    /// `}`
    TokenRBrace,
    /// `[`
    TokenLBracket,
    /// `]`
    TokenRBracket,
    /// `(`
    TokenLParen,
    /// `)`
    TokenRParen,
    /// `,`
    TokenComma,
    /// `~`
    TokenTilde,
    /// `/`
    TokenSlash,
    /// A word, or a single character of one
    TokenWord,
    /// `$` or `$$`
    TokenDollar,
    /// `&`
    TokenAmpersand,
    /// `#`
    TokenHash,
    /// `_`
    TokenUnderscore,
    /// `^`
    TokenCaret,
    /// `'`
    TokenApostrophe,
    /// `"`
    TokenDitto,
    /// `;`
    TokenSemicolon,
    /// The name of a command, with its backslash
    ClauseCommandName,
    /// The wrapper of one argument of a command
    ClauseArgument,
    /// `\\`
    ItemNewLine,
    /// A run of words and trivia
    ItemText,
    /// A group in curly braces
    ItemCurly,
    /// A group in brackets
    ItemBracket,
    /// A group in parentheses
    ItemParen,
    /// A command with its arguments
    ItemCmd,
    /// An environment: its begin clause, its body and its end clause
    ItemEnv,
    /// The begin clause of an environment
    ItemBegin,
    /// The end clause of an environment
    ItemEnd,
    /// A block comment, from `\iffalse` to `\fi`
    ItemBlockComment,
    /// A base with a subscript, a superscript or a prime attached
    ItemAttachComponent,
    /// The root of the tree
    ScopeRoot,
}

/// The kind of leaf that a token becomes.
pub open spec fn leaf_kind(t: Token) -> SyntaxKind {
    match t {
        Token::LineBreak => SyntaxKind::TokenLineBreak,
        Token::Whitespace => SyntaxKind::TokenWhiteSpace,
        Token::LineComment => SyntaxKind::TokenComment,
        Token::Left(BraceKind::Curly) => SyntaxKind::TokenLBrace,
        Token::Left(BraceKind::Bracket) => SyntaxKind::TokenLBracket,
        Token::Left(BraceKind::Paren) => SyntaxKind::TokenLParen,
        Token::Right(BraceKind::Curly) => SyntaxKind::TokenRBrace,
        Token::Right(BraceKind::Bracket) => SyntaxKind::TokenRBracket,
        Token::Right(BraceKind::Paren) => SyntaxKind::TokenRParen,
        Token::Comma => SyntaxKind::TokenComma,
        Token::Tilde => SyntaxKind::TokenTilde,
        Token::Slash => SyntaxKind::TokenSlash,
        Token::Ampersand => SyntaxKind::TokenAmpersand,
        Token::Caret => SyntaxKind::TokenCaret,
        Token::Apostrophe => SyntaxKind::TokenApostrophe,
        Token::Ditto => SyntaxKind::TokenDitto,
        Token::Semicolon => SyntaxKind::TokenSemicolon,
        Token::Hash => SyntaxKind::TokenHash,
        Token::Underscore => SyntaxKind::TokenUnderscore,
        Token::Word => SyntaxKind::TokenWord,
        Token::Dollar => SyntaxKind::TokenDollar,
        Token::NewLine => SyntaxKind::ItemNewLine,
        Token::CommandName(_) => SyntaxKind::ClauseCommandName,
        Token::Error => SyntaxKind::TokenError,
        Token::MacroArg(_) => SyntaxKind::TokenWord,
    }
}

/// The kind of leaf that a token becomes.
pub fn kind_of_token(t: Token) -> (r: SyntaxKind)
    ensures
        r == leaf_kind(t),
{
    match t {
        Token::LineBreak => SyntaxKind::TokenLineBreak,
        Token::Whitespace => SyntaxKind::TokenWhiteSpace,
        Token::LineComment => SyntaxKind::TokenComment,
        Token::Left(BraceKind::Curly) => SyntaxKind::TokenLBrace,
        Token::Left(BraceKind::Bracket) => SyntaxKind::TokenLBracket,
        Token::Left(BraceKind::Paren) => SyntaxKind::TokenLParen,
        Token::Right(BraceKind::Curly) => SyntaxKind::TokenRBrace,
        Token::Right(BraceKind::Bracket) => SyntaxKind::TokenRBracket,
        Token::Right(BraceKind::Paren) => SyntaxKind::TokenRParen,
        Token::Comma => SyntaxKind::TokenComma,
        Token::Tilde => SyntaxKind::TokenTilde,
        Token::Slash => SyntaxKind::TokenSlash,
        Token::Ampersand => SyntaxKind::TokenAmpersand,
        Token::Caret => SyntaxKind::TokenCaret,
        Token::Apostrophe => SyntaxKind::TokenApostrophe,
        Token::Ditto => SyntaxKind::TokenDitto,
        Token::Semicolon => SyntaxKind::TokenSemicolon,
        Token::Hash => SyntaxKind::TokenHash,
        Token::Underscore => SyntaxKind::TokenUnderscore,
        Token::Word => SyntaxKind::TokenWord,
        Token::Dollar => SyntaxKind::TokenDollar,
        Token::NewLine => SyntaxKind::ItemNewLine,
        Token::CommandName(_) => SyntaxKind::ClauseCommandName,
        Token::Error => SyntaxKind::TokenError,
        Token::MacroArg(_) => SyntaxKind::TokenWord,
    }
}

/// A leaf of the tree: a piece of text in a role.
#[derive(Debug)]
pub struct SyntaxToken<'a> {
    /// The role of the text
    pub kind: SyntaxKind,
    /// The text
    pub text: &'a str,
}

/// An inner node of the tree.
#[derive(Debug)]
pub struct SyntaxNode<'a> {
    /// What the node is
    pub kind: SyntaxKind,
    /// Its children, in the order of the source
    pub children: Vec<SyntaxElement<'a>>,
}

/// A child of a node: a node or a leaf.
#[derive(Debug)]
pub enum SyntaxElement<'a> {
    /// An inner node
    Node(SyntaxNode<'a>),
    /// A leaf
    Token(SyntaxToken<'a>),
}

/// The text that the leaves under `e` spell, in order.
pub open spec fn elem_text(e: SyntaxElement) -> Seq<char>
    decreases e,
{
    match e {
        SyntaxElement::Token(t) => t.text@,
        SyntaxElement::Node(n) => prefix_text(n.children@, n.children@.len() as int),
    }
}

/// The text that the leaves under the first `k` elements of `s` spell.
pub open spec fn prefix_text(s: Seq<SyntaxElement>, k: int) -> Seq<char>
    decreases s, k,
{
    if k <= 0 || k > s.len() {
        Seq::empty()
    } else {
        prefix_text(s, k - 1) + elem_text(s[k - 1])
    }
}

/// The text that the leaves under the elements of `s` spell.
pub open spec fn elems_text(s: Seq<SyntaxElement>) -> Seq<char> {
    prefix_text(s, s.len() as int)
}

/// The text of a prefix depends on that prefix alone.
pub proof fn lemma_prefix_text_agree(a: Seq<SyntaxElement>, b: Seq<SyntaxElement>, k: int)
    requires
        0 <= k <= a.len(),
        k <= b.len(),
        forall|i: int| 0 <= i < k ==> a[i] == b[i],
    ensures
        prefix_text(a, k) == prefix_text(b, k),
    decreases k,
{
    if k > 0 {
        lemma_prefix_text_agree(a, b, k - 1);
    }
}

/// Adding an element adds its text.
pub proof fn lemma_text_push(s: Seq<SyntaxElement>, e: SyntaxElement)
    ensures
        elems_text(s.push(e)) == elems_text(s) + elem_text(e),
{
    lemma_prefix_text_agree(s.push(e), s, s.len() as int);
}

/// The text of a concatenation is the texts concatenated.
pub proof fn lemma_text_concat(a: Seq<SyntaxElement>, b: Seq<SyntaxElement>)
    ensures
        elems_text(a + b) == elems_text(a) + elems_text(b),
    decreases b.len(),
{
    if b.len() == 0 {
        assert(a + b =~= a);
        assert(elems_text(a) + elems_text(b) =~= elems_text(a));
    } else {
        let c = b.drop_last();
        assert(a + b =~= (a + c).push(b.last()));
        assert(b =~= c.push(b.last()));
        lemma_text_push(a + c, b.last());
        lemma_text_push(c, b.last());
        lemma_text_concat(a, c);
        assert(elems_text(a + b) =~= elems_text(a) + elems_text(b));
    }
}

impl<'a> SyntaxToken<'a> {
    /// A leaf of the given kind and text.
    pub fn new(kind: SyntaxKind, text: &'a str) -> (r: Self)
        ensures
            r.kind == kind,
            r.text == text,
    {
        SyntaxToken { kind, text }
    }

    /// The kind of the leaf.
    pub fn kind(&self) -> (r: SyntaxKind)
        ensures
            r == self.kind,
    {
        self.kind
    }

    /// The text of the leaf.
    pub fn text(&self) -> (r: &'a str)
        ensures
            r == self.text,
    {
        self.text
    }
}

impl<'a> SyntaxElement<'a> {
    /// A leaf of the given kind and text.
    pub fn leaf(kind: SyntaxKind, text: &'a str) -> (r: Self)
        ensures
            r == SyntaxElement::Token(SyntaxToken { kind, text }),
            elem_text(r) == text@,
            view_elem(r) == (ElemView::Leaf { kind, text: text@ }),
    {
        SyntaxElement::Token(SyntaxToken { kind, text })
    }

    /// A node of the given kind over the given children.
    pub fn node(kind: SyntaxKind, children: Vec<SyntaxElement<'a>>) -> (r: Self)
        ensures
            r == SyntaxElement::Node(SyntaxNode { kind, children }),
            elem_text(r) == elems_text(children@),
            view_elem(r) == (ElemView::Node { kind, children: view_elems(children@) }),
    {
        SyntaxElement::Node(SyntaxNode { kind, children })
    }

    /// The kind of the element.
    pub fn kind(&self) -> (r: SyntaxKind)
        ensures
            r == match *self {
                SyntaxElement::Node(n) => n.kind,
                SyntaxElement::Token(t) => t.kind,
            },
    {
        match self {
            SyntaxElement::Node(n) => n.kind,
            SyntaxElement::Token(t) => t.kind,
        }
    }

    /// Appends the text that the leaves under the element spell to `out`.
    pub fn write_text(&self, out: &mut String)
        ensures
            final(out)@ == old(out)@ + elem_text(*self),
        decreases self,
    {
        match self {
            SyntaxElement::Token(t) => {
                out.append(t.text);
            },
            SyntaxElement::Node(n) => {
                n.write_children(out);
            },
        }
    }
}

impl<'a> SyntaxNode<'a> {
    /// The text that the leaves of the tree spell, in order.
    pub open spec fn spec_text(&self) -> Seq<char> {
        elems_text(self.children@)
    }

    /// The kind of the node.
    pub fn kind(&self) -> (r: SyntaxKind)
        ensures
            r == self.kind,
    {
        self.kind
    }

    /// The children of the node.
    pub fn children(&self) -> (r: &Vec<SyntaxElement<'a>>)
        ensures
            r == self.children,
    {
        &self.children
    }

    /// Appends the text that the leaves of the tree spell to `out`.
    pub fn write_children(&self, out: &mut String)
        ensures
            final(out)@ == old(out)@ + elems_text(self.children@),
        decreases self,
    {
        let mut i: usize = 0;
        while i < self.children.len()
            invariant
                i <= self.children@.len(),
                out@ == old(out)@ + prefix_text(self.children@, i as int),
            decreases self.children@.len() - i,
        {
            self.children[i].write_text(out);
            i += 1;
            assert(out@ =~= old(out)@ + prefix_text(self.children@, i as int));
        }
    }

    /// The text that the leaves of the tree spell, in order.
    pub fn text(&self) -> (r: String)
        ensures
            r@ == self.spec_text(),
    {
        let mut out = String::new();
        self.write_children(&mut out);
        assert(out@ =~= elems_text(self.children@));
        out
    }
}

/// What a tree is in contracts: the kinds of its nodes and leaves, and the
/// characters of the leaves' texts.
pub enum ElemView {
    /// An inner node with its children
    Node { kind: SyntaxKind, children: Seq<ElemView> },
    /// A leaf with its text
    Leaf { kind: SyntaxKind, text: Seq<char> },
}

/// The view of an element.
pub open spec fn view_elem(e: SyntaxElement) -> ElemView
    decreases e,
{
    match e {
        SyntaxElement::Token(t) => ElemView::Leaf { kind: t.kind, text: t.text@ },
        SyntaxElement::Node(n) => ElemView::Node {
            kind: n.kind,
            children: view_prefix(n.children@, n.children@.len() as int),
        },
    }
}

/// The views of the first `k` elements of `s`.
pub open spec fn view_prefix(s: Seq<SyntaxElement>, k: int) -> Seq<ElemView>
    decreases s, k,
{
    if k <= 0 || k > s.len() {
        Seq::empty()
    } else {
        view_prefix(s, k - 1).push(view_elem(s[k - 1]))
    }
}

/// The views of the elements of `s`.
pub open spec fn view_elems(s: Seq<SyntaxElement>) -> Seq<ElemView> {
    view_prefix(s, s.len() as int)
}

/// The views of a prefix are as many as the prefix is long, each the view of
/// its element.
pub proof fn lemma_view_prefix(s: Seq<SyntaxElement>, k: int)
    requires
        0 <= k <= s.len(),
    ensures
        view_prefix(s, k).len() == k,
        forall|i: int| 0 <= i < k ==> (#[trigger] view_prefix(s, k)[i]) == view_elem(s[i]),
    decreases k,
{
    if k > 0 {
        lemma_view_prefix(s, k - 1);
    }
}

/// The views of a sequence are as many as its elements, each the view of its
/// element.
pub proof fn lemma_view_elems(s: Seq<SyntaxElement>)
    ensures
        view_elems(s).len() == s.len(),
        forall|i: int| 0 <= i < s.len() ==> (#[trigger] view_elems(s)[i]) == view_elem(s[i]),
{
    lemma_view_prefix(s, s.len() as int);
}

/// Adding an element adds its view.
pub proof fn lemma_view_push(s: Seq<SyntaxElement>, e: SyntaxElement)
    ensures
        view_elems(s.push(e)) == view_elems(s).push(view_elem(e)),
{
    lemma_view_elems(s);
    lemma_view_elems(s.push(e));
    assert(view_elems(s.push(e)) =~= view_elems(s).push(view_elem(e)));
}

/// The views of a concatenation are the views concatenated.
pub proof fn lemma_view_concat(a: Seq<SyntaxElement>, b: Seq<SyntaxElement>)
    ensures
        view_elems(a + b) == view_elems(a) + view_elems(b),
{
    lemma_view_elems(a);
    lemma_view_elems(b);
    lemma_view_elems(a + b);
    assert(view_elems(a + b) =~= view_elems(a) + view_elems(b));
}

impl<'a> View for SyntaxElement<'a> {
    type V = ElemView;

    open spec fn view(&self) -> ElemView {
        view_elem(*self)
    }
}

impl<'a> View for SyntaxNode<'a> {
    type V = ElemView;

    open spec fn view(&self) -> ElemView {
        ElemView::Node { kind: self.kind, children: view_elems(self.children@) }
    }
}

} // verus!
