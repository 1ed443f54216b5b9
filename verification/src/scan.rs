//! The token grammar of TeX source and the scanner that follows it.
//!
//! The grammar is stated over characters: `first_token` says which token a
//! text starts with and how long it is, `tokens_of` cuts a whole text,
//! and `RawLexer::next` is proved to deliver exactly those tokens.

use vstd::prelude::*;
use vstd::std_specs::iter::IteratorSpec;
use vstd::string::*;
use vstd::utf8::*;

use crate::chars::{line_break, name_char, whitespace, CharClass};
use crate::chars::{is_line_break, is_name_char, is_whitespace};
use crate::command_spec::CommandSpec;
use crate::text::{first_char, split_chars, utf8_len, width};
use crate::text::{lemma_ascii_width, lemma_encode_concat, lemma_utf8_len_bounds, lemma_utf8_len_split};
use crate::token::{classification, BraceKind, CommandName, Token};

verus! {

/// A token and the text it was cut from.
pub type Tok<'a> = (Token, &'a str);

/// The length of the longest prefix of `s` whose characters all belong to `class`.
pub open spec fn run_len(s: Seq<char>, class: CharClass) -> nat
    decreases s.len(),
{
    if s.len() > 0 && class.spec_has(s[0]) {
        1 + run_len(s.drop_first(), class)
    } else {
        0
    }
}

/// The length of the command that `s` starts with, the backslash included.
///
/// `s` starts with a backslash that no second backslash follows. `names` are the
/// declared commands: a star directly after the name belongs to the command
/// exactly if the name with the star is declared.
pub open spec fn command_len(s: Seq<char>, names: Set<Seq<char>>) -> nat {
    if s.len() < 2 || is_whitespace(s[1]) {
        1
    } else if !is_name_char(s[1]) {
        2
    } else {
        let e: int = 2 + run_len(s.skip(2), CharClass::Name) as int;
        if e < s.len() && s[e] == '*' && names.contains(s.subrange(1, e + 1)) {
            (e + 1) as nat
        } else {
            e as nat
        }
    }
}

/// The kind of token that a text with the first character `c` and the second
/// character `d` (if any) starts with.
pub open spec fn first_kind(c: char, d: Option<char>) -> Token {
    if is_line_break(c) {
        Token::LineBreak
    } else if is_whitespace(c) {
        Token::Whitespace
    } else if c == '%' {
        Token::LineComment
    } else if c == '{' {
        Token::Left(BraceKind::Curly)
    } else if c == '[' {
        Token::Left(BraceKind::Bracket)
    } else if c == '(' {
        Token::Left(BraceKind::Paren)
    } else if c == '}' {
        Token::Right(BraceKind::Curly)
    } else if c == ']' {
        Token::Right(BraceKind::Bracket)
    } else if c == ')' {
        Token::Right(BraceKind::Paren)
    } else if c == ',' {
        Token::Comma
    } else if c == '~' {
        Token::Tilde
    } else if c == '/' {
        Token::Slash
    } else if c == '&' {
        Token::Ampersand
    } else if c == '^' {
        Token::Caret
    } else if c == '\'' {
        Token::Apostrophe
    } else if c == '"' {
        Token::Ditto
    } else if c == ';' {
        Token::Semicolon
    } else if c == '#' {
        Token::Hash
    } else if c == '_' {
        Token::Underscore
    } else if c == '$' {
        Token::Dollar
    } else if c == '\\' {
        if d == Some('\\') {
            Token::NewLine
        } else {
            Token::CommandName(CommandName::Generic)
        }
    } else {
        Token::Word
    }
}

/// The second character of `s`, if it has one.
pub open spec fn second(s: Seq<char>) -> Option<char> {
    if s.len() > 1 {
        Some(s[1])
    } else {
        None
    }
}

/// The kind and the length of the token that the non-empty text `s` starts with.
pub open spec fn first_token(s: Seq<char>, names: Set<Seq<char>>) -> (Token, nat) {
    let kind = first_kind(s[0], second(s));
    let len = match kind {
        Token::LineBreak => 1 + run_len(s.skip(1), CharClass::LineBreak),
        Token::Whitespace => 1 + run_len(s.skip(1), CharClass::Blank),
        Token::LineComment => 1 + run_len(s.skip(1), CharClass::CommentBody),
        Token::Word => 1 + run_len(s.skip(1), CharClass::Word),
        Token::Dollar => if second(s) == Some('$') {
            2
        } else {
            1
        },
        Token::NewLine => 2,
        Token::CommandName(_) => command_len(s, names),
        _ => 1,
    };
    (kind, len)
}

/// The kind under which a token of the scanner reaches the parser: a command is
/// classified by its name, every other token keeps its kind.
pub open spec fn classified(kind: Token, text: Seq<char>) -> Token {
    if kind == Token::CommandName(CommandName::Generic) {
        Token::CommandName(classification(text.skip(1)))
    } else {
        kind
    }
}

/// What a token is in contracts: its kind and the characters of its text.
pub type TokView = (Token, Seq<char>);

/// The token that the non-empty text `s` starts with, classified.
pub open spec fn head_token(s: Seq<char>, names: Set<Seq<char>>) -> TokView {
    let (kind, len) = first_token(s, names);
    (classified(kind, s.take(len as int)), s.take(len as int))
}

/// The tokens that `s` is cut into, each classified and with its text.
pub open spec fn tokens_of(s: Seq<char>, names: Set<Seq<char>>) -> Seq<TokView>
    decreases s.len(),
{
    let len = first_token(s, names).1;
    if s.len() == 0 || len == 0 || len > s.len() {
        Seq::empty()
    } else {
        seq![head_token(s, names)] + tokens_of(s.skip(len as int), names)
    }
}

/// The view of a token.
pub open spec fn view_tok(t: Tok) -> TokView {
    (t.0, t.1@)
}

/// The views of a sequence of tokens.
pub open spec fn view_toks(s: Seq<Tok>) -> Seq<TokView> {
    Seq::new(s.len(), |i: int| view_tok(s[i]))
}

/// The texts of a sequence of tokens, one after the other.
pub open spec fn text_of(s: Seq<TokView>) -> Seq<char>
    decreases s.len(),
{
    if s.len() == 0 {
        Seq::empty()
    } else {
        text_of(s.drop_last()) + s.last().1
    }
}

/// The text of two sequences of tokens is the text of the first and then that
/// of the second.
pub proof fn lemma_text_of_concat(a: Seq<TokView>, b: Seq<TokView>)
    ensures
        text_of(a + b) == text_of(a) + text_of(b),
    decreases b.len(),
{
    if b.len() == 0 {
        assert(a + b =~= a);
        assert(text_of(a) + text_of(b) =~= text_of(a));
    } else {
        assert((a + b).drop_last() =~= a + b.drop_last());
        lemma_text_of_concat(a, b.drop_last());
        assert(text_of(a + b) =~= text_of(a) + text_of(b));
    }
}

/// The text of a single token.
pub proof fn lemma_text_of_one(t: TokView)
    ensures
        text_of(seq![t]) == t.1,
{
    assert(seq![t].drop_last() =~= Seq::<TokView>::empty());
    assert(text_of(seq![t].drop_last()) =~= Seq::<char>::empty());
    assert(text_of(seq![t]) =~= t.1);
}

/// The tokens of a text spell the text.
pub proof fn lemma_tokens_spell(s: Seq<char>, names: Set<Seq<char>>)
    ensures
        text_of(tokens_of(s, names)) == s,
    decreases s.len(),
{
    if s.len() == 0 {
        assert(text_of(tokens_of(s, names)) =~= s);
    } else {
        lemma_first_token_bound(s, names);
        let len = first_token(s, names).1 as int;
        lemma_tokens_spell(s.skip(len), names);
        lemma_text_of_concat(seq![head_token(s, names)], tokens_of(s.skip(len), names));
        lemma_text_of_one(head_token(s, names));
        assert(s.take(len) + s.skip(len) =~= s);
    }
}

/// The tokens of a non-empty text are its first token and the tokens of the rest.
pub proof fn lemma_tokens_unfold(s: Seq<char>, names: Set<Seq<char>>)
    requires
        s.len() > 0,
    ensures
        tokens_of(s, names) == seq![head_token(s, names)] + tokens_of(
            s.skip(first_token(s, names).1 as int),
            names,
        ),
        tokens_of(s, names).len() > 0,
{
    lemma_first_token_bound(s, names);
}

/// A text has at most as many tokens as characters, and none only if it is empty.
pub proof fn lemma_tokens_len(s: Seq<char>, names: Set<Seq<char>>)
    ensures
        tokens_of(s, names).len() <= s.len(),
        s.len() > 0 ==> tokens_of(s, names).len() > 0,
    decreases s.len(),
{
    if s.len() > 0 {
        lemma_first_token_bound(s, names);
        lemma_tokens_len(s.skip(first_token(s, names).1 as int), names);
    }
}

/// A run is no longer than the text.
pub proof fn lemma_run_len_bound(s: Seq<char>, class: CharClass)
    ensures
        run_len(s, class) <= s.len(),
    decreases s.len(),
{
    if s.len() > 0 && class.spec_has(s[0]) {
        lemma_run_len_bound(s.drop_first(), class);
    }
}

/// A prefix within the class that ends the text, or that a character outside the
/// class follows, is the run.
pub proof fn lemma_run_len_is(s: Seq<char>, class: CharClass, k: int)
    requires
        0 <= k <= s.len(),
        forall|j: int| 0 <= j < k ==> class.spec_has(#[trigger] s[j]),
        k == s.len() || !class.spec_has(s[k]),
    ensures
        run_len(s, class) == k,
    decreases k,
{
    if k > 0 {
        let t = s.drop_first();
        assert forall|j: int| 0 <= j < k - 1 implies class.spec_has(#[trigger] t[j]) by {
            assert(t[j] == s[j + 1]);
        }
        lemma_run_len_is(t, class, k - 1);
    }
}

/// A command is at least its backslash and stays within the text.
pub proof fn lemma_command_len_bound(s: Seq<char>, names: Set<Seq<char>>)
    requires
        s.len() > 0,
    ensures
        1 <= command_len(s, names) <= s.len(),
{
    if s.len() >= 2 {
        lemma_run_len_bound(s.skip(2), CharClass::Name);
    }
}

/// Every token holds at least one character and stays within the text.
pub proof fn lemma_first_token_bound(s: Seq<char>, names: Set<Seq<char>>)
    requires
        s.len() > 0,
    ensures
        1 <= first_token(s, names).1 <= s.len(),
{
    lemma_run_len_bound(s.skip(1), CharClass::LineBreak);
    lemma_run_len_bound(s.skip(1), CharClass::Blank);
    lemma_run_len_bound(s.skip(1), CharClass::CommentBody);
    lemma_run_len_bound(s.skip(1), CharClass::Word);
    lemma_command_len_bound(s, names);
}

/// Measures the run of `class` that `s` starts with: its length in characters
/// and in bytes.
pub fn run(s: &str, class: CharClass) -> (r: (usize, usize))
    ensures
        r.0 == run_len(s@, class),
        r.1 == utf8_len(s@.take(r.0 as int)),
        r.0 <= s@.len(),
        r.1 <= utf8_len(s@),
{
    broadcast use vstd::string::group_string_axioms;

    let total = s.as_bytes().len();
    let mut it = s.chars();
    let mut k: usize = 0;
    let mut n: usize = 0;
    proof {
        assert(s@.skip(0) =~= s@);
        assert(s@.take(0) =~= Seq::<char>::empty());
        lemma_utf8_len_bounds(s@);
    }
    loop
        invariant_except_break
            it.remaining() == s@.skip(k as int),
        invariant
            k <= s@.len(),
            k <= n,
            n == utf8_len(s@.take(k as int)),
            n <= utf8_len(s@),
            total == utf8_len(s@),
            forall|j: int| 0 <= j < k ==> class.spec_has(#[trigger] s@[j]),
        ensures
            k <= s@.len(),
            n == utf8_len(s@.take(k as int)),
            n <= utf8_len(s@),
            run_len(s@, class) == k,
        decreases s@.len() - k,
    {
        let ghost before = it.remaining();
        match it.next() {
            Some(c) => {
                assert(before.len() > 0);
                assert(c == s@[k as int]);
                if !class.has(c) {
                    proof {
                        lemma_run_len_is(s@, class, k as int);
                    }
                    break ;
                }
                let w = width(c);
                proof {
                    assert(s@.take(k + 1) =~= s@.take(k as int) + seq![c]);
                    lemma_encode_concat(s@.take(k as int), seq![c]);
                    lemma_utf8_len_split(s@, k + 1);
                    assert(s@.skip(k as int).drop_first() =~= s@.skip(k + 1));
                }
                n += w;
                k += 1;
            },
            None => {
                assert(before.len() == 0);
                proof {
                    lemma_run_len_is(s@, class, k as int);
                }
                break ;
            },
        }
    }
    (k, n)
}

/// Measures the command that `s` starts with: its length in characters and in
/// bytes, the backslash included.
///
/// `tail` is `s` without its backslash, and does not start with a second one.
pub fn lex_command_name(s: &str, tail: &str, commands: &CommandSpec) -> (r: (usize, usize))
    requires
        s@.len() > 0,
        s@[0] == '\\',
        tail@ == s@.skip(1),
    ensures
        r.0 == command_len(s@, commands.names()),
        r.1 == utf8_len(s@.take(r.0 as int)),
        1 <= r.0 <= s@.len(),
{
    let total = s.as_bytes().len();
    proof {
        lemma_utf8_len_bounds(s@);
        lemma_utf8_len_split(s@, 1);
        assert(s@.take(1) =~= seq!['\\']);
        lemma_ascii_width('\\');
        lemma_command_len_bound(s@, commands.names());
    }
    // Case 1: `\` before white space or the end is a command with an empty name.
    let c = match first_char(tail) {
        Some(c) => c,
        None => {
            return (1, 1);
        },
    };
    if whitespace(c) {
        return (1, 1);
    }
    // Case 2: any single character after the backslash is a command name.
    let w = width(c);
    proof {
        assert(s@.take(2) =~= s@.take(1) + seq![c]);
        lemma_encode_concat(s@.take(1), seq![c]);
        lemma_utf8_len_split(s@, 2);
    }
    if !name_char(c) {
        return (2, 1 + w);
    }
    // Case 3: a name of ASCII letters and `@`.
    let (_, letters) = split_chars(s, 1 + w, Ghost(2));
    let (k, n) = run(letters, CharClass::Name);
    let ghost e: int = 2 + k;
    proof {
        assert(s@.take(e) =~= s@.take(2) + letters@.take(k as int));
        lemma_encode_concat(s@.take(2), letters@.take(k as int));
        lemma_utf8_len_split(s@, e);
    }
    let (_, after) = split_chars(letters, n, Ghost(k as int));
    assert(after@ =~= s@.skip(e));
    // A star belongs to the command exactly if the starred name is declared.
    match first_char(after) {
        Some('*') => {
            proof {
                assert(s@.take(e + 1) =~= s@.take(e) + seq!['*']);
                lemma_encode_concat(s@.take(e), seq!['*']);
                lemma_ascii_width('*');
                lemma_utf8_len_split(s@, e + 1);
            }
            let (head, _) = split_chars(s, 1 + w + n + 1, Ghost(e + 1));
            assert(head@.take(1) =~= s@.take(1));
            let (_, starred) = split_chars(head, 1, Ghost(1));
            assert(starred@ =~= s@.subrange(1, e + 1));
            if commands.contains(starred) {
                (2 + k + 1, 1 + w + n + 1)
            } else {
                (2 + k, 1 + w + n)
            }
        },
        _ => (2 + k, 1 + w + n),
    }
}

/// The scanner: it cuts a source text into tokens, front to back.
pub struct RawLexer<'a> {
    /// What is left of the source
    rest: &'a str,
    /// The commands that are declared
    commands: &'a CommandSpec,
}

impl<'a> RawLexer<'a> {
    /// The part of the source that is not cut into tokens yet.
    pub closed spec fn remaining(&self) -> Seq<char> {
        self.rest@
    }

    /// The commands that the scanner knows.
    pub closed spec fn spec_commands(&self) -> &'a CommandSpec {
        self.commands
    }

    /// A scanner at the start of `input`.
    pub fn new(input: &'a str, commands: &'a CommandSpec) -> (r: Self)
        ensures
            r.remaining() == input@,
            r.spec_commands() == commands,
    {
        RawLexer { rest: input, commands }
    }

    /// The commands that the scanner knows.
    #[verifier::when_used_as_spec(spec_commands)]
    pub fn commands(&self) -> (r: &'a CommandSpec)
        ensures
            r == self.spec_commands(),
    {
        self.commands
    }

    /// The source text that is left.
    pub fn rest(&self) -> (r: &'a str)
        ensures
            r@ == self.remaining(),
    {
        self.rest
    }

    /// Cuts the next token off the source: `None` at its end.
    pub fn next(&mut self) -> (r: Option<Tok<'a>>)
        ensures
            final(self).spec_commands() == old(self).spec_commands(),
            r is None <==> old(self).remaining().len() == 0,
            r is None ==> final(self).remaining() == old(self).remaining(),
            r matches Some(tok) ==> {
                let (kind, len) = first_token(
                    old(self).remaining(),
                    old(self).spec_commands().names(),
                );
                &&& tok.0 == kind
                &&& tok.1@ == old(self).remaining().take(len as int)
                &&& final(self).remaining() == old(self).remaining().skip(len as int)
                &&& 1 <= len <= old(self).remaining().len()
            },
    {
        let s = self.rest;
        let c = match first_char(s) {
            Some(c) => c,
            None => {
                return None;
            },
        };
        let w = width(c);
        proof {
            assert(s@.take(1) =~= seq![c]);
            lemma_first_token_bound(s@, self.commands.names());
            lemma_utf8_len_bounds(s@);
            lemma_utf8_len_split(s@, 1);
        }
        let total = s.as_bytes().len();
        let (_, tail) = split_chars(s, w, Ghost(1));
        let d = first_char(tail);
        assert(d == second(s@));
        let kind = kind_of(c, d);
        let (k, n): (usize, usize) = match kind {
            Token::LineBreak => {
                let (k, n) = run(tail, CharClass::LineBreak);
                (1 + k, w + n)
            },
            Token::Whitespace => {
                let (k, n) = run(tail, CharClass::Blank);
                (1 + k, w + n)
            },
            Token::LineComment => {
                let (k, n) = run(tail, CharClass::CommentBody);
                (1 + k, w + n)
            },
            Token::Word => {
                let (k, n) = run(tail, CharClass::Word);
                (1 + k, w + n)
            },
            Token::Dollar => {
                match d {
                    Some('$') => (2, w + 1),
                    _ => (1, w),
                }
            },
            Token::NewLine => (2, w + 1),
            Token::CommandName(_) => lex_command_name(s, tail, self.commands),
            _ => (1, w),
        };
        proof {
            if k > 1 {
                assert(s@.take(k as int) =~= s@.take(1) + tail@.take(k - 1));
                lemma_encode_concat(s@.take(1), tail@.take(k - 1));
                if kind == Token::Dollar || kind == Token::NewLine {
                    assert(tail@.take(1) =~= seq![tail@[0]]);
                    lemma_ascii_width(tail@[0]);
                }
            }
            lemma_utf8_len_split(s@, k as int);
        }
        let (text, rest) = split_chars(s, n, Ghost(k as int));
        self.rest = rest;
        Some((kind, text))
    }
}

/// The kind of token that a text with the first character `c` and the second
/// character `d` starts with.
pub fn kind_of(c: char, d: Option<char>) -> (r: Token)
    ensures
        r == first_kind(c, d),
{
    if line_break(c) {
        Token::LineBreak
    } else if whitespace(c) {
        Token::Whitespace
    } else if c == '%' {
        Token::LineComment
    } else if c == '{' {
        Token::Left(BraceKind::Curly)
    } else if c == '[' {
        Token::Left(BraceKind::Bracket)
    } else if c == '(' {
        Token::Left(BraceKind::Paren)
    } else if c == '}' {
        Token::Right(BraceKind::Curly)
    } else if c == ']' {
        Token::Right(BraceKind::Bracket)
    } else if c == ')' {
        Token::Right(BraceKind::Paren)
    } else if c == ',' {
        Token::Comma
    } else if c == '~' {
        Token::Tilde
    } else if c == '/' {
        Token::Slash
    } else if c == '&' {
        Token::Ampersand
    } else if c == '^' {
        Token::Caret
    } else if c == '\'' {
        Token::Apostrophe
    } else if c == '"' {
        Token::Ditto
    } else if c == ';' {
        Token::Semicolon
    } else if c == '#' {
        Token::Hash
    } else if c == '_' {
        Token::Underscore
    } else if c == '$' {
        Token::Dollar
    } else if c == '\\' {
        match d {
            Some('\\') => Token::NewLine,
            _ => Token::CommandName(CommandName::Generic),
        }
    } else {
        Token::Word
    }
}

} // verus!
