//! Token kinds of the TeX lexer.

use vstd::prelude::*;

use crate::text::{first_char, lemma_ascii_width, split_chars, str_eq};

verus! {

/// Brace kinds in TeX.
#[derive(Debug, PartialEq, Eq, PartialOrd, Ord, Clone, Copy, Hash, Structural)]
pub enum BraceKind {
    /// Curly braces: `{` or `}`
    Curly,
    /// Brackets: `[` or `]`
    Bracket,
    /// Parentheses: `(` or `)`
    Paren,
}

/// The classification of a command name, used by the parser.
#[derive(Debug, PartialEq, Eq, PartialOrd, Ord, Clone, Copy, Hash, Structural)]
pub enum CommandName {
    /// Any command without a structural role
    Generic,
    /// `\begin`
    BeginEnvironment,
    /// `\end`
    EndEnvironment,
    /// `\iffalse`
    BeginBlockComment,
    /// `\fi`
    EndBlockComment,
    /// `\left`
    Left,
    /// `\right`
    Right,
}

/// One lexical atom of TeX source.
#[derive(Debug, PartialEq, Eq, PartialOrd, Ord, Clone, Copy, Hash, Structural)]
pub enum Token {
    /// A run of `\r` and `\n`
    LineBreak,
    /// A run of white space other than line breaks
    Whitespace,
    /// `%` up to the end of the line
    LineComment,
    /// An opening brace
    Left(BraceKind),
    /// A closing brace
    Right(BraceKind),
    /// `,`
    Comma,
    /// `~`
    Tilde,
    /// `/`
    Slash,
    /// `&`
    Ampersand,
    /// `^`
    Caret,
    /// `'`
    Apostrophe,
    /// `"`
    Ditto,
    /// `;`
    Semicolon,
    /// `#`
    Hash,
    /// `_`
    Underscore,
    /// A run of characters without a role of their own
    Word,
    /// `$` or `$$`
    Dollar,
    /// The literal `\\`
    NewLine,
    /// A backslash and a command name
    CommandName(CommandName),
    /// A token that could not be made sense of
    Error,
    /// The marker `#n` inside a macro body
    MacroArg(u8),
}

impl Token {
    /// Whether the token is white space, a line break or a comment.
    pub open spec fn spec_is_trivia(&self) -> bool {
        *self == Token::LineBreak || *self == Token::Whitespace || *self == Token::LineComment
    }

    /// Whether the token is white space, a line break or a comment.
    #[verifier::when_used_as_spec(spec_is_trivia)]
    pub fn is_trivia(&self) -> (r: bool)
        ensures
            r == self.spec_is_trivia(),
    {
        match self {
            Token::LineBreak | Token::Whitespace | Token::LineComment => true,
            _ => false,
        }
    }
}

/// The classification of the command called `name` (the backslash left out).
///
/// It depends on the name alone, never on the commands that are declared.
pub open spec fn classification(name: Seq<char>) -> CommandName {
    if name == "begin"@ {
        CommandName::BeginEnvironment
    } else if name == "end"@ {
        CommandName::EndEnvironment
    } else if name == "iffalse"@ {
        CommandName::BeginBlockComment
    } else if name == "fi"@ {
        CommandName::EndBlockComment
    } else if name == "left"@ {
        CommandName::Left
    } else if name == "right"@ {
        CommandName::Right
    } else {
        CommandName::Generic
    }
}

/// Classifies a command name, so that the parser need not compare names again.
pub fn classify(name: &str) -> (r: CommandName)
    ensures
        r == classification(name@),
{
    if str_eq(name, "begin") {
        CommandName::BeginEnvironment
    } else if str_eq(name, "end") {
        CommandName::EndEnvironment
    } else if str_eq(name, "iffalse") {
        CommandName::BeginBlockComment
    } else if str_eq(name, "fi") {
        CommandName::EndBlockComment
    } else if str_eq(name, "left") {
        CommandName::Left
    } else if str_eq(name, "right") {
        CommandName::Right
    } else {
        CommandName::Generic
    }
}

/// The name of the command with the text `text`: the text without its backslash.
pub open spec fn name_of(text: Seq<char>) -> Seq<char> {
    if text.len() > 0 && text[0] == '\\' {
        text.skip(1)
    } else {
        text
    }
}

/// The name of the command with the text `text`: the text without its backslash.
pub fn command_name<'a>(text: &'a str) -> (r: &'a str)
    ensures
        r@ == name_of(text@),
{
    match first_char(text) {
        Some('\\') => {
            proof {
                assert(text@.take(1) =~= seq!['\\']);
                lemma_ascii_width('\\');
            }
            split_chars(text, 1, Ghost(1)).1
        },
        _ => text,
    }
}

} // verus!
