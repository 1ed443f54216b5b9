//! Character classes of the TeX lexer.

use vstd::prelude::*;

verus! {

/// Whether `c` has the Unicode property `White_Space`.
pub open spec fn is_whitespace(c: char) -> bool {
    let u = c as u32;
    ||| 0x09 <= u <= 0x0d
    ||| u == 0x20
    ||| u == 0x85
    ||| u == 0xa0
    ||| u == 0x1680
    ||| 0x2000 <= u <= 0x200a
    ||| u == 0x2028
    ||| u == 0x2029
    ||| u == 0x202f
    ||| u == 0x205f
    ||| u == 0x3000
}

/// Whether `c` is a carriage return or a line feed.
pub open spec fn is_line_break(c: char) -> bool {
    c == '\r' || c == '\n'
}

/// Whether `c` is an ASCII letter.
pub open spec fn is_ascii_alphabetic(c: char) -> bool {
    ('a' <= c && c <= 'z') || ('A' <= c && c <= 'Z')
}

/// Whether `c` is an ASCII digit.
pub open spec fn is_ascii_digit(c: char) -> bool {
    '0' <= c && c <= '9'
}

/// Whether `c` can continue a multi-letter command name.
pub open spec fn is_name_char(c: char) -> bool {
    is_ascii_alphabetic(c) || c == '@'
}

/// Whether `c` is a character with a token of its own, which therefore ends a word.
pub open spec fn is_special(c: char) -> bool {
    ||| c == '\\'
    ||| c == '%'
    ||| c == '{'
    ||| c == '}'
    ||| c == ','
    ||| c == '$'
    ||| c == '['
    ||| c == ']'
    ||| c == '('
    ||| c == ')'
    ||| c == '~'
    ||| c == '/'
    ||| c == '_'
    ||| c == '\''
    ||| c == '"'
    ||| c == ';'
    ||| c == '&'
    ||| c == '^'
    ||| c == '#'
}

/// The classes of characters of which the lexer takes maximal runs.
#[derive(Debug, PartialEq, Eq, Clone, Copy, Structural)]
pub enum CharClass {
    /// Carriage returns and line feeds
    LineBreak,
    /// White space other than line breaks
    Blank,
    /// Anything but a line break: the body of a line comment
    CommentBody,
    /// ASCII letters and `@`: the tail of a command name
    Name,
    /// Anything that is neither white space nor special
    Word,
}

impl CharClass {
    /// Whether `c` belongs to the class.
    pub open spec fn spec_has(self, c: char) -> bool {
        match self {
            CharClass::LineBreak => is_line_break(c),
            CharClass::Blank => is_whitespace(c) && !is_line_break(c),
            CharClass::CommentBody => !is_line_break(c),
            CharClass::Name => is_name_char(c),
            CharClass::Word => !is_whitespace(c) && !is_special(c),
        }
    }

    /// Whether `c` belongs to the class.
    #[verifier::when_used_as_spec(spec_has)]
    pub fn has(self, c: char) -> (r: bool)
        ensures
            r == self.spec_has(c),
    {
        match self {
            CharClass::LineBreak => line_break(c),
            CharClass::Blank => whitespace(c) && !line_break(c),
            CharClass::CommentBody => !line_break(c),
            CharClass::Name => name_char(c),
            CharClass::Word => !whitespace(c) && !special(c),
        }
    }
}

/// Tests for the Unicode property `White_Space`.
pub fn whitespace(c: char) -> (r: bool)
    ensures
        r == is_whitespace(c),
{
    let u: u32 = c as u32;
    (0x09 <= u && u <= 0x0d) || u == 0x20 || u == 0x85 || u == 0xa0 || u == 0x1680 || (0x2000 <= u
        && u <= 0x200a) || u == 0x2028 || u == 0x2029 || u == 0x202f || u == 0x205f || u == 0x3000
}

/// Tests for a carriage return or a line feed.
pub fn line_break(c: char) -> (r: bool)
    ensures
        r == is_line_break(c),
{
    c == '\r' || c == '\n'
}

/// Tests for an ASCII letter.
pub fn ascii_alphabetic(c: char) -> (r: bool)
    ensures
        r == is_ascii_alphabetic(c),
{
    ('a' <= c && c <= 'z') || ('A' <= c && c <= 'Z')
}

/// Tests for a character that can continue a command name.
pub fn name_char(c: char) -> (r: bool)
    ensures
        r == is_name_char(c),
{
    ascii_alphabetic(c) || c == '@'
}

/// Tests for a character with a token of its own.
pub fn special(c: char) -> (r: bool)
    ensures
        r == is_special(c),
{
    c == '\\' || c == '%' || c == '{' || c == '}' || c == ',' || c == '$' || c == '[' || c == ']'
        || c == '(' || c == ')' || c == '~' || c == '/' || c == '_' || c == '\'' || c == '"' || c
        == ';' || c == '&' || c == '^' || c == '#'
}

} // verus!
