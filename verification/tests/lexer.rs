use mitex::command_spec::{CommandDescriptor, CommandSpec};
use mitex::lexer::Lexer;
use mitex::token::{classify, command_name, BraceKind, CommandName, Token};

fn tokens_with(input: &str, spec: &CommandSpec) -> Vec<(Token, String)> {
    let mut lexer = Lexer::new(input, spec);
    let mut out = Vec::new();
    while let Some((kind, text)) = lexer.eat() {
        out.push((kind, text.to_string()));
    }
    out
}

fn tokens(input: &str) -> Vec<(Token, String)> {
    tokens_with(input, &CommandSpec::new())
}

fn tok(kind: Token, text: &str) -> (Token, String) {
    (kind, text.to_string())
}

const GENERIC: Token = Token::CommandName(CommandName::Generic);

#[test]
fn empty_input_has_no_tokens() {
    assert_eq!(tokens(""), vec![]);
    let spec = CommandSpec::new();
    let mut lexer = Lexer::new("", &spec);
    assert_eq!(lexer.peek(), None);
    assert_eq!(lexer.peek_text(), None);
    assert_eq!(lexer.peek_char(), None);
    assert_eq!(lexer.eat(), None);
    assert_eq!(lexer.eat(), None);
}

#[test]
fn double_backslash_is_one_new_line() {
    assert_eq!(tokens(r"\\"), vec![tok(Token::NewLine, r"\\")]);
    assert_eq!(
        tokens(r"a\\b"),
        vec![
            tok(Token::Word, "a"),
            tok(Token::NewLine, r"\\"),
            tok(Token::Word, "b")
        ]
    );
    assert_eq!(
        tokens(r"\\\a"),
        vec![tok(Token::NewLine, r"\\"), tok(GENERIC, r"\a")]
    );
}

#[test]
fn backslash_space_is_an_empty_command() {
    assert_eq!(
        tokens(r"\ x"),
        vec![
            tok(GENERIC, r"\"),
            tok(Token::Whitespace, " "),
            tok(Token::Word, "x")
        ]
    );
    assert_eq!(tokens("\\"), vec![tok(GENERIC, "\\")]);
    assert_eq!(
        tokens("\\\n"),
        vec![tok(GENERIC, "\\"), tok(Token::LineBreak, "\n")]
    );
}

#[test]
fn star_belongs_to_a_declared_starred_command() {
    let mut starred = CommandSpec::new();
    starred.insert("foo", CommandDescriptor::symbol());
    starred.insert("foo*", CommandDescriptor::symbol());
    assert_eq!(tokens_with(r"\foo*", &starred), vec![tok(GENERIC, r"\foo*")]);
    assert_eq!(
        tokens_with(r"\foo*x", &starred),
        vec![tok(GENERIC, r"\foo*"), tok(Token::Word, "x")]
    );

    let mut plain = CommandSpec::new();
    plain.insert("foo", CommandDescriptor::symbol());
    assert_eq!(
        tokens_with(r"\foo*", &plain),
        vec![tok(GENERIC, r"\foo"), tok(Token::Word, "*")]
    );
    assert_eq!(
        tokens_with(r"\foo*x", &plain),
        vec![tok(GENERIC, r"\foo"), tok(Token::Word, "*x")]
    );
}

#[test]
fn begin_is_classified_whatever_is_declared() {
    let begin = Token::CommandName(CommandName::BeginEnvironment);
    assert_eq!(tokens(r"\begin")[0], tok(begin, r"\begin"));
    let mut spec = CommandSpec::new();
    spec.insert("begin", CommandDescriptor::infix());
    spec.insert("begin*", CommandDescriptor::left1());
    assert_eq!(tokens_with(r"\begin{a}", &spec)[0], tok(begin, r"\begin"));
    assert_eq!(tokens_with(r"\begin*", &spec), vec![tok(GENERIC, r"\begin*")]);
    assert_eq!(tokens(r"\beginx"), vec![tok(GENERIC, r"\beginx")]);
}

#[test]
fn special_commands_are_classified() {
    assert_eq!(classify("begin"), CommandName::BeginEnvironment);
    assert_eq!(classify("end"), CommandName::EndEnvironment);
    assert_eq!(classify("iffalse"), CommandName::BeginBlockComment);
    assert_eq!(classify("fi"), CommandName::EndBlockComment);
    assert_eq!(classify("left"), CommandName::Left);
    assert_eq!(classify("right"), CommandName::Right);
    assert_eq!(classify("alpha"), CommandName::Generic);
    assert_eq!(classify(""), CommandName::Generic);
    assert_eq!(classify("Begin"), CommandName::Generic);
    assert_eq!(
        tokens(r"\end\iffalse\fi\left\right"),
        vec![
            tok(Token::CommandName(CommandName::EndEnvironment), r"\end"),
            tok(Token::CommandName(CommandName::BeginBlockComment), r"\iffalse"),
            tok(Token::CommandName(CommandName::EndBlockComment), r"\fi"),
            tok(Token::CommandName(CommandName::Left), r"\left"),
            tok(Token::CommandName(CommandName::Right), r"\right"),
        ]
    );
}

#[test]
fn command_names_are_letters_or_one_character() {
    assert_eq!(
        tokens(r"\;a"),
        vec![tok(GENERIC, r"\;"), tok(Token::Word, "a")]
    );
    assert_eq!(
        tokens(r"\foo1"),
        vec![tok(GENERIC, r"\foo"), tok(Token::Word, "1")]
    );
    assert_eq!(tokens(r"\@foo@bar"), vec![tok(GENERIC, r"\@foo@bar")]);
    assert_eq!(
        tokens(r"\foo_x"),
        vec![
            tok(GENERIC, r"\foo"),
            tok(Token::Underscore, "_"),
            tok(Token::Word, "x")
        ]
    );
    assert_eq!(
        tokens("\\\u{e9}a"),
        vec![tok(GENERIC, "\\\u{e9}"), tok(Token::Word, "a")]
    );
    assert_eq!(
        tokens("\\a\u{e9}"),
        vec![tok(GENERIC, "\\a"), tok(Token::Word, "\u{e9}")]
    );
    assert_eq!(tokens(r"\{"), vec![tok(GENERIC, r"\{")]);
    assert_eq!(tokens(r"\*"), vec![tok(GENERIC, r"\*")]);
}

#[test]
fn punctuation_has_its_own_tokens() {
    assert_eq!(
        tokens("{[()]},~/&^'\";#_"),
        vec![
            tok(Token::Left(BraceKind::Curly), "{"),
            tok(Token::Left(BraceKind::Bracket), "["),
            tok(Token::Left(BraceKind::Paren), "("),
            tok(Token::Right(BraceKind::Paren), ")"),
            tok(Token::Right(BraceKind::Bracket), "]"),
            tok(Token::Right(BraceKind::Curly), "}"),
            tok(Token::Comma, ","),
            tok(Token::Tilde, "~"),
            tok(Token::Slash, "/"),
            tok(Token::Ampersand, "&"),
            tok(Token::Caret, "^"),
            tok(Token::Apostrophe, "'"),
            tok(Token::Ditto, "\""),
            tok(Token::Semicolon, ";"),
            tok(Token::Hash, "#"),
            tok(Token::Underscore, "_"),
        ]
    );
}

#[test]
fn dollars_pair_up() {
    assert_eq!(tokens("$"), vec![tok(Token::Dollar, "$")]);
    assert_eq!(tokens("$$"), vec![tok(Token::Dollar, "$$")]);
    assert_eq!(
        tokens("$$$"),
        vec![tok(Token::Dollar, "$$"), tok(Token::Dollar, "$")]
    );
    assert_eq!(
        tokens("$a$"),
        vec![
            tok(Token::Dollar, "$"),
            tok(Token::Word, "a"),
            tok(Token::Dollar, "$")
        ]
    );
}

#[test]
fn trivia_are_runs() {
    assert_eq!(
        tokens("a%b c\nd"),
        vec![
            tok(Token::Word, "a"),
            tok(Token::LineComment, "%b c"),
            tok(Token::LineBreak, "\n"),
            tok(Token::Word, "d"),
        ]
    );
    assert_eq!(tokens(" \t "), vec![tok(Token::Whitespace, " \t ")]);
    assert_eq!(tokens("\r\n\n"), vec![tok(Token::LineBreak, "\r\n\n")]);
    assert_eq!(
        tokens(" \n "),
        vec![
            tok(Token::Whitespace, " "),
            tok(Token::LineBreak, "\n"),
            tok(Token::Whitespace, " ")
        ]
    );
    assert_eq!(
        tokens("a\u{3000}\u{a0}b"),
        vec![
            tok(Token::Word, "a"),
            tok(Token::Whitespace, "\u{3000}\u{a0}"),
            tok(Token::Word, "b")
        ]
    );
    assert_eq!(tokens("%"), vec![tok(Token::LineComment, "%")]);
    for kind in [Token::Whitespace, Token::LineBreak, Token::LineComment] {
        assert!(kind.is_trivia());
    }
    for kind in [
        Token::Word,
        Token::NewLine,
        Token::Error,
        Token::MacroArg(1),
        Token::Left(BraceKind::Curly),
        GENERIC,
    ] {
        assert!(!kind.is_trivia());
    }
}

#[test]
fn words_are_maximal() {
    assert_eq!(tokens("abc+1=2"), vec![tok(Token::Word, "abc+1=2")]);
    assert_eq!(
        tokens("x'"),
        vec![tok(Token::Word, "x"), tok(Token::Apostrophe, "'")]
    );
    assert_eq!(
        tokens("\u{e9}t\u{e9} \u{4e2d}"),
        vec![
            tok(Token::Word, "\u{e9}t\u{e9}"),
            tok(Token::Whitespace, " "),
            tok(Token::Word, "\u{4e2d}")
        ]
    );
}

#[test]
fn tokens_spell_the_source() {
    let input = "a \\frac{1}{2} % c\n\\begin{x}\u{e9}_1'\\end{x}\\\\ $$ [0,1) \\ ";
    let spelled: String = tokens(input).into_iter().map(|t| t.1).collect();
    assert_eq!(spelled, input);
}

#[test]
fn peeking_does_not_consume() {
    let spec = CommandSpec::new();
    let mut lexer = Lexer::new("ab c", &spec);
    assert_eq!(lexer.peek(), Some(Token::Word));
    assert_eq!(lexer.peek(), Some(Token::Word));
    assert_eq!(lexer.peek_text(), Some("ab"));
    assert_eq!(lexer.peek_char(), Some('a'));
    assert_eq!(lexer.eat(), Some((Token::Word, "ab")));
    assert_eq!(lexer.peek(), Some(Token::Whitespace));
    assert_eq!(lexer.peek_char(), Some(' '));
}

#[test]
fn consuming_bytes_shortens_the_token() {
    let spec = CommandSpec::new();
    let mut lexer = Lexer::new("abc d", &spec);
    lexer.consume_utf8_bytes(1);
    assert_eq!(lexer.peek(), Some(Token::Word));
    assert_eq!(lexer.peek_text(), Some("bc"));
    lexer.consume_utf8_bytes(2);
    assert_eq!(lexer.peek(), Some(Token::Whitespace));
    lexer.consume_utf8_bytes(7);
    assert_eq!(lexer.eat(), Some((Token::Word, "d")));
    lexer.consume_utf8_bytes(1);
    assert_eq!(lexer.peek(), None);

    let mut lexer = Lexer::new("\u{e9}a", &spec);
    assert_eq!(lexer.peek_char(), Some('\u{e9}'));
    lexer.consume_utf8_bytes(2);
    assert_eq!(lexer.peek_text(), Some("a"));
}

#[test]
fn more_than_a_page_of_tokens_comes_in_order() {
    let input = "a ".repeat(500);
    let all = tokens(&input);
    assert_eq!(all.len(), 1000);
    for (i, t) in all.iter().enumerate() {
        if i % 2 == 0 {
            assert_eq!(*t, tok(Token::Word, "a"));
        } else {
            assert_eq!(*t, tok(Token::Whitespace, " "));
        }
    }
}

#[test]
fn the_default_bumper_knows_no_macros() {
    let spec = CommandSpec::new();
    let mut lexer = Lexer::new(r"\newcommand{\f}{x}\f", &spec);
    while lexer.eat().is_some() {}
    assert!(lexer.get_macro("f").is_none());
}

#[test]
fn command_name_drops_the_backslash() {
    assert_eq!(command_name(r"\frac"), "frac");
    assert_eq!(command_name("\\"), "");
    assert_eq!(command_name("frac"), "frac");
    assert_eq!(command_name(""), "");
    assert_eq!(command_name(r"\\"), "\\");
}
