use mitex::cache::{reversed, LexCache, PEEK_CACHE_SIZE};
use mitex::command_spec::CommandSpec;
use mitex::scan::{kind_of, lex_command_name, run, RawLexer};
use mitex::chars::CharClass;
use mitex::stream::StreamContext;
use mitex::text::{first_char, parse_u8, str_eq, width};
use mitex::token::{BraceKind, CommandName, Token};

const GENERIC: Token = Token::CommandName(CommandName::Generic);

#[test]
fn the_page_holds_170_tokens() {
    assert_eq!(PEEK_CACHE_SIZE, 170);
}

#[test]
fn a_fresh_cache_is_empty() {
    let cache = LexCache::default();
    assert_eq!(cache.peeked, None);
    assert!(cache.buf.is_empty());
}

#[test]
fn bump_takes_a_page_in_source_order() {
    let mut cache = LexCache::default();
    cache.bump(vec![(Token::Word, "a"), (Token::Comma, ","), (Token::Word, "b")]);
    assert_eq!(cache.peeked, Some((Token::Word, "a")));
    assert_eq!(cache.buf, vec![(Token::Word, "b"), (Token::Comma, ",")]);

    let mut cache = LexCache::default();
    cache.bump(Vec::new());
    assert_eq!(cache.peeked, None);
    assert!(cache.buf.is_empty());

    let mut cache = LexCache::default();
    cache.peeked = Some((Token::Tilde, "~"));
    cache.bump(vec![(Token::Word, "x"); 200]);
    assert_eq!(cache.peeked, Some((Token::Word, "x")));
    assert_eq!(cache.buf.len(), PEEK_CACHE_SIZE - 1);
}

#[test]
fn extend_puts_tokens_before_the_current_one() {
    let mut cache = LexCache::default();
    cache.bump(vec![(Token::Word, "a"), (Token::Word, "b")]);
    // the new tokens come last one first
    cache.extend(vec![(Token::Word, "z"), (Token::Word, "y"), (Token::Word, "x")]);
    let mut order = Vec::new();
    while let Some(t) = cache.peeked {
        order.push(t.1);
        cache.peeked = cache.buf.pop();
    }
    assert_eq!(order, vec!["x", "y", "z", "a", "b"]);

    let mut cache = LexCache::default();
    cache.extend(vec![(Token::Word, "y"), (Token::Word, "x")]);
    assert_eq!(cache.peeked, None);
    assert_eq!(cache.buf, vec![(Token::Word, "y"), (Token::Word, "x")]);

    let mut cache = LexCache::default();
    cache.bump(vec![(Token::Word, "a")]);
    cache.extend(Vec::new());
    assert_eq!(cache.peeked, Some((Token::Word, "a")));
    assert!(cache.buf.is_empty());
}

#[test]
fn reversed_turns_the_tokens_around() {
    let v = vec![(Token::Word, "a"), (Token::Comma, ","), (Token::Word, "b")];
    assert_eq!(
        reversed(&v),
        vec![(Token::Word, "b"), (Token::Comma, ","), (Token::Word, "a")]
    );
    assert_eq!(reversed(&Vec::new()), Vec::new());
}

#[test]
fn the_scanner_cuts_tokens_off_the_front() {
    let spec = CommandSpec::new();
    let mut raw = RawLexer::new(r"\begin x", &spec);
    assert_eq!(raw.rest(), r"\begin x");
    // the scanner itself does not classify
    assert_eq!(raw.next(), Some((GENERIC, r"\begin")));
    assert_eq!(raw.rest(), " x");
    assert_eq!(raw.next(), Some((Token::Whitespace, " ")));
    assert_eq!(raw.next(), Some((Token::Word, "x")));
    assert_eq!(raw.next(), None);
    assert_eq!(raw.next(), None);
    assert_eq!(raw.commands().len(), 0);

    let mut raw = RawLexer::new(r"\begin x", &spec);
    assert_eq!(
        StreamContext::lex_one(&mut raw),
        Some((Token::CommandName(CommandName::BeginEnvironment), r"\begin"))
    );
}

#[test]
fn runs_are_measured_in_characters_and_bytes() {
    assert_eq!(run("abc def", CharClass::Word), (3, 3));
    assert_eq!(run("\u{e9}\u{4e2d}a b", CharClass::Word), (3, 6));
    assert_eq!(run("abc", CharClass::Blank), (0, 0));
    assert_eq!(run("", CharClass::Word), (0, 0));
    assert_eq!(run("\n\r x", CharClass::LineBreak), (2, 2));
    assert_eq!(run("ab@c1", CharClass::Name), (4, 4));
    assert_eq!(run("x y\nz", CharClass::CommentBody), (3, 3));
    assert_eq!(run(" \u{3000}\t\nx", CharClass::Blank), (3, 5));
    assert!(CharClass::Word.has('a'));
    assert!(!CharClass::Word.has('{'));
    assert!(!CharClass::Word.has(' '));
    assert!(CharClass::Name.has('@'));
    assert!(!CharClass::Name.has('1'));
}

#[test]
fn commands_are_measured_with_their_backslash() {
    let spec = CommandSpec::new();
    assert_eq!(lex_command_name(r"\frac{1}", "frac{1}", &spec), (5, 5));
    assert_eq!(lex_command_name("\\", "", &spec), (1, 1));
    assert_eq!(lex_command_name("\\ a", " a", &spec), (1, 1));
    assert_eq!(lex_command_name("\\\u{4e2d}a", "\u{4e2d}a", &spec), (2, 4));
    assert_eq!(lex_command_name(r"\a*", "a*", &spec), (2, 2));
    assert_eq!(kind_of('\\', Some('\\')), Token::NewLine);
    assert_eq!(kind_of('\\', None), GENERIC);
    assert_eq!(kind_of('x', Some('\\')), Token::Word);
    assert_eq!(kind_of('\u{2028}', None), Token::Whitespace);
    assert_eq!(kind_of('\r', None), Token::LineBreak);
}

#[test]
fn text_helpers() {
    assert_eq!(width('a'), 1);
    assert_eq!(width('\u{e9}'), 2);
    assert_eq!(width('\u{4e2d}'), 3);
    assert_eq!(width('\u{1f600}'), 4);
    assert_eq!(first_char(""), None);
    assert_eq!(first_char("\u{e9}a"), Some('\u{e9}'));
    assert!(str_eq("abc", "abc"));
    assert!(!str_eq("abc", "abd"));
    assert!(!str_eq("abc", "ab"));
    assert!(str_eq("", ""));
}

#[test]
fn numbers_below_256_are_read() {
    assert_eq!(parse_u8("0"), Some(0));
    assert_eq!(parse_u8("2"), Some(2));
    assert_eq!(parse_u8("255"), Some(255));
    assert_eq!(parse_u8("256"), None);
    assert_eq!(parse_u8("+5"), Some(5));
    assert_eq!(parse_u8("007"), Some(7));
    assert_eq!(parse_u8(""), None);
    assert_eq!(parse_u8("+"), None);
    assert_eq!(parse_u8("-1"), None);
    assert_eq!(parse_u8("1a"), None);
    assert_eq!(parse_u8("99999999999999999999"), None);
    for s in ["0", "2", "255", "256", "+5", "007", "", "+", "-1", "1a", "++1", " 1"] {
        assert_eq!(parse_u8(s), s.parse::<u8>().ok());
    }
}

#[test]
fn the_inner_stream_moves_token_by_token() {
    let spec = CommandSpec::new();
    let mut ctx = StreamContext::new("a  b", &spec);
    assert_eq!(ctx.peek_full(), None);
    assert_eq!(ctx.peek(), None);
    ctx.next_token();
    assert_eq!(ctx.peek_full(), Some((Token::Word, "a")));
    assert_eq!(ctx.peek(), Some(Token::Word));
    assert_eq!(ctx.next_full(), Some((Token::Whitespace, "  ")));
    assert_eq!(ctx.next_full(), Some((Token::Word, "b")));
    assert_eq!(ctx.next_full(), None);
    assert_eq!(ctx.next_full(), None);
}

#[test]
fn trivia_are_skipped_on_request() {
    let spec = CommandSpec::new();
    let mut ctx = StreamContext::new("a % c\n b", &spec);
    ctx.next_token();
    assert_eq!(ctx.peek_not_trivia(), Some(Token::Word));
    assert_eq!(ctx.peek_full(), Some((Token::Word, "a")));
    assert_eq!(ctx.next_not_trivia(), Some(Token::Word));
    assert_eq!(ctx.peek_full(), Some((Token::Word, "b")));
    assert_eq!(ctx.next_not_trivia(), None);
    assert_eq!(ctx.peek_full(), None);

    let mut ctx = StreamContext::new("  x", &spec);
    assert_eq!(ctx.peek_not_trivia(), Some(Token::Word));
    let mut ctx = StreamContext::new("  ", &spec);
    assert_eq!(ctx.peek_not_trivia(), None);
}

#[test]
fn eat_if_moves_on_only_over_the_given_token() {
    let spec = CommandSpec::new();
    let mut ctx = StreamContext::new("]a", &spec);
    ctx.next_token();
    ctx.eat_if(Token::Right(BraceKind::Curly));
    assert_eq!(ctx.peek(), Some(Token::Right(BraceKind::Bracket)));
    ctx.eat_if(Token::Right(BraceKind::Bracket));
    assert_eq!(ctx.peek_full(), Some((Token::Word, "a")));
    ctx.eat_if(Token::Word);
    assert_eq!(ctx.peek_full(), None);
    ctx.eat_if(Token::Word);
    assert_eq!(ctx.peek_full(), None);
}

#[test]
fn outer_and_inner_caches_take_tokens() {
    let spec = CommandSpec::new();
    let mut ctx = StreamContext::new("c", &spec);
    ctx.push_outer((Token::Word, "o"));
    assert_eq!(ctx.peek_outer.buf, vec![(Token::Word, "o")]);
    ctx.next_token();
    // the last one first
    ctx.extend_inner(vec![(Token::Word, "b"), (Token::Word, "a")]);
    assert_eq!(ctx.peek_full(), Some((Token::Word, "a")));
    assert_eq!(ctx.next_full(), Some((Token::Word, "b")));
    assert_eq!(ctx.next_full(), Some((Token::Word, "c")));
    assert_eq!(ctx.next_full(), None);
}

#[test]
fn a_number_is_read_with_its_closer() {
    let spec = CommandSpec::new();
    let mut ctx = StreamContext::new("2]{x}", &spec);
    ctx.next_token();
    assert_eq!(ctx.peek_u8_opt(BraceKind::Bracket), Some(2));
    assert_eq!(ctx.peek(), Some(Token::Left(BraceKind::Curly)));

    let mut ctx = StreamContext::new("12 x", &spec);
    ctx.next_token();
    assert_eq!(ctx.peek_u8_opt(BraceKind::Bracket), Some(12));
    assert_eq!(ctx.peek_full(), Some((Token::Word, "x")));

    let mut ctx = StreamContext::new("300]", &spec);
    ctx.next_token();
    assert_eq!(ctx.peek_u8_opt(BraceKind::Bracket), None);

    let mut ctx = StreamContext::new("a]b", &spec);
    ctx.next_token();
    assert_eq!(ctx.peek_u8_opt(BraceKind::Bracket), None);
    assert_eq!(ctx.peek_full(), Some((Token::Word, "b")));

    // nothing follows: the number is lost
    let mut ctx = StreamContext::new("2 ", &spec);
    ctx.next_token();
    assert_eq!(ctx.peek_u8_opt(BraceKind::Bracket), None);
    assert_eq!(ctx.peek_full(), None);
}

#[test]
fn a_command_name_is_read_with_its_closer() {
    let spec = CommandSpec::new();
    let mut ctx = StreamContext::new(r"\foo }[", &spec);
    ctx.next_token();
    assert_eq!(ctx.peek_cmd_name_opt(BraceKind::Curly), Some((GENERIC, r"\foo")));
    assert_eq!(ctx.peek(), Some(Token::Left(BraceKind::Bracket)));

    let mut ctx = StreamContext::new(r"foo}", &spec);
    ctx.next_token();
    assert_eq!(ctx.peek_cmd_name_opt(BraceKind::Curly), None);
    assert_eq!(ctx.peek_full(), None);

    let mut ctx = StreamContext::new(r"\foo", &spec);
    ctx.next_token();
    assert_eq!(ctx.peek_cmd_name_opt(BraceKind::Curly), None);
}

#[test]
fn reading_stops_at_the_balanced_closer() {
    let spec = CommandSpec::new();
    let mut ctx = StreamContext::new("a{b}c}d", &spec);
    ctx.next_token();
    let body = ctx.read_until_balanced(BraceKind::Curly);
    let texts: Vec<&str> = body.iter().map(|t| t.1).collect();
    assert_eq!(texts, vec!["a", "{", "b", "}", "c"]);
    assert_eq!(ctx.peek_full(), Some((Token::Word, "d")));

    let mut ctx = StreamContext::new("a{]}]b", &spec);
    ctx.next_token();
    let body = ctx.read_until_balanced(BraceKind::Bracket);
    let texts: Vec<&str> = body.iter().map(|t| t.1).collect();
    assert_eq!(texts, vec!["a", "{", "]", "}"]);
    assert_eq!(ctx.peek_full(), Some((Token::Word, "b")));

    // a closing brace too many is counted: the closer after it does not end the reading
    let mut ctx = StreamContext::new("}]{]x", &spec);
    ctx.next_token();
    let body = ctx.read_until_balanced(BraceKind::Bracket);
    let texts: Vec<&str> = body.iter().map(|t| t.1).collect();
    assert_eq!(texts, vec!["}", "]", "{"]);
    assert_eq!(ctx.peek_full(), Some((Token::Word, "x")));

    let mut ctx = StreamContext::new("a b", &spec);
    ctx.next_token();
    let body = ctx.read_until_balanced(BraceKind::Curly);
    assert_eq!(body.len(), 3);
    assert_eq!(ctx.peek_full(), None);

    let mut ctx = StreamContext::new("}a", &spec);
    let body = ctx.read_until_balanced(BraceKind::Curly);
    assert!(body.is_empty());
    assert_eq!(ctx.peek_full(), Some((Token::Word, "a")));
}
