use mitex::command_spec::{CommandDescriptor, CommandSpec};
use mitex::lexer::{BumpTokenStream, Lexer, MacroifyStream};
use mitex::macro_engine::{
    copy_toks, mark_arguments, read_argument, read_body, read_def, read_group, read_newcommand,
    substitute,
    Macro, MacroEngine,
};
use mitex::parser::{parse, parse_expanded};
use mitex::stream::StreamContext;
use mitex::syntax::{SyntaxElement, SyntaxKind, SyntaxNode};
use mitex::token::{BraceKind, CommandName, Token};

fn kind_name(kind: SyntaxKind) -> &'static str {
    match kind {
        SyntaxKind::TokenError => "error'",
        SyntaxKind::TokenLineBreak => "br'",
        SyntaxKind::TokenWhiteSpace => "space'",
        SyntaxKind::TokenComment => "comment'",
        SyntaxKind::TokenLBrace => "lbrace'",
        SyntaxKind::TokenRBrace => "rbrace'",
        SyntaxKind::TokenLBracket => "lbracket'",
        SyntaxKind::TokenRBracket => "rbracket'",
        SyntaxKind::TokenLParen => "lparen'",
        SyntaxKind::TokenRParen => "rparen'",
        SyntaxKind::TokenComma => "comma'",
        SyntaxKind::TokenTilde => "tilde'",
        SyntaxKind::TokenSlash => "slash'",
        SyntaxKind::TokenWord => "word'",
        SyntaxKind::TokenDollar => "dollar'",
        SyntaxKind::TokenAmpersand => "ampersand'",
        SyntaxKind::TokenHash => "hash'",
        SyntaxKind::TokenUnderscore => "underline'",
        SyntaxKind::TokenCaret => "caret'",
        SyntaxKind::TokenApostrophe => "apostrophe'",
        SyntaxKind::TokenDitto => "ditto'",
        SyntaxKind::TokenSemicolon => "semicolon'",
        SyntaxKind::ClauseCommandName => "cmd-name",
        SyntaxKind::ClauseArgument => "args",
        SyntaxKind::ItemNewLine => "newline",
        SyntaxKind::ItemText => "text",
        SyntaxKind::ItemCurly => "curly",
        SyntaxKind::ItemBracket => "bracket",
        SyntaxKind::ItemParen => "paren",
        SyntaxKind::ItemCmd => "cmd",
        SyntaxKind::ItemEnv => "env",
        SyntaxKind::ItemBegin => "begin",
        SyntaxKind::ItemEnd => "end",
        SyntaxKind::ItemBlockComment => "block-comment",
        SyntaxKind::ItemAttachComponent => "attach-comp",
        SyntaxKind::ScopeRoot => "root",
    }
}

/// The tree on one line: `kind[child child]` for a node, `kind"text"` for a leaf.
fn show(node: &SyntaxNode) -> String {
    let children: Vec<String> = node
        .children
        .iter()
        .map(|child| match child {
            SyntaxElement::Node(n) => show(n),
            SyntaxElement::Token(t) => format!("{}{:?}", kind_name(t.kind), t.text),
        })
        .collect();
    format!("{}[{}]", kind_name(node.kind), children.join(" "))
}

fn spec() -> CommandSpec {
    let mut spec = CommandSpec::new();
    spec.insert("frac", CommandDescriptor::terms(2));
    spec.insert("over", CommandDescriptor::infix());
    spec
}

fn expanded(input: &str) -> String {
    let spec = spec();
    parse_expanded(input, &spec, 10_000).text()
}

fn texts<'a>(tokens: &[(Token, &'a str)]) -> Vec<&'a str> {
    tokens.iter().map(|t| t.1).collect()
}

#[test]
fn a_macro_without_parameters_is_replaced_by_its_body() {
    assert_eq!(expanded(r"\newcommand{\R}{\mathbb{R}}x\in\R"), r"x\in\mathbb{R}");
    assert_eq!(expanded(r"\newcommand\R{y}\R\R"), "yy");
    assert_eq!(expanded(r"\newcommand{\e}{}a\e b"), "a b");
}

#[test]
fn parameters_are_replaced_by_the_arguments() {
    assert_eq!(expanded(r"\newcommand{\f}[2]{#1+#2}\f{a}{b}"), "a+b");
    assert_eq!(expanded(r"\newcommand{\f}[2]{#2#1#2}\f x y"), "yxy");
    // an argument is a whole token, and a missing one is empty
    assert_eq!(expanded(r"\newcommand{\f}[2]{#2#1#2}\f xy"), "xy");
    assert_eq!(expanded(r"\newcommand{\f}[2]{#1+#2} \f {a b} {c}!"), " a b+c!");
    assert_eq!(expanded(r"\newcommand{\f}[1]{[#1]}\f{{a}}"), "[{a}]");
    assert_eq!(expanded(r"\newcommand{\f}[1]{#1x}\f"), "x");
    assert_eq!(expanded(r"\renewcommand{\f}[1]{#1#1}\f{ab}"), "abab");
    assert_eq!(expanded(r"\providecommand{\f}[1]{<#1>}\f1"), "<1>");
}

#[test]
fn def_counts_its_hashes() {
    assert_eq!(expanded(r"\def\sq#1{#1^2}\sq x"), "x^2");
    assert_eq!(expanded(r"\def\p#1#2{(#1,#2)}\p a b"), "(a,b)");
    assert_eq!(expanded(r"\def\c{z}\c"), "z");
}

#[test]
fn the_expansion_is_expanded_again() {
    assert_eq!(
        expanded(r"\newcommand{\a}{x}\newcommand{\b}[1]{\a#1\a}\b{\a}"),
        "xxx"
    );
    assert_eq!(
        expanded(r"\newcommand{\b}{\a}\newcommand{\a}{late}\b"),
        "late"
    );
}

#[test]
fn a_later_definition_wins() {
    assert_eq!(
        expanded(r"\newcommand{\a}{1}\a\newcommand{\a}{2}\a"),
        "12"
    );
}

#[test]
fn a_definition_ends_with_its_scope() {
    assert_eq!(expanded(r"{\newcommand{\a}{x}\a}\a"), r"{x}\a");
    assert_eq!(
        expanded(r"\newcommand{\a}{o}{\newcommand{\a}{i}\a}\a"),
        "{i}o"
    );
    assert_eq!(
        expanded(r"\begin{m}\def\a{x}\a\end{m}\a"),
        r"\begin{m}x\end{m}\a"
    );
    assert_eq!(expanded(r"}\newcommand{\a}{x}\a"), "}x");
}

#[test]
fn expansion_comes_before_parsing() {
    let spec = spec();
    let tree = parse_expanded(r"\newcommand{\half}{\frac12}\half", &spec, 1000);
    assert_eq!(
        show(&tree),
        r#"root[cmd[cmd-name"\\frac" args[word'"1"] args[word'"2"]]]"#
    );
    let tree = parse_expanded(r"\def\o{\over}a\o b", &spec, 1000);
    assert_eq!(
        show(&tree),
        r#"root[cmd[args[text[word'"a"]] cmd-name"\\over" args[space'" " text[word'"b"]]]]"#
    );
    // without the engine the definition is read as any other command
    let plain = parse(r"\def\o{x}\o", &spec);
    assert_eq!(plain.text(), r"\def\o{x}\o");
}

#[test]
fn the_budget_ends_a_runaway_expansion() {
    let spec = spec();
    let tree = parse_expanded(r"\newcommand{\a}{x\a}\a", &spec, 50);
    let last = tree.children.last().unwrap();
    assert_eq!(last.kind(), SyntaxKind::TokenError);
    assert!(tree.text().starts_with("xxx"));
    assert!(tree.text().len() < 50);

    let tree = parse_expanded("a b c", &spec, 2);
    assert_eq!(show(&tree), r#"root[text[word'"a" space'" "] error'""]"#);
    let tree = parse_expanded("a b c", &spec, 0);
    assert_eq!(show(&tree), r#"root[error'""]"#);
    let tree = parse_expanded("", &spec, 0);
    assert_eq!(show(&tree), "root[]");
    let tree = parse_expanded("a b c", &spec, 5);
    assert_eq!(tree.text(), "a b c");
    assert_eq!(tree.children.len(), 1);
}

#[test]
fn a_long_input_passes_through_the_engine() {
    let spec = spec();
    let input = r"\newcommand{\a}[1]{(#1)}".to_string() + &r"\a x ".repeat(300);
    let tree = parse_expanded(&input, &spec, 100_000);
    assert_eq!(tree.text(), "(x) ".repeat(300));
}

#[test]
fn a_malformed_definition_binds_nothing() {
    assert_eq!(expanded(r"\newcommand x\a"), r"x\a");
    assert_eq!(expanded(r"\newcommand{\a}[10]{x}\a"), r"\a");
    assert_eq!(expanded(r"\newcommand"), "");
    assert_eq!(expanded(r"\def"), "");
    assert_eq!(expanded(r"\newcommand{\a}"), "");
}

#[test]
fn the_lexer_tells_the_macros_it_met() {
    let spec = spec();
    let mut lexer = Lexer::new_with_bumper(
        r"\newcommand{\f}[2]{#1+#2}x",
        &spec,
        MacroEngine::new(100),
    );
    assert_eq!(lexer.eat(), Some((Token::Word, "x")));
    assert_eq!(lexer.eat(), None);
    let f = lexer.get_macro("f").unwrap();
    assert_eq!(f.arity, 2);
    assert_eq!(
        f.body,
        vec![
            (Token::MacroArg(1), "#"),
            (Token::Word, "+"),
            (Token::MacroArg(2), "#")
        ]
    );
    assert!(lexer.get_macro("g").is_none());
}

#[test]
fn bindings_are_stacked() {
    let mut engine = MacroEngine::new(10);
    assert_eq!(engine.lookup("a"), None);
    assert!(engine.get_macro("a").is_none());
    engine.define("a", Macro { arity: 0, body: vec![(Token::Word, "1")] });
    engine.define("b", Macro { arity: 1, body: Vec::new() });
    assert_eq!(engine.lookup("a"), Some(0));
    assert_eq!(engine.lookup("b"), Some(1));
    engine.enter_scope();
    engine.define("a", Macro { arity: 2, body: Vec::new() });
    assert_eq!(engine.lookup("a"), Some(2));
    assert_eq!(engine.get_macro("a").unwrap().arity, 2);
    engine.leave_scope();
    assert_eq!(engine.lookup("a"), Some(0));
    assert_eq!(engine.get_macro("a").unwrap().body, vec![(Token::Word, "1")]);
    assert_eq!(engine.lookup("b"), Some(1));
    // outside any scope nothing changes
    engine.leave_scope();
    assert_eq!(engine.lookup("b"), Some(1));
}

#[test]
fn markers_replace_hash_and_digit() {
    let raw = vec![
        (Token::Word, "a"),
        (Token::Hash, "#"),
        (Token::Word, "1b"),
        (Token::Hash, "#"),
        (Token::Word, "x"),
        (Token::Hash, "#"),
        (Token::Word, "2"),
        (Token::Hash, "#"),
    ];
    assert_eq!(
        mark_arguments(&raw),
        vec![
            (Token::Word, "a"),
            (Token::MacroArg(1), "#"),
            (Token::Word, "b"),
            (Token::Hash, "#"),
            (Token::Word, "x"),
            (Token::MacroArg(2), "#"),
            (Token::Hash, "#"),
        ]
    );
    assert_eq!(mark_arguments(&Vec::new()), Vec::new());
    assert_eq!(copy_toks(&raw), raw);
}

#[test]
fn substitution_puts_arguments_for_markers() {
    let body = vec![
        (Token::MacroArg(2), "#"),
        (Token::Word, "+"),
        (Token::MacroArg(1), "#"),
        (Token::MacroArg(3), "#"),
        (Token::MacroArg(0), "#"),
    ];
    let args = vec![
        vec![(Token::Word, "a"), (Token::Word, "b")],
        vec![(Token::Comma, ",")],
    ];
    assert_eq!(
        substitute(&body, &args),
        vec![
            (Token::Comma, ","),
            (Token::Word, "+"),
            (Token::Word, "a"),
            (Token::Word, "b"),
            (Token::MacroArg(3), "#"),
            (Token::MacroArg(0), "#"),
        ]
    );
    assert_eq!(substitute(&Vec::new(), &args), Vec::new());
}

#[test]
fn arguments_are_one_token_or_one_group() {
    let spec = spec();
    let mut ctx = StreamContext::new(" a{b {c}} d", &spec);
    ctx.next_token();
    assert_eq!(texts(&read_argument(&mut ctx)), vec!["a"]);
    assert_eq!(texts(&read_argument(&mut ctx)), vec!["b", " ", "{", "c", "}"]);
    assert_eq!(ctx.peek_full(), Some((Token::Whitespace, " ")));
    assert_eq!(texts(&read_argument(&mut ctx)), vec!["d"]);
    assert!(read_argument(&mut ctx).is_empty());

    let mut ctx = StreamContext::new(" {a}b", &spec);
    assert_eq!(texts(&read_body(&mut ctx)), vec!["a"]);
    assert_eq!(ctx.peek_full(), Some((Token::Word, "b")));
    let mut ctx = StreamContext::new("a{b}", &spec);
    assert!(read_body(&mut ctx).is_empty());
    assert_eq!(ctx.peek_full(), Some((Token::Word, "a")));
}

#[test]
fn definitions_are_read_off_the_stream() {
    let spec = spec();
    let mut ctx = StreamContext::new(r"\newcommand { \f } [ 2 ] {#1 x}y", &spec);
    ctx.next_token();
    let d = read_newcommand(&mut ctx);
    assert_eq!(d.name, Some("f"));
    assert_eq!(d.arity, 2);
    assert_eq!(texts(&d.body), vec!["#", "1", " ", "x"]);
    assert_eq!(ctx.peek_full(), Some((Token::Word, "y")));

    let mut ctx = StreamContext::new(r"\def\g#1#2{#2}y", &spec);
    ctx.next_token();
    let d = read_def(&mut ctx);
    assert_eq!(d.name, Some("g"));
    assert_eq!(d.arity, 2);
    assert_eq!(texts(&d.body), vec!["#", "2"]);
    assert_eq!(ctx.peek_full(), Some((Token::Word, "y")));

    let mut engine = MacroEngine::new(10);
    engine.install(d);
    assert_eq!(engine.get_macro("g").unwrap().body, vec![(Token::MacroArg(2), "#")]);
}

#[test]
fn one_step_hands_a_token_on_or_rewrites_the_stream() {
    let spec = spec();
    let mut engine = MacroEngine::new(10);
    engine.define("a", Macro { arity: 1, body: vec![(Token::MacroArg(1), "#"), (Token::Word, "!")] });
    let mut ctx = StreamContext::new(r"x\a{y}z", &spec);
    ctx.next_token();
    let mut page = Vec::new();
    engine.step(&mut ctx, &mut page);
    assert_eq!(page, vec![(Token::Word, "x")]);
    engine.step(&mut ctx, &mut page);
    assert_eq!(page.len(), 1);
    assert_eq!(ctx.peek_full(), Some((Token::Word, "y")));
    assert_eq!(ctx.next_full(), Some((Token::Word, "!")));
    assert_eq!(ctx.next_full(), Some((Token::Word, "z")));

    let mut ctx = StreamContext::new(r"\a", &spec);
    ctx.next_token();
    engine.expand(&mut ctx, 0);
    assert_eq!(ctx.peek_full(), Some((Token::Word, "!")));
    assert_eq!(ctx.next_full(), None);
}

#[test]
fn the_engine_fills_the_outer_cache() {
    let spec = spec();
    let mut engine = MacroEngine::new(3);
    let mut ctx = StreamContext::new(r"\def\a{x}\a{b", &spec);
    engine.bump(&mut ctx);
    assert_eq!(ctx.peek_outer.peeked, Some((Token::Word, "x")));
    assert_eq!(ctx.peek_outer.buf, vec![(Token::Error, "")]);
    assert!(engine.get_macro("a").is_some());
    let _ = (BraceKind::Curly, CommandName::Generic);
}

#[test]
fn a_group_is_read_without_its_braces() {
    let spec = spec();
    let mut ctx = StreamContext::new("{a{b}}c", &spec);
    ctx.next_token();
    assert_eq!(texts(&read_group(&mut ctx)), vec!["a", "{", "b", "}"]);
    assert_eq!(ctx.peek_full(), Some((Token::Word, "c")));

    let mut ctx = StreamContext::new("{a", &spec);
    ctx.next_token();
    assert_eq!(texts(&read_group(&mut ctx)), vec!["a"]);
    assert_eq!(ctx.peek_full(), None);
}

#[test]
fn a_definition_may_lack_parts() {
    let spec = spec();
    let mut ctx = StreamContext::new(r"\newcommand\f x", &spec);
    ctx.next_token();
    let d = read_newcommand(&mut ctx);
    assert_eq!(d.name, Some("f"));
    assert_eq!(d.arity, 0);
    assert!(d.body.is_empty());
    assert_eq!(ctx.peek_full(), Some((Token::Word, "x")));

    let mut ctx = StreamContext::new(r"\newcommand{\f}[x]{b}", &spec);
    ctx.next_token();
    let d = read_newcommand(&mut ctx);
    assert_eq!(d.name, Some("f"));
    assert_eq!(d.arity, 0);
    assert_eq!(texts(&d.body), vec!["b"]);

    let mut ctx = StreamContext::new(r"\def x", &spec);
    ctx.next_token();
    let d = read_def(&mut ctx);
    assert_eq!(d.name, None);
    assert_eq!(ctx.peek_full(), Some((Token::Word, "x")));

    let mut ctx = StreamContext::new(r"\def\f#", &spec);
    ctx.next_token();
    let d = read_def(&mut ctx);
    assert_eq!(d.name, Some("f"));
    assert_eq!(d.arity, 1);
    assert!(d.body.is_empty());
}

#[test]
fn every_mix_of_a_few_tokens_passes_the_engine() {
    let spec = spec();
    let pieces = [
        "a", " ", "{", "}", "[", "]", "#", "1", r"\newcommand", r"\def", r"\a", r"\b", "2",
    ];
    let n = pieces.len();
    for i in 0..n {
        for j in 0..n {
            for k in 0..n {
                for l in 0..n {
                    let input = format!(
                        r"\def\a#1{{x#1}}{}{}{}{}",
                        pieces[i], pieces[j], pieces[k], pieces[l]
                    );
                    let tree = parse_expanded(&input, &spec, 64);
                    assert_eq!(tree.kind, SyntaxKind::ScopeRoot);
                }
            }
        }
    }
}
