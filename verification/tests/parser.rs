use mitex::command_spec::{ArgKind, ArgSlot, Associativity, CommandDescriptor, CommandSpec};
use mitex::parser::{parse, split_last_item, trivia_leaf, Scope};
use mitex::syntax::{kind_of_token, SyntaxElement, SyntaxKind, SyntaxNode, SyntaxToken};
use mitex::token::{BraceKind, CommandName, Token};

fn kind_name(kind: SyntaxKind) -> &'static str {
    match kind {
        SyntaxKind::TokenError => "error'",
        SyntaxKind::TokenLineBreak => "br'",
        SyntaxKind::TokenWhiteSpace => "space'",
        SyntaxKind::TokenComment => "comment'",
        SyntaxKind::TokenLBrace => "lbrace'",
        SyntaxKind::TokenRBrace => "rbrace'",
        SyntaxKind::TokenLBracket => "lbracket'",
        SyntaxKind::TokenRBracket => "rbracket'",
        SyntaxKind::TokenLParen => "lparen'",
        SyntaxKind::TokenRParen => "rparen'",
        SyntaxKind::TokenComma => "comma'",
        SyntaxKind::TokenTilde => "tilde'",
        SyntaxKind::TokenSlash => "slash'",
        SyntaxKind::TokenWord => "word'",
        SyntaxKind::TokenDollar => "dollar'",
        SyntaxKind::TokenAmpersand => "ampersand'",
        SyntaxKind::TokenHash => "hash'",
        SyntaxKind::TokenUnderscore => "underline'",
        SyntaxKind::TokenCaret => "caret'",
        SyntaxKind::TokenApostrophe => "apostrophe'",
        SyntaxKind::TokenDitto => "ditto'",
        SyntaxKind::TokenSemicolon => "semicolon'",
        SyntaxKind::ClauseCommandName => "cmd-name",
        SyntaxKind::ClauseArgument => "args",
        SyntaxKind::ItemNewLine => "newline",
        SyntaxKind::ItemText => "text",
        SyntaxKind::ItemCurly => "curly",
        SyntaxKind::ItemBracket => "bracket",
        SyntaxKind::ItemParen => "paren",
        SyntaxKind::ItemCmd => "cmd",
        SyntaxKind::ItemEnv => "env",
        SyntaxKind::ItemBegin => "begin",
        SyntaxKind::ItemEnd => "end",
        SyntaxKind::ItemBlockComment => "block-comment",
        SyntaxKind::ItemAttachComponent => "attach-comp",
        SyntaxKind::ScopeRoot => "root",
    }
}

/// The tree on one line: `kind[child child]` for a node, `kind"text"` for a leaf.
fn show(node: &SyntaxNode) -> String {
    let children: Vec<String> = node
        .children
        .iter()
        .map(|child| match child {
            SyntaxElement::Node(n) => show(n),
            SyntaxElement::Token(t) => format!("{}{:?}", kind_name(t.kind), t.text),
        })
        .collect();
    format!("{}[{}]", kind_name(node.kind), children.join(" "))
}

fn spec() -> CommandSpec {
    let mut spec = CommandSpec::new();
    spec.insert("sum", CommandDescriptor::symbol());
    spec.insert("alpha", CommandDescriptor::symbol());
    spec.insert("limits", CommandDescriptor::left1());
    spec.insert("displaystyle", CommandDescriptor::right_greedy());
    spec.insert("over", CommandDescriptor::infix());
    spec.insert("frac", CommandDescriptor::terms(2));
    spec.insert("text", CommandDescriptor::terms(1));
    spec.insert(
        "sqrt",
        CommandDescriptor::prefix(vec![
            ArgSlot { required: false, kind: ArgKind::Bracket },
            ArgSlot { required: true, kind: ArgKind::Term },
        ]),
    );
    spec.insert(
        "color",
        CommandDescriptor::prefix(vec![ArgSlot { required: true, kind: ArgKind::Curly }]),
    );
    spec.insert(
        "let",
        CommandDescriptor::prefix(vec![
            ArgSlot { required: true, kind: ArgKind::CommandName },
            ArgSlot { required: false, kind: ArgKind::SmallInt },
        ]),
    );
    spec.insert(
        "pmatrix",
        CommandDescriptor::matrix(vec![ArgSlot { required: true, kind: ArgKind::Curly }]),
    );
    spec.insert(
        "array",
        CommandDescriptor::prefix(vec![ArgSlot { required: true, kind: ArgKind::Curly }]),
    );
    spec.insert("operatorname*", CommandDescriptor::terms(1));
    spec
}

/// Parses, checks that the leaves spell the input, and shows the tree.
fn tree(input: &str) -> String {
    let spec = spec();
    let root = parse(input, &spec);
    assert_eq!(root.kind, SyntaxKind::ScopeRoot);
    assert_eq!(root.text(), input);
    show(&root)
}

/// The number of argument wrappers directly under the first command of the tree.
fn first_command_args(input: &str) -> usize {
    let spec = spec();
    let root = parse(input, &spec);
    for child in root.children.iter() {
        if let SyntaxElement::Node(n) = child {
            if n.kind == SyntaxKind::ItemCmd {
                return n
                    .children
                    .iter()
                    .filter(|c| c.kind() == SyntaxKind::ClauseArgument)
                    .count();
            }
        }
    }
    panic!("no command in {input}");
}

#[test]
fn empty_input_is_an_empty_root() {
    assert_eq!(tree(""), "root[]");
}

#[test]
fn words_and_trivia_make_a_text() {
    assert_eq!(tree("a"), r#"root[text[word'"a"]]"#);
    assert_eq!(
        tree("a b\nc"),
        r#"root[text[word'"a" space'" " word'"b" br'"\n" word'"c"]]"#
    );
    assert_eq!(tree(" a"), r#"root[space'" " text[word'"a"]]"#);
    assert_eq!(
        tree("a,b"),
        r#"root[text[word'"a"] comma'"," text[word'"b"]]"#
    );
    assert_eq!(
        tree("%c\na"),
        r#"root[comment'"%c" br'"\n" text[word'"a"]]"#
    );
}

#[test]
fn single_tokens_are_leaves() {
    assert_eq!(
        tree(r#"~/&";#$\\"#),
        r##"root[tilde'"~" slash'"/" ampersand'"&" ditto'"\"" semicolon'";" hash'"#" dollar'"$" newline"\\\\"]"##
    );
}

#[test]
fn a_prefix_command_has_one_wrapper_for_each_slot() {
    assert_eq!(
        tree(r"\frac a b c"),
        r#"root[cmd[cmd-name"\\frac" space'" " args[word'"a"] space'" " args[word'"b"]] space'" " text[word'"c"]]"#
    );
    assert_eq!(
        tree(r"\frac{1}{2}"),
        r#"root[cmd[cmd-name"\\frac" args[curly[lbrace'"{" text[word'"1"] rbrace'"}"]] args[curly[lbrace'"{" text[word'"2"] rbrace'"}"]]]]"#
    );
    assert_eq!(
        tree(r"\frac12"),
        r#"root[cmd[cmd-name"\\frac" args[word'"1"] args[word'"2"]]]"#
    );
    assert_eq!(
        tree(r"\frac123"),
        r#"root[cmd[cmd-name"\\frac" args[word'"1"] args[word'"2"]] text[word'"3"]]"#
    );
    assert_eq!(
        tree(r"\frac\alpha\sum"),
        r#"root[cmd[cmd-name"\\frac" args[cmd[cmd-name"\\alpha"]] args[cmd[cmd-name"\\sum"]]]]"#
    );
    for (input, n) in [
        (r"\sum a b c", 0),
        (r"\text a b c", 1),
        (r"\frac a b c", 2),
        (r"\sqrt a b c", 2),
        (r"\frac", 2),
        (r"\frac a", 2),
        (r"\unknown a b c", 0),
        (r"\let\a 3", 2),
    ] {
        assert_eq!(first_command_args(input), n, "{input}");
    }
}

#[test]
fn a_missing_argument_leaves_an_empty_wrapper() {
    assert_eq!(
        tree(r"\frac a"),
        r#"root[cmd[cmd-name"\\frac" space'" " args[word'"a"] args[] error'""]]"#
    );
    assert_eq!(
        tree(r"\frac"),
        r#"root[cmd[cmd-name"\\frac" args[] error'"" args[] error'""]]"#
    );
    // an optional slot may stay empty
    assert_eq!(
        tree(r"\sqrt x"),
        r#"root[cmd[cmd-name"\\sqrt" space'" " args[] args[word'"x"]]]"#
    );
    assert_eq!(
        tree(r"\sqrt[3]{x}"),
        r#"root[cmd[cmd-name"\\sqrt" args[bracket[lbracket'"[" text[word'"3"] rbracket'"]"]] args[curly[lbrace'"{" text[word'"x"] rbrace'"}"]]]]"#
    );
    assert_eq!(
        tree(r"{\frac a}"),
        r#"root[curly[lbrace'"{" cmd[cmd-name"\\frac" space'" " args[word'"a"] args[] error'""] rbrace'"}"]]"#
    );
    assert_eq!(
        tree(r"\color red"),
        r#"root[cmd[cmd-name"\\color" space'" " args[] error'""] text[word'"red"]]"#
    );
}

#[test]
fn slots_take_what_their_kind_says() {
    assert_eq!(
        tree(r"\let\a 3"),
        r#"root[cmd[cmd-name"\\let" args[cmd-name"\\a"] space'" " args[word'"3"]]]"#
    );
    assert_eq!(
        tree(r"\let\a x"),
        r#"root[cmd[cmd-name"\\let" args[cmd-name"\\a"] space'" " args[]] text[word'"x"]]"#
    );
    assert_eq!(
        tree(r"\let x"),
        r#"root[cmd[cmd-name"\\let" space'" " args[] error'"" args[]] text[word'"x"]]"#
    );
    assert_eq!(
        tree(r"\pmatrix{a & b \\ c}"),
        r#"root[cmd[cmd-name"\\pmatrix" args[curly[lbrace'"{" text[word'"a" space'" "] ampersand'"&" space'" " text[word'"b" space'" "] newline"\\\\" space'" " text[word'"c"] rbrace'"}"]]]]"#
    );
    assert_eq!(
        tree(r"\text,"),
        r#"root[cmd[cmd-name"\\text" args[comma'","]]]"#
    );
}

#[test]
fn an_undeclared_command_takes_nothing() {
    assert_eq!(
        tree(r"\unknown{a}"),
        r#"root[cmd[cmd-name"\\unknown"] curly[lbrace'"{" text[word'"a"] rbrace'"}"]]"#
    );
    assert_eq!(tree(r"\left"), r#"root[cmd[cmd-name"\\left"]]"#);
    assert_eq!(tree("\\"), r#"root[cmd[cmd-name"\\"]]"#);
}

#[test]
fn a_starred_command_is_looked_up_with_its_star() {
    assert_eq!(
        tree(r"\operatorname*x"),
        r#"root[cmd[cmd-name"\\operatorname*" args[word'"x"]]]"#
    );
    assert_eq!(
        tree(r"\frac*x"),
        r#"root[cmd[cmd-name"\\frac" args[word'"*"] args[word'"x"]]]"#
    );
}

#[test]
fn groups_hold_their_braces() {
    assert_eq!(
        tree("{a}"),
        r#"root[curly[lbrace'"{" text[word'"a"] rbrace'"}"]]"#
    );
    assert_eq!(tree("{}"), r#"root[curly[lbrace'"{" rbrace'"}"]]"#);
    assert_eq!(
        tree("[a](b)"),
        r#"root[bracket[lbracket'"[" text[word'"a"] rbracket'"]"] paren[lparen'"(" text[word'"b"] rparen'")"]]"#
    );
    assert_eq!(
        tree("{[a]}"),
        r#"root[curly[lbrace'"{" bracket[lbracket'"[" text[word'"a"] rbracket'"]"] rbrace'"}"]]"#
    );
    assert_eq!(
        tree("{a} \n b"),
        r#"root[curly[lbrace'"{" text[word'"a"] rbrace'"}" space'" " br'"\n" space'" "] text[word'"b"]]"#
    );
}

#[test]
fn a_group_cut_short_is_marked() {
    assert_eq!(
        tree("{a"),
        r#"root[curly[lbrace'"{" text[word'"a"] error'""]]"#
    );
    assert_eq!(tree("{"), r#"root[curly[lbrace'"{" error'""]]"#);
    // the closer of the group around ends the inner group too
    assert_eq!(
        tree("{(a}b"),
        r#"root[curly[lbrace'"{" paren[lparen'"(" text[word'"a"] error'""] rbrace'"}"] text[word'"b"]]"#
    );
    assert_eq!(
        tree("[(])"),
        r#"root[bracket[lbracket'"[" paren[lparen'"(" error'""] rbracket'"]"] error'")"]"#
    );
}

#[test]
fn a_stray_closer_is_an_error_leaf() {
    assert_eq!(
        tree("a}b"),
        r#"root[text[word'"a"] error'"}" text[word'"b"]]"#
    );
    assert_eq!(
        tree("{a)}"),
        r#"root[curly[lbrace'"{" text[word'"a"] error'")" rbrace'"}"]]"#
    );
    assert_eq!(tree(r"\end"), r#"root[error'"\\end"]"#);
    assert_eq!(tree(r"\fi"), r#"root[error'"\\fi"]"#);
}

#[test]
fn left1_takes_the_item_before_it() {
    assert_eq!(
        tree(r"a\limits"),
        r#"root[cmd[args[text[word'"a"]] cmd-name"\\limits"]]"#
    );
    assert_eq!(
        tree(r"\sum \limits"),
        r#"root[cmd[args[cmd[cmd-name"\\sum"] space'" "] cmd-name"\\limits"]]"#
    );
    assert_eq!(
        tree(r" \limits"),
        r#"root[space'" " cmd[args[] cmd-name"\\limits"]]"#
    );
    assert_eq!(
        tree(r"a{b}\limits"),
        r#"root[text[word'"a"] cmd[args[curly[lbrace'"{" text[word'"b"] rbrace'"}"]] cmd-name"\\limits"]]"#
    );
}

#[test]
fn scripts_attach_to_the_item_before_them() {
    assert_eq!(
        tree("x_1"),
        r#"root[attach-comp[args[text[word'"x"]] underline'"_" word'"1"]]"#
    );
    assert_eq!(
        tree("x_12"),
        r#"root[attach-comp[args[text[word'"x"]] underline'"_" word'"1"] text[word'"2"]]"#
    );
    assert_eq!(
        tree("x^{12}"),
        r#"root[attach-comp[args[text[word'"x"]] caret'"^" curly[lbrace'"{" text[word'"12"] rbrace'"}"]]]"#
    );
    assert_eq!(
        tree(r"x^\alpha"),
        r#"root[attach-comp[args[text[word'"x"]] caret'"^" cmd[cmd-name"\\alpha"]]]"#
    );
    assert_eq!(
        tree(r"x^\frac12"),
        r#"root[attach-comp[args[text[word'"x"]] caret'"^" cmd[cmd-name"\\frac" args[word'"1"] args[word'"2"]]]]"#
    );
    assert_eq!(
        tree("x_1^2"),
        r#"root[attach-comp[args[attach-comp[args[text[word'"x"]] underline'"_" word'"1"]] caret'"^" word'"2"]]"#
    );
    assert_eq!(
        tree("x''"),
        r#"root[attach-comp[args[attach-comp[args[text[word'"x"]] apostrophe'"'"]] apostrophe'"'"]]"#
    );
    assert_eq!(
        tree("_1"),
        r#"root[attach-comp[args[] underline'"_" word'"1"]]"#
    );
    assert_eq!(tree("x_"), r#"root[attach-comp[args[text[word'"x"]] underline'"_"]]"#);
    assert_eq!(
        tree("x_ 1"),
        r#"root[attach-comp[args[text[word'"x"]] underline'"_" space'" " word'"1"]]"#
    );
    assert_eq!(
        tree("{x_}"),
        r#"root[curly[lbrace'"{" attach-comp[args[text[word'"x"]] underline'"_"] rbrace'"}"]]"#
    );
    assert_eq!(
        tree("x_\u{e9}a"),
        "root[attach-comp[args[text[word'\"x\"]] underline'\"_\" word'\"\u{e9}\"] text[word'\"a\"]]"
    );
    // a command that takes the item before it is no operand
    assert_eq!(
        tree(r"x_\limits"),
        r#"root[cmd[args[attach-comp[args[text[word'"x"]] underline'"_"]] cmd-name"\\limits"]]"#
    );
}

#[test]
fn right_greedy_takes_the_rest_of_the_scope() {
    assert_eq!(
        tree(r"\displaystyle"),
        r#"root[cmd[cmd-name"\\displaystyle" args[]]]"#
    );
    assert_eq!(
        tree(r"\displaystyle (a] \over b"),
        r#"root[cmd[cmd-name"\\displaystyle" args[space'" " lparen'"(" text[word'"a"] rbracket'"]" space'" " cmd[cmd-name"\\over" args[space'" " text[word'"b"]]]]]]"#
    );
    assert_eq!(
        tree(r"[\displaystyle a]b"),
        r#"root[bracket[lbracket'"[" cmd[cmd-name"\\displaystyle" args[space'" " text[word'"a"]]] rbracket'"]"] text[word'"b"]]"#
    );
}

#[test]
fn infix_splits_the_scope() {
    assert_eq!(
        tree(r"\over"),
        r#"root[cmd[args[] cmd-name"\\over" args[]]]"#
    );
    assert_eq!(
        tree(r"a {b} \over c"),
        r#"root[cmd[args[text[word'"a" space'" "] curly[lbrace'"{" text[word'"b"] rbrace'"}" space'" "]] cmd-name"\\over" args[space'" " text[word'"c"]]]]"#
    );
}

#[test]
fn environments_have_their_clauses() {
    assert_eq!(
        tree(r"\begin{matrix}a\end{matrix}"),
        r#"root[env[begin[cmd-name"\\begin" curly[lbrace'"{" word'"matrix" rbrace'"}"]] text[word'"a"] end[cmd-name"\\end" curly[lbrace'"{" word'"matrix" rbrace'"}"]]]]"#
    );
    assert_eq!(
        tree(r"\begin{array}{cc}a & b\end{array} c"),
        r#"root[env[begin[cmd-name"\\begin" curly[lbrace'"{" word'"array" rbrace'"}"] args[curly[lbrace'"{" text[word'"cc"] rbrace'"}"]]] text[word'"a" space'" "] ampersand'"&" space'" " text[word'"b"] end[cmd-name"\\end" curly[lbrace'"{" word'"array" rbrace'"}"]]] space'" " text[word'"c"]]"#
    );
    assert_eq!(
        tree(r"\begin{a}\begin{b}x\end{b}\end{a}"),
        r#"root[env[begin[cmd-name"\\begin" curly[lbrace'"{" word'"a" rbrace'"}"]] env[begin[cmd-name"\\begin" curly[lbrace'"{" word'"b" rbrace'"}"]] text[word'"x"] end[cmd-name"\\end" curly[lbrace'"{" word'"b" rbrace'"}"]]] end[cmd-name"\\end" curly[lbrace'"{" word'"a" rbrace'"}"]]]]"#
    );
}

#[test]
fn a_broken_environment_is_marked() {
    assert_eq!(
        tree(r"\begin{a}x\end{b}"),
        r#"root[env[begin[cmd-name"\\begin" curly[lbrace'"{" word'"a" rbrace'"}"]] text[word'"x"] end[cmd-name"\\end" curly[lbrace'"{" word'"b" rbrace'"}"] error'""]]]"#
    );
    assert_eq!(
        tree(r"\begin{a}x"),
        r#"root[env[begin[cmd-name"\\begin" curly[lbrace'"{" word'"a" rbrace'"}"]] text[word'"x"] error'""]]"#
    );
    assert_eq!(
        tree(r"{\begin{a}x}"),
        r#"root[curly[lbrace'"{" env[begin[cmd-name"\\begin" curly[lbrace'"{" word'"a" rbrace'"}"]] text[word'"x"] error'""] rbrace'"}"]]"#
    );
    assert_eq!(
        tree(r"\begin x\end"),
        r#"root[env[begin[cmd-name"\\begin" space'" "] text[word'"x"] end[cmd-name"\\end"]]]"#
    );
}

#[test]
fn a_block_comment_is_not_interpreted() {
    assert_eq!(
        tree(r"a\iffalse {\frac \fi b"),
        r#"root[text[word'"a"] block-comment[cmd-name"\\iffalse" space'" " lbrace'"{" cmd-name"\\frac" space'" " cmd-name"\\fi"] space'" " text[word'"b"]]"#
    );
    assert_eq!(
        tree(r"\iffalse a"),
        r#"root[block-comment[cmd-name"\\iffalse" space'" " word'"a"]]"#
    );
}

#[test]
fn the_leaves_spell_any_input() {
    for input in [
        "}}}{{{",
        r"\begin{a}\end{b}\end{c}",
        r"\over\over\limits\limits",
        "x_^_'",
        r"\frac\frac\frac",
        r"\sqrt[\sqrt[",
        "\u{e9}_\u{4e2d}\u{1f600}'",
        r"\displaystyle\begin{a}\displaystyle}\end{a}",
        r"\iffalse\iffalse\fi\fi",
        "a%\r\n\\ \\\\$$",
        r"\let\let\let",
    ] {
        tree(input);
    }
}

#[test]
fn scopes_know_their_closers() {
    let root = Scope::root();
    assert!(!root.stops(Token::Right(BraceKind::Curly)));
    assert!(!root.stops(Token::CommandName(CommandName::EndEnvironment)));
    let curly = root.within(BraceKind::Curly);
    assert!(curly.stops(Token::Right(BraceKind::Curly)));
    assert!(!curly.stops(Token::Right(BraceKind::Paren)));
    assert!(!curly.stops(Token::Left(BraceKind::Curly)));
    let both = curly.within(BraceKind::Paren).within_env();
    assert!(both.stops(Token::Right(BraceKind::Curly)));
    assert!(both.stops(Token::Right(BraceKind::Paren)));
    assert!(!both.stops(Token::Right(BraceKind::Bracket)));
    assert!(both.stops(Token::CommandName(CommandName::EndEnvironment)));
    assert!(!both.stops(Token::CommandName(CommandName::Generic)));
    assert!(root.within(BraceKind::Bracket).stops(Token::Right(BraceKind::Bracket)));
}

#[test]
fn the_last_item_goes_with_the_trivia_after_it() {
    let leaf = |kind, text| SyntaxElement::leaf(kind, text);
    let mut items = vec![
        leaf(SyntaxKind::TokenWord, "a"),
        leaf(SyntaxKind::TokenWhiteSpace, " "),
        leaf(SyntaxKind::TokenComma, ","),
        leaf(SyntaxKind::TokenWhiteSpace, " "),
        leaf(SyntaxKind::TokenComment, "%"),
    ];
    let taken = split_last_item(&mut items);
    assert_eq!(items.len(), 2);
    assert_eq!(taken.len(), 3);
    assert_eq!(taken[0].kind(), SyntaxKind::TokenComma);

    let mut items = vec![leaf(SyntaxKind::TokenWhiteSpace, " ")];
    assert!(split_last_item(&mut items).is_empty());
    assert_eq!(items.len(), 1);
    let mut items: Vec<SyntaxElement> = Vec::new();
    assert!(split_last_item(&mut items).is_empty());

    assert!(trivia_leaf(&leaf(SyntaxKind::TokenLineBreak, "\n")));
    assert!(!trivia_leaf(&leaf(SyntaxKind::TokenWord, "a")));
    assert!(!trivia_leaf(&SyntaxElement::node(SyntaxKind::ItemText, Vec::new())));
}

#[test]
fn tokens_become_leaves_of_their_kind() {
    assert_eq!(kind_of_token(Token::Word), SyntaxKind::TokenWord);
    assert_eq!(kind_of_token(Token::MacroArg(3)), SyntaxKind::TokenWord);
    assert_eq!(kind_of_token(Token::NewLine), SyntaxKind::ItemNewLine);
    assert_eq!(kind_of_token(Token::Underscore), SyntaxKind::TokenUnderscore);
    assert_eq!(
        kind_of_token(Token::CommandName(CommandName::Left)),
        SyntaxKind::ClauseCommandName
    );
    assert_eq!(kind_of_token(Token::Right(BraceKind::Paren)), SyntaxKind::TokenRParen);
    let token = SyntaxToken::new(SyntaxKind::TokenWord, "a");
    assert_eq!(token.kind(), SyntaxKind::TokenWord);
    assert_eq!(token.text(), "a");
    let node = SyntaxNode {
        kind: SyntaxKind::ItemText,
        children: vec![SyntaxElement::leaf(SyntaxKind::TokenWord, "a")],
    };
    assert_eq!(node.kind(), SyntaxKind::ItemText);
    assert_eq!(node.children().len(), 1);
    assert_eq!(node.text(), "a");
}

#[test]
fn descriptors_say_how_a_command_takes_its_arguments() {
    let spec = spec();
    assert_eq!(spec.len(), 13);
    assert!(spec.contains("frac"));
    assert!(!spec.contains("frac*"));
    assert!(spec.contains("operatorname*"));
    assert!(!spec.contains("operatorname"));
    assert!(spec.get("nope").is_none());
    assert_eq!(spec.role("over"), Some(Associativity::Infix));
    assert_eq!(spec.role("limits"), Some(Associativity::Left1));
    assert_eq!(spec.role("displaystyle"), Some(Associativity::RightGreedy));
    assert_eq!(spec.role("pmatrix"), Some(Associativity::Matrix));
    assert_eq!(spec.role("frac"), Some(Associativity::Prefix));
    assert_eq!(spec.role("nope"), None);
    let frac = spec.get("frac").unwrap();
    assert_eq!(frac.arity(), 2);
    assert_eq!(frac.slots[0], ArgSlot { required: true, kind: ArgKind::Term });
    assert_eq!(spec.get("sum").unwrap().arity(), 0);
    assert_eq!(spec.get("sqrt").unwrap().arity(), 2);

    let mut spec = CommandSpec::new();
    assert_eq!(spec.len(), 0);
    spec.insert("a", CommandDescriptor::infix());
    spec.insert("a", CommandDescriptor::left1());
    assert_eq!(spec.len(), 1);
    assert_eq!(spec.role("a"), Some(Associativity::Left1));
}

fn has_error(node: &SyntaxNode) -> bool {
    node.children.iter().any(|c| match c {
        SyntaxElement::Node(n) => has_error(n),
        SyntaxElement::Token(t) => t.kind == SyntaxKind::TokenError,
    })
}

/// Whether every group under `node` starts with its opening brace and holds
/// its closing brace with nothing but trivia after it.
fn groups_closed(node: &SyntaxNode) -> bool {
    let braces = match node.kind {
        SyntaxKind::ItemCurly => Some((SyntaxKind::TokenLBrace, SyntaxKind::TokenRBrace)),
        SyntaxKind::ItemBracket => Some((SyntaxKind::TokenLBracket, SyntaxKind::TokenRBracket)),
        SyntaxKind::ItemParen => Some((SyntaxKind::TokenLParen, SyntaxKind::TokenRParen)),
        _ => None,
    };
    if let Some((open, close)) = braces {
        let kinds: Vec<SyntaxKind> = node.children.iter().map(|c| c.kind()).collect();
        if kinds.first() != Some(&open) {
            return false;
        }
        let Some(at) = kinds.iter().rposition(|k| *k == close) else {
            return false;
        };
        if at == 0 || !node.children[at + 1..].iter().all(trivia_leaf) {
            return false;
        }
    }
    node.children.iter().all(|c| match c {
        SyntaxElement::Node(n) => groups_closed(n),
        SyntaxElement::Token(_) => true,
    })
}

#[test]
fn without_an_error_every_group_is_closed() {
    let spec = spec();
    for input in [
        "{a}",
        "{[a](b)} {}",
        r"\frac{a}{[b]} x_{1^{2}}",
        r"\begin{a}{x}\end{a}",
        r"\displaystyle{a \over {b}} ",
        r"\sqrt[3]{x}",
    ] {
        let tree = parse(input, &spec);
        assert!(!has_error(&tree), "{input}");
        assert!(groups_closed(&tree), "{input}");
    }
    for input in ["{a", "{(a}", r"\frac{a", "[", r"\begin{a"] {
        let tree = parse(input, &spec);
        assert!(has_error(&tree), "{input}");
        assert!(!groups_closed(&tree), "{input}");
    }
}

#[test]
fn the_items_are_at_the_root_of_the_crate_too() {
    let spec = mitex::CommandSpec::new();
    let tree: mitex::SyntaxNode = mitex::parse("a", &spec);
    assert_eq!(tree.kind, mitex::SyntaxKind::ScopeRoot);
    let mut lexer = mitex::Lexer::new("a", &spec);
    assert_eq!(lexer.eat(), Some((mitex::Token::Word, "a")));
}

#[test]
fn deep_nesting_is_parsed() {
    let spec = spec();
    let input = "{".repeat(200) + "x" + &"}".repeat(200);
    let tree = parse(&input, &spec);
    assert_eq!(tree.text(), input);
    assert!(!has_error(&tree));
    let mut depth = 0;
    let mut node = &tree;
    while let Some(SyntaxElement::Node(inner)) =
        node.children.iter().find(|c| matches!(c, SyntaxElement::Node(_)))
    {
        node = inner;
        depth += 1;
    }
    assert_eq!(depth, 201);
}

#[test]
fn every_mix_of_a_few_tokens_is_parsed() {
    let spec = spec();
    let pieces = [
        "a", " ", "{", "}", "[", ")", "_", "'", r"\frac", r"\over", r"\limits", r"\displaystyle",
        r"\begin{m}", r"\end{m}", r"\iffalse", r"\fi", r"\\", "%c\n", r"\sqrt", "12",
    ];
    let n = pieces.len();
    for i in 0..n {
        for j in 0..n {
            for k in 0..n {
                let input = format!("{}{}{}", pieces[i], pieces[j], pieces[k]);
                let tree = parse(&input, &spec);
                assert_eq!(tree.text(), input);
            }
        }
    }
}
