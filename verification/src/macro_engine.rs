//! User-defined macros and the engine that expands them in the token stream.
//!
//! The engine is a bumper: it reads the inner stream of the context, takes
//! definitions out of it, replaces each use of a macro by its expansion, and
//! hands everything else on to the outer cache.

use vstd::prelude::*;

use crate::cache::{reversed, PEEK_CACHE_SIZE};
use crate::chars::is_ascii_digit;
use crate::lexer::{BumpTokenStream, MacroView, MacroifyStream};
use crate::scan::{view_tok, view_toks, Tok, TokView};
use crate::stream::{
    balanced_end, lemma_leading_trivia, past_closer, past_trivia, rest_of, StreamContext,
};
use crate::text::{first_char, lemma_ascii_width, split_chars, str_eq, u8_value};
use crate::token::{command_name, name_of, BraceKind, CommandName, Token};

verus! {

/// A user-defined macro: a body with up to nine parameters.
#[derive(Debug)]
pub struct Macro<'a> {
    /// The number of arguments that a use of the macro reads
    pub arity: u8,
    /// The tokens that a use of the macro is replaced with; `MacroArg(n)`
    /// stands for the `n`-th argument, counted from one
    pub body: Vec<Tok<'a>>,
}

impl<'a> Macro<'a> {
    /// The body of the macro, as contracts see it.
    pub open spec fn body_view(&self) -> Seq<TokView> {
        view_toks(self.body@)
    }

    /// The macro, as contracts see it.
    pub open spec fn spec_view(&self) -> MacroView {
        (self.arity, self.body_view())
    }
}

/// A name bound to a macro.
#[derive(Debug)]
pub struct Binding<'a> {
    /// The name of the macro, without the backslash
    pub name: &'a str,
    /// What the name is bound to
    pub def: Macro<'a>,
}

/// What a binding is in contracts: the name and the macro.
pub type BindingView = (Seq<char>, MacroView);

/// The view of a binding.
pub open spec fn view_binding(b: Binding) -> BindingView {
    (b.name@, b.def.spec_view())
}

/// The views of a sequence of bindings.
pub open spec fn view_bindings(b: Seq<Binding>) -> Seq<BindingView> {
    Seq::new(b.len(), |i: int| view_binding(b[i]))
}

/// The macros that a sequence of bindings binds, a later binding of a name
/// before an earlier one.
pub open spec fn macros_of(b: Seq<BindingView>) -> Map<Seq<char>, MacroView>
    decreases b.len(),
{
    if b.len() == 0 {
        Map::empty()
    } else {
        macros_of(b.drop_last()).insert(b.last().0, b.last().1)
    }
}

/// The views of the arguments of a macro.
pub open spec fn view_args(args: Seq<Vec<Tok>>) -> Seq<Seq<TokView>> {
    Seq::new(args.len(), |i: int| view_toks(args[i]@))
}

/// What a token of a macro body is replaced with: the `n`-th argument for the
/// marker `MacroArg(n)` where there is such an argument, the token itself
/// otherwise.
pub open spec fn replacement(t: TokView, args: Seq<Seq<TokView>>) -> Seq<TokView> {
    match t.0 {
        Token::MacroArg(n) => if 1 <= n <= args.len() {
            args[n - 1]
        } else {
            seq![t]
        },
        _ => seq![t],
    }
}

/// The expansion of a macro body with the given arguments.
pub open spec fn expansion(body: Seq<TokView>, args: Seq<Seq<TokView>>) -> Seq<TokView>
    decreases body.len(),
{
    if body.len() == 0 {
        Seq::empty()
    } else {
        expansion(body.drop_last(), args) + replacement(body.last(), args)
    }
}

/// Whether the tokens `s` start with a parameter: a hash and a word that
/// starts with a digit.
pub open spec fn starts_with_marker(s: Seq<TokView>) -> bool {
    s.len() > 1 && s[0].0 == Token::Hash && s[1].0 == Token::Word && s[1].1.len() > 0
        && is_ascii_digit(s[1].1[0])
}

/// The tokens of a definition as a macro body: each parameter, a hash and a
/// digit, becomes one marker with the text of the hash, and what is left of
/// the word after the digit stays a word.
pub open spec fn with_markers(s: Seq<TokView>) -> Seq<TokView>
    decreases s.len(),
{
    if s.len() == 0 {
        Seq::empty()
    } else if starts_with_marker(s) {
        let digit = (s[1].1[0] as u8 - '0' as u8) as u8;
        let marker = seq![(Token::MacroArg(digit), s[0].1)];
        let rest = if s[1].1.len() > 1 {
            seq![(Token::Word, s[1].1.skip(1))]
        } else {
            Seq::empty()
        };
        marker + rest + with_markers(s.skip(2))
    } else {
        seq![s[0]] + with_markers(s.skip(1))
    }
}

/// A copy of a sequence of tokens.
pub fn copy_toks<'a>(v: &Vec<Tok<'a>>) -> (r: Vec<Tok<'a>>)
    ensures
        r@ == v@,
{
    let mut out: Vec<Tok<'a>> = Vec::with_capacity(v.len());
    let mut i: usize = 0;
    while i < v.len()
        invariant
            i <= v@.len(),
            out@ == v@.take(i as int),
        decreases v@.len() - i,
    {
        out.push(v[i]);
        i += 1;
        assert(out@ =~= v@.take(i as int));
    }
    assert(v@.take(v@.len() as int) =~= v@);
    out
}

/// Expands a macro body with the given arguments.
pub fn substitute<'a>(body: &Vec<Tok<'a>>, args: &Vec<Vec<Tok<'a>>>) -> (r: Vec<Tok<'a>>)
    ensures
        view_toks(r@) == expansion(view_toks(body@), view_args(args@)),
{
    let mut out: Vec<Tok<'a>> = Vec::new();
    let ghost b = view_toks(body@);
    let ghost a = view_args(args@);
    let mut i: usize = 0;
    assert(view_toks(out@) =~= expansion(b.take(0), a));
    while i < body.len()
        invariant
            i <= body@.len(),
            b == view_toks(body@),
            a == view_args(args@),
            view_toks(out@) == expansion(b.take(i as int), a),
        decreases body@.len() - i,
    {
        let tok = body[i];
        let ghost before = view_toks(out@);
        proof {
            assert(b.take(i + 1).drop_last() =~= b.take(i as int));
            assert(b.take(i + 1).last() == view_tok(tok));
        }
        let mut done = false;
        match tok.0 {
            Token::MacroArg(n) => {
                if 1 <= n && (n as usize) <= args.len() {
                    let arg = &args[(n - 1) as usize];
                    let mut j: usize = 0;
                    while j < arg.len()
                        invariant
                            j <= arg@.len(),
                            view_toks(out@) == before + view_toks(arg@).take(j as int),
                        decreases arg@.len() - j,
                    {
                        let ghost prev = view_toks(out@);
                        out.push(arg[j]);
                        proof {
                            assert(view_toks(out@) =~= prev.push(view_tok(arg@[j as int])));
                            assert(view_toks(arg@).take(j + 1) =~= view_toks(arg@).take(
                                j as int,
                            ).push(view_tok(arg@[j as int])));
                        }
                        j += 1;
                        assert(view_toks(out@) =~= before + view_toks(arg@).take(j as int));
                    }
                    assert(view_toks(arg@).take(arg@.len() as int) =~= view_toks(arg@));
                    done = true;
                }
            },
            _ => {},
        }
        if !done {
            out.push(tok);
            assert(view_toks(out@) =~= before + seq![view_tok(tok)]);
        }
        i += 1;
    }
    assert(b.take(b.len() as int) =~= b);
    out
}

/// Turns the parameters among the tokens of a definition into markers.
pub fn mark_arguments<'a>(raw: &Vec<Tok<'a>>) -> (r: Vec<Tok<'a>>)
    ensures
        view_toks(r@) == with_markers(view_toks(raw@)),
{
    let mut out: Vec<Tok<'a>> = Vec::new();
    let ghost s = view_toks(raw@);
    let mut i: usize = 0;
    proof {
        assert(s.skip(0) =~= s);
        assert(view_toks(out@) + with_markers(s.skip(0)) =~= with_markers(s));
    }
    while i < raw.len()
        invariant
            i <= raw@.len(),
            s == view_toks(raw@),
            view_toks(out@) + with_markers(s.skip(i as int)) == with_markers(s),
        decreases raw@.len() - i,
    {
        let (kind, text) = raw[i];
        let ghost before = view_toks(out@);
        let ghost tail = s.skip(i as int);
        proof {
            assert(tail[0] == s[i as int]);
            if i + 1 < raw@.len() {
                assert(tail[1] == s[i + 1]);
            }
            assert(tail.skip(1) =~= s.skip(i + 1));
            if i + 2 <= raw@.len() {
                assert(tail.skip(2) =~= s.skip(i + 2));
            }
        }
        let mut digit: Option<char> = None;
        if kind == Token::Hash && i + 1 < raw.len() {
            if raw[i + 1].0 == Token::Word {
                match first_char(raw[i + 1].1) {
                    Some(c) => {
                        if '0' <= c && c <= '9' {
                            digit = Some(c);
                        }
                    },
                    None => {},
                }
            }
        }
        match digit {
            Some(c) => {
                let word = raw[i + 1].1;
                let n: u8 = c as u8 - '0' as u8;
                out.push((Token::MacroArg(n), text));
                proof {
                    assert(word@.take(1) =~= seq![c]);
                    lemma_ascii_width(c);
                }
                let (_, rest) = split_chars(word, 1, Ghost(1));
                if rest.unicode_len() > 0 {
                    out.push((Token::Word, rest));
                }
                proof {
                    let marker = seq![(Token::MacroArg(n), text@)];
                    let more = if word@.len() > 1 {
                        seq![(Token::Word, word@.skip(1))]
                    } else {
                        Seq::<TokView>::empty()
                    };
                    assert(starts_with_marker(tail));
                    assert(view_toks(out@) =~= before + marker + more);
                    assert(view_toks(out@) + with_markers(s.skip(i + 2)) =~= before + (marker
                        + more + with_markers(tail.skip(2))));
                }
                i += 2;
            },
            None => {
                out.push((kind, text));
                proof {
                    assert(!starts_with_marker(tail));
                    assert(view_toks(out@) =~= before + seq![s[i as int]]);
                    assert(view_toks(out@) + with_markers(s.skip(i + 1)) =~= before + (
                    seq![tail[0]] + with_markers(tail.skip(1))));
                }
                i += 1;
            },
        }
    }
    assert(view_toks(out@) + with_markers(s.skip(s.len() as int)) =~= view_toks(out@));
    out
}

/// The argument that a use of a macro reads off the stream `s`, and the
/// stream after it. The argument is the first token that is no trivia, or, if
/// that token opens a curly group, the tokens up to the brace that closes it.
pub open spec fn argument_of(s: Seq<TokView>) -> (Seq<TokView>, Seq<TokView>) {
    let u = past_trivia(s);
    if u.len() == 0 {
        (Seq::empty(), Seq::empty())
    } else if u[0].0 == Token::Left(BraceKind::Curly) {
        group_of(u)
    } else {
        (seq![u[0]], u.drop_first())
    }
}

/// The tokens of the curly group that `u` starts with, without its braces,
/// and the stream after the group.
pub open spec fn group_of(u: Seq<TokView>) -> (Seq<TokView>, Seq<TokView>) {
    let inner = rest_of(u);
    let e = balanced_end(inner, 0, Token::Right(BraceKind::Curly));
    (
        inner.take(e),
        if e < inner.len() {
            inner.skip(e + 1)
        } else {
            Seq::empty()
        },
    )
}

/// The `k` arguments that a use of a macro reads off the stream `s`, and the
/// stream after them.
pub open spec fn arguments_of(s: Seq<TokView>, k: nat) -> (Seq<Seq<TokView>>, Seq<TokView>)
    decreases k,
{
    if k == 0 {
        (Seq::empty(), s)
    } else {
        let (first, after) = argument_of(s);
        let (more, rest) = arguments_of(after, (k - 1) as nat);
        (seq![first] + more, rest)
    }
}

/// The body of a definition that the stream `s` goes on with: the tokens of
/// the curly group after the trivia. Without such a group the body is empty.
pub open spec fn body_of(s: Seq<TokView>) -> (Seq<TokView>, Seq<TokView>) {
    let u = past_trivia(s);
    if u.len() > 0 && u[0].0 == Token::Left(BraceKind::Curly) {
        group_of(u)
    } else {
        (Seq::empty(), u)
    }
}

/// What a definition is in contracts.
pub struct DefinitionView {
    /// The name of the macro, if there was one
    pub name: Option<Seq<char>>,
    /// The number of parameters
    pub arity: u8,
    /// The tokens of the body, as the source has them
    pub body: Seq<TokView>,
}

/// The definition that the stream `s` starts with, whose first token is
/// `\newcommand`, and the stream after it. The form is
/// `\newcommand{\name}[n]{body}`; the braces around the name and the number
/// of parameters may be left out, and trivia may stand between the parts.
pub open spec fn newcommand_of(s: Seq<TokView>) -> (DefinitionView, Seq<TokView>) {
    let a = past_trivia(rest_of(s));
    let (name, c) = if a.len() > 0 && a[0].0 == Token::Left(BraceKind::Curly) {
        let b = past_trivia(rest_of(a));
        if b.len() > 0 && b[0].0 is CommandName && past_trivia(rest_of(b)).len() > 0 {
            (Some(name_of(b[0].1)), past_closer(b, BraceKind::Curly))
        } else {
            (None, past_closer(b, BraceKind::Curly))
        }
    } else if a.len() > 0 && a[0].0 is CommandName {
        (Some(name_of(a[0].1)), rest_of(a))
    } else {
        (None, a)
    };
    let d = past_trivia(c);
    let (arity, g) = if d.len() > 0 && d[0].0 == Token::Left(BraceKind::Bracket) {
        let e = past_trivia(rest_of(d));
        let n = if e.len() > 0 && e[0].0 == Token::Word && past_trivia(rest_of(e)).len() > 0 {
            match u8_value(e[0].1) {
                Some(n) => n,
                None => 0u8,
            }
        } else {
            0u8
        };
        (n, past_closer(e, BraceKind::Bracket))
    } else {
        (0u8, d)
    };
    let (body, rest) = body_of(g);
    (DefinitionView { name, arity, body }, rest)
}

/// The number of parameters that the stream `s` goes on with, counted on
/// from `arity`, and the stream after them. A parameter is a hash and the
/// word after it, if there is one.
pub open spec fn hashes_of(s: Seq<TokView>, arity: u8) -> (u8, Seq<TokView>)
    decreases s.len(),
{
    if s.len() > 0 && s[0].0 == Token::Hash {
        let a = s.drop_first();
        let b = if a.len() > 0 && a[0].0 == Token::Word {
            a.drop_first()
        } else {
            a
        };
        hashes_of(
            b,
            if arity < 255 {
                (arity + 1) as u8
            } else {
                arity
            },
        )
    } else {
        (arity, s)
    }
}

/// The definition that the stream `s` starts with, whose first token is
/// `\def`, and the stream after it. The form is `\def\name#1#2{body}`.
pub open spec fn def_of(s: Seq<TokView>) -> (DefinitionView, Seq<TokView>) {
    let a = past_trivia(rest_of(s));
    let (name, b) = if a.len() > 0 && a[0].0 is CommandName {
        (Some(name_of(a[0].1)), rest_of(a))
    } else {
        (None, a)
    };
    let (arity, c) = hashes_of(b, 0);
    let (body, rest) = body_of(c);
    (DefinitionView { name, arity, body }, rest)
}

/// The bindings after a definition: the macro of the definition is bound
/// last, with the parameters of its body turned into markers. A definition
/// without a name, or with more than nine parameters, binds nothing.
pub open spec fn installed(b: Seq<BindingView>, d: DefinitionView) -> Seq<BindingView> {
    match d.name {
        Some(name) => if d.arity <= 9 {
            b.push((name, (d.arity, with_markers(d.body))))
        } else {
            b
        },
        None => b,
    }
}

/// The bindings and the marks after the innermost scope is left: the
/// bindings made in it are dropped. Outside any scope nothing changes.
pub open spec fn scope_left(b: Seq<BindingView>, marks: Seq<usize>) -> (
    Seq<BindingView>,
    Seq<usize>,
) {
    if marks.len() == 0 {
        (b, marks)
    } else if marks.last() <= b.len() {
        (b.take(marks.last() as int), marks.drop_last())
    } else {
        (b, marks.drop_last())
    }
}

/// What the engine is in contracts.
pub struct EngineView {
    /// The bindings, a later one before an earlier one of the same name
    pub bindings: Seq<BindingView>,
    /// For each open scope, the number of bindings when it opened
    pub marks: Seq<usize>,
    /// The number of steps left
    pub budget: nat,
    /// Whether the engine has said that it ran out of steps
    pub halted: bool,
}

/// What one step of the engine comes to.
pub struct StepView {
    /// The bindings after the step
    pub bindings: Seq<BindingView>,
    /// The marks after the step
    pub marks: Seq<usize>,
    /// The token that the step hands on, if it hands one on
    pub emitted: Seq<TokView>,
    /// The inner stream after the step
    pub rest: Seq<TokView>,
}

/// Whether `name` starts a definition of the form of `\newcommand`.
pub open spec fn is_newcommand(name: Seq<char>) -> bool {
    name == "newcommand"@ || name == "renewcommand"@ || name == "providecommand"@
}

/// One step of the engine on the stream `s`, which is not empty. A
/// definition is read and bound; a use of a bound macro is replaced by its
/// expansion; any other token is handed on, and a brace or an environment
/// opens or leaves a scope.
pub open spec fn step_of(b: Seq<BindingView>, marks: Seq<usize>, s: Seq<TokView>) -> StepView {
    let t = s[0];
    let forward = StepView { bindings: b, marks, emitted: seq![t], rest: rest_of(s) };
    match t.0 {
        Token::CommandName(CommandName::Generic) => {
            let name = name_of(t.1);
            if is_newcommand(name) {
                let (d, rest) = newcommand_of(s);
                StepView { bindings: installed(b, d), marks, emitted: Seq::empty(), rest }
            } else if name == "def"@ {
                let (d, rest) = def_of(s);
                StepView { bindings: installed(b, d), marks, emitted: Seq::empty(), rest }
            } else if macros_of(b).contains_key(name) {
                let m = macros_of(b)[name];
                let (args, rest) = arguments_of(rest_of(s), m.0 as nat);
                StepView {
                    bindings: b,
                    marks,
                    emitted: Seq::empty(),
                    rest: expansion(m.1, args) + rest,
                }
            } else {
                forward
            }
        },
        Token::Left(BraceKind::Curly) | Token::CommandName(CommandName::BeginEnvironment) => {
            StepView { bindings: b, marks: marks.push(b.len() as usize), emitted: seq![t], rest: rest_of(s) }
        },
        Token::Right(BraceKind::Curly) | Token::CommandName(CommandName::EndEnvironment) => {
            let (b2, m2) = scope_left(b, marks);
            StepView { bindings: b2, marks: m2, emitted: seq![t], rest: rest_of(s) }
        },
        _ => forward,
    }
}

/// The tokens that the engine delivers from the inner stream `s`: what its
/// steps hand on, one after the other, for as long as it has steps left.
/// Where the steps run out before the stream does, one error token without
/// text comes last.
pub open spec fn engine_stream(
    b: Seq<BindingView>,
    marks: Seq<usize>,
    budget: nat,
    halted: bool,
    s: Seq<TokView>,
) -> Seq<TokView>
    decreases budget,
{
    if s.len() == 0 {
        Seq::empty()
    } else if budget == 0 {
        if halted {
            Seq::empty()
        } else {
            seq![(Token::Error, Seq::empty())]
        }
    } else {
        let step = step_of(b, marks, s);
        step.emitted + engine_stream(step.bindings, step.marks, (budget - 1) as nat, halted, step.rest)
    }
}

/// Reading one argument.
pub proof fn lemma_arguments_one(s: Seq<TokView>)
    ensures
        arguments_of(s, 1).0 == seq![argument_of(s).0],
        arguments_of(s, 1).1 == argument_of(s).1,
{
    let after = argument_of(s).1;
    assert(arguments_of(after, 0) == (Seq::<Seq<TokView>>::empty(), after));
    assert(arguments_of(s, 1).0 =~= seq![argument_of(s).0]);
}

/// Reading `j` arguments and then `k` more is reading `j + k` arguments.
pub proof fn lemma_arguments_step(s: Seq<TokView>, j: nat, k: nat)
    ensures
        arguments_of(s, j + k).0 == arguments_of(s, j).0 + arguments_of(
            arguments_of(s, j).1,
            k,
        ).0,
        arguments_of(s, j + k).1 == arguments_of(arguments_of(s, j).1, k).1,
    decreases j,
{
    if j == 0 {
        assert(arguments_of(s, j).0 + arguments_of(s, k).0 =~= arguments_of(s, k).0);
    } else {
        let (first, after) = argument_of(s);
        lemma_arguments_step(after, (j - 1) as nat, k);
        assert(arguments_of(s, j + k).0 =~= arguments_of(s, j).0 + arguments_of(
            arguments_of(s, j).1,
            k,
        ).0);
    }
}

/// Viewing tokens turned around, and turning the views around again, gives
/// the views of the tokens.
pub proof fn lemma_view_reversed(v: Seq<Tok>)
    ensures
        view_toks(v.reverse()).reverse() == view_toks(v),
{
    assert(view_toks(v.reverse()).reverse() =~= view_toks(v));
}

/// Reads the curly group at which the stream stands, without its braces.
pub fn read_group<'a>(ctx: &mut StreamContext<'a>) -> (r: Vec<Tok<'a>>)
    requires
        old(ctx).settled(),
    ensures
        final(ctx).peek_outer == old(ctx).peek_outer,
        final(ctx).inner.spec_commands() == old(ctx).inner.spec_commands(),
        final(ctx).settled(),
        (view_toks(r@), final(ctx).inner_stream()) == group_of(old(ctx).inner_stream()),
{
    ctx.next_token();
    ctx.read_until_balanced(BraceKind::Curly)
}

/// Reads one argument of a macro off the inner stream, from the current
/// token on.
pub fn read_argument<'a>(ctx: &mut StreamContext<'a>) -> (r: Vec<Tok<'a>>)
    ensures
        final(ctx).peek_outer == old(ctx).peek_outer,
        final(ctx).inner.spec_commands() == old(ctx).inner.spec_commands(),
        final(ctx).settled(),
        (view_toks(r@), final(ctx).inner_stream()) == argument_of(old(ctx).inner_stream()),
{
    match ctx.peek_not_trivia() {
        Some(Token::Left(BraceKind::Curly)) => read_group(ctx),
        Some(_) => {
            let t = ctx.peek_full();
            proof {
                ctx.lemma_settled();
            }
            ctx.next_token();
            match t {
                Some(tok) => {
                    let mut r: Vec<Tok<'a>> = Vec::new();
                    r.push(tok);
                    assert(view_toks(r@) =~= seq![view_tok(tok)]);
                    r
                },
                None => Vec::new(),
            }
        },
        None => {
            let r: Vec<Tok<'a>> = Vec::new();
            proof {
                assert(view_toks(r@) =~= Seq::<TokView>::empty());
                assert(ctx.inner_stream() =~= Seq::<TokView>::empty());
            }
            r
        },
    }
}

/// Reads the body of a definition: the tokens of the curly group that
/// follows, after trivia. Without such a group the body is empty.
pub fn read_body<'a>(ctx: &mut StreamContext<'a>) -> (r: Vec<Tok<'a>>)
    ensures
        final(ctx).peek_outer == old(ctx).peek_outer,
        final(ctx).inner.spec_commands() == old(ctx).inner.spec_commands(),
        final(ctx).settled(),
        (view_toks(r@), final(ctx).inner_stream()) == body_of(old(ctx).inner_stream()),
{
    match ctx.peek_not_trivia() {
        Some(Token::Left(BraceKind::Curly)) => read_group(ctx),
        _ => {
            let r: Vec<Tok<'a>> = Vec::new();
            assert(view_toks(r@) =~= Seq::<TokView>::empty());
            r
        },
    }
}

/// A definition of a macro, as it was read off the stream.
#[derive(Debug)]
pub struct Definition<'a> {
    /// The name of the macro, if there was one
    pub name: Option<&'a str>,
    /// The number of parameters
    pub arity: u8,
    /// The tokens of the body, as the source has them
    pub body: Vec<Tok<'a>>,
}

impl<'a> View for Definition<'a> {
    type V = DefinitionView;

    open spec fn view(&self) -> DefinitionView {
        DefinitionView {
            name: match self.name {
                Some(n) => Some(n@),
                None => None,
            },
            arity: self.arity,
            body: view_toks(self.body@),
        }
    }
}

/// The name that a command token gives a macro.
fn macro_name<'a>(tok: Option<Tok<'a>>) -> (r: Option<&'a str>)
    ensures
        r is Some <==> tok is Some,
        r matches Some(n) ==> (tok matches Some(t) && n@ == name_of(t.1@)),
{
    match tok {
        Some((_, text)) => Some(command_name(text)),
        None => None,
    }
}

/// Reads a definition of the form `\newcommand{\name}[n]{body}` off the
/// stream, whose current token is `\newcommand`. The braces around the name
/// and the number of parameters may be left out.
pub fn read_newcommand<'a>(ctx: &mut StreamContext<'a>) -> (r: Definition<'a>)
    requires
        old(ctx).settled(),
    ensures
        final(ctx).peek_outer == old(ctx).peek_outer,
        final(ctx).inner.spec_commands() == old(ctx).inner.spec_commands(),
        final(ctx).settled(),
        (r@, final(ctx).inner_stream()) == newcommand_of(old(ctx).inner_stream()),
{
    let name = match ctx.next_not_trivia() {
        Some(Token::Left(BraceKind::Curly)) => {
            ctx.next_not_trivia();
            proof {
                ctx.lemma_settled();
                lemma_leading_trivia(ctx.upcoming());
            }
            ctx.peek_cmd_name_opt(BraceKind::Curly)
        },
        Some(Token::CommandName(_)) => {
            let tok = ctx.peek_full();
            proof {
                ctx.lemma_settled();
            }
            ctx.next_token();
            tok
        },
        _ => None,
    };
    let ghost c = ctx.inner_stream();
    let arity = match ctx.peek_not_trivia() {
        Some(Token::Left(BraceKind::Bracket)) => {
            ctx.next_not_trivia();
            proof {
                ctx.lemma_settled();
                lemma_leading_trivia(ctx.upcoming());
            }
            match ctx.peek_u8_opt(BraceKind::Bracket) {
                Some(n) => n,
                None => 0,
            }
        },
        _ => 0,
    };
    let body = read_body(ctx);
    Definition { name: macro_name(name), arity, body }
}

/// Reads a definition of the form `\def\name#1#2{body}` off the stream,
/// whose current token is `\def`. Each hash before the body is one parameter.
pub fn read_def<'a>(ctx: &mut StreamContext<'a>) -> (r: Definition<'a>)
    requires
        old(ctx).settled(),
    ensures
        final(ctx).peek_outer == old(ctx).peek_outer,
        final(ctx).inner.spec_commands() == old(ctx).inner.spec_commands(),
        final(ctx).settled(),
        (r@, final(ctx).inner_stream()) == def_of(old(ctx).inner_stream()),
{
    let name = match ctx.next_not_trivia() {
        Some(Token::CommandName(_)) => {
            let tok = ctx.peek_full();
            proof {
                ctx.lemma_settled();
            }
            ctx.next_token();
            tok
        },
        _ => None,
    };
    let mut arity: u8 = 0;
    let ghost b = ctx.inner_stream();
    loop
        invariant_except_break
            hashes_of(ctx.inner_stream(), arity) == hashes_of(b, 0),
        invariant
            ctx.peek_outer == old(ctx).peek_outer,
            ctx.inner.spec_commands() == old(ctx).inner.spec_commands(),
            ctx.settled(),
        ensures
            hashes_of(b, 0) == (arity, ctx.inner_stream()),
        decreases ctx.inner_stream().len(),
    {
        proof {
            ctx.lemma_settled();
        }
        match ctx.peek() {
            Some(Token::Hash) => {
                ctx.next_token();
                proof {
                    ctx.lemma_settled();
                }
                if ctx.peek() == Some(Token::Word) {
                    ctx.next_token();
                }
                if arity < 255 {
                    arity += 1;
                }
            },
            _ => {
                break ;
            },
        }
    }
    let body = read_body(ctx);
    Definition { name: macro_name(name), arity, body }
}

/// The macro engine: the bindings in force, the scopes that opened around
/// them, and the number of steps that it may still take.
pub struct MacroEngine<'a> {
    /// The bindings, a later one before an earlier one of the same name
    bindings: Vec<Binding<'a>>,
    /// For each open scope, the number of bindings when it opened
    scopes: Vec<usize>,
    /// The number of steps left
    budget: usize,
    /// Whether the engine has said that it ran out of steps
    halted: bool,
}

impl<'a> View for MacroEngine<'a> {
    type V = EngineView;

    closed spec fn view(&self) -> EngineView {
        EngineView {
            bindings: view_bindings(self.bindings@),
            marks: self.scopes@,
            budget: self.budget as nat,
            halted: self.halted,
        }
    }
}

impl<'a> MacroifyStream<'a> for MacroEngine<'a> {
    open spec fn macros(&self) -> Map<Seq<char>, MacroView> {
        macros_of(self@.bindings)
    }

    fn get_macro(&self, name: &str) -> (r: Option<Macro<'a>>) {
        match self.lookup(name) {
            Some(i) => {
                let def = &self.bindings[i].def;
                Some(Macro { arity: def.arity, body: copy_toks(&def.body) })
            },
            None => None,
        }
    }
}

impl<'a> MacroEngine<'a> {
    /// An engine without bindings that may take `budget` steps: each token
    /// handed on, each definition read and each use expanded is one step.
    /// Past that the engine delivers one error token and then nothing.
    pub fn new(budget: usize) -> (r: Self)
        ensures
            r@ == (EngineView {
                bindings: Seq::empty(),
                marks: Seq::empty(),
                budget: budget as nat,
                halted: false,
            }),
    {
        let r = MacroEngine { bindings: Vec::new(), scopes: Vec::new(), budget, halted: false };
        assert(r@.bindings =~= Seq::<BindingView>::empty());
        assert(r@.marks =~= Seq::<usize>::empty());
        r
    }

    /// The index of the binding of `name` that is in force, if there is one.
    pub fn lookup(&self, name: &str) -> (r: Option<usize>)
        ensures
            r is Some <==> self.macros().contains_key(name@),
            r matches Some(i) ==> i < self@.bindings.len() && self@.bindings[i as int].0 == name@
                && self.macros()[name@] == self@.bindings[i as int].1,
    {
        let mut i: usize = self.bindings.len();
        let ghost b = view_bindings(self.bindings@);
        assert(b.take(i as int) =~= b);
        while i > 0
            invariant
                i <= b.len(),
                b == view_bindings(self.bindings@),
                macros_of(b).contains_key(name@) == macros_of(b.take(i as int)).contains_key(
                    name@,
                ),
                macros_of(b).contains_key(name@) ==> macros_of(b)[name@] == macros_of(
                    b.take(i as int),
                )[name@],
            decreases i,
        {
            proof {
                assert(b.take(i as int).drop_last() =~= b.take(i - 1));
            }
            if str_eq(self.bindings[i - 1].name, name) {
                return Some(i - 1);
            }
            i -= 1;
        }
        None
    }

    /// Binds `name` to `def`, before any earlier binding of the name.
    pub fn define(&mut self, name: &'a str, def: Macro<'a>)
        ensures
            final(self)@ == (EngineView {
                bindings: old(self)@.bindings.push((name@, def.spec_view())),
                ..old(self)@
            }),
            final(self).macros() == old(self).macros().insert(name@, def.spec_view()),
    {
        let ghost before = view_bindings(self.bindings@);
        self.bindings.push(Binding { name, def });
        proof {
            assert(view_bindings(self.bindings@) =~= before.push((name@, def.spec_view())));
            assert(before.push((name@, def.spec_view())).drop_last() =~= before);
        }
    }

    /// Opens a scope: bindings made from now on last until it is left.
    pub fn enter_scope(&mut self)
        ensures
            final(self)@ == (EngineView {
                marks: old(self)@.marks.push(old(self)@.bindings.len() as usize),
                ..old(self)@
            }),
    {
        self.scopes.push(self.bindings.len());
    }

    /// Leaves the innermost scope and drops the bindings made in it. Outside
    /// any scope nothing changes.
    pub fn leave_scope(&mut self)
        ensures
            final(self)@ == (EngineView {
                bindings: scope_left(old(self)@.bindings, old(self)@.marks).0,
                marks: scope_left(old(self)@.bindings, old(self)@.marks).1,
                ..old(self)@
            }),
    {
        let ghost b = view_bindings(self.bindings@);
        match self.scopes.pop() {
            Some(mark) => {
                self.bindings.truncate(mark);
                proof {
                    if mark <= b.len() {
                        assert(view_bindings(self.bindings@) =~= b.take(mark as int));
                    } else {
                        assert(view_bindings(self.bindings@) =~= b);
                    }
                    assert(self.scopes@ =~= old(self).scopes@.drop_last());
                }
            },
            None => {},
        }
    }

    /// Binds the macro of a definition, with the parameters in its body
    /// turned into markers. A definition without a name, or with more than
    /// nine parameters, binds nothing.
    pub fn install(&mut self, definition: Definition<'a>)
        ensures
            final(self)@ == (EngineView {
                bindings: installed(old(self)@.bindings, definition@),
                ..old(self)@
            }),
    {
        match definition.name {
            Some(name) => {
                if definition.arity <= 9 {
                    let body = mark_arguments(&definition.body);
                    self.define(name, Macro { arity: definition.arity, body });
                }
            },
            None => {},
        }
    }

    /// Replaces the use of the macro with the index `index`, whose name is the
    /// current token, by its expansion: the arguments are read off the
    /// stream behind the name, and the body with the arguments in place of
    /// the markers is put in front of what follows.
    pub fn expand(&self, ctx: &mut StreamContext<'a>, index: usize)
        requires
            index < self@.bindings.len(),
            old(ctx).settled(),
        ensures
            final(ctx).peek_outer == old(ctx).peek_outer,
            final(ctx).inner.spec_commands() == old(ctx).inner.spec_commands(),
            final(ctx).settled(),
            ({
                let def = self@.bindings[index as int].1;
                let (args, rest) = arguments_of(rest_of(old(ctx).inner_stream()), def.0 as nat);
                final(ctx).inner_stream() == expansion(def.1, args) + rest
            }),
    {
        let def = &self.bindings[index].def;
        ctx.next_token();
        let ghost start = ctx.inner_stream();
        let mut args: Vec<Vec<Tok<'a>>> = Vec::new();
        let mut k: u8 = 0;
        assert(view_args(args@) =~= arguments_of(start, 0).0);
        while k < def.arity
            invariant
                k <= def.arity,
                ctx.peek_outer == old(ctx).peek_outer,
                ctx.inner.spec_commands() == old(ctx).inner.spec_commands(),
                view_args(args@) == arguments_of(start, k as nat).0,
                ctx.inner_stream() == arguments_of(start, k as nat).1,
            decreases def.arity - k,
        {
            let ghost before = view_args(args@);
            let arg = read_argument(ctx);
            args.push(arg);
            proof {
                lemma_arguments_step(start, k as nat, 1);
                let s = arguments_of(start, k as nat).1;
                lemma_arguments_one(s);
                assert(view_args(args@) =~= before + seq![view_toks(arg@)]);
            }
            k += 1;
        }
        let exp = substitute(&def.body, &args);
        let rev = reversed(&exp);
        proof {
            lemma_view_reversed(exp@);
        }
        ctx.extend_inner(rev);
        if ctx.peek_full().is_none() {
            ctx.next_token();
            proof {
                assert(ctx.inner_stream() =~= expansion(view_toks(def.body@), view_args(args@))
                    + arguments_of(start, def.arity as nat).1);
            }
        }
    }

    /// Takes one step on the current token of the inner stream: reads a
    /// definition, expands a use of a macro, or hands the token on to `page`
    /// and keeps account of the scopes that braces and environments open.
    pub fn step(&mut self, ctx: &mut StreamContext<'a>, page: &mut Vec<Tok<'a>>)
        requires
            old(ctx).current() is Some,
        ensures
            final(ctx).peek_outer == old(ctx).peek_outer,
            final(ctx).inner.spec_commands() == old(ctx).inner.spec_commands(),
            final(ctx).settled(),
            ({
                let step = step_of(old(self)@.bindings, old(self)@.marks, old(ctx).inner_stream());
                &&& final(self)@ == (EngineView {
                    bindings: step.bindings,
                    marks: step.marks,
                    ..old(self)@
                })
                &&& view_toks(final(page)@) == view_toks(old(page)@) + step.emitted
                &&& final(ctx).inner_stream() == step.rest
            }),
    {
        proof {
            ctx.lemma_settled();
            assert(view_toks(page@) + Seq::<TokView>::empty() =~= view_toks(page@));
        }
        let (kind, text) = match ctx.peek_full() {
            Some(t) => t,
            None => {
                return ;
            },
        };
        match kind {
            Token::CommandName(CommandName::Generic) => {
                let name = command_name(text);
                if str_eq(name, "newcommand") || str_eq(name, "renewcommand") || str_eq(
                    name,
                    "providecommand",
                ) {
                    let definition = read_newcommand(ctx);
                    self.install(definition);
                    return ;
                }
                if str_eq(name, "def") {
                    let definition = read_def(ctx);
                    self.install(definition);
                    return ;
                }
                match self.lookup(name) {
                    Some(i) => {
                        self.expand(ctx, i);
                        return ;
                    },
                    None => {},
                }
            },
            Token::Left(BraceKind::Curly) | Token::CommandName(CommandName::BeginEnvironment) => {
                self.enter_scope();
            },
            Token::Right(BraceKind::Curly) | Token::CommandName(CommandName::EndEnvironment) => {
                self.leave_scope();
            },
            _ => {},
        }
        let ghost before = view_toks(page@);
        page.push((kind, text));
        ctx.next_token();
        proof {
            assert(view_toks(page@) =~= before + seq![view_tok((kind, text))]);
        }
    }
}

impl<'a> BumpTokenStream<'a> for MacroEngine<'a> {
    open spec fn inv(&self, ctx: &StreamContext<'a>) -> bool {
        true
    }

    open spec fn delivers(&self, inner: Seq<TokView>) -> Seq<TokView> {
        engine_stream(self@.bindings, self@.marks, self@.budget, self@.halted, inner)
    }

    proof fn inv_frame(&self, a: &StreamContext<'a>, b: &StreamContext<'a>) {
    }

    /// Fills the outer cache with up to a page of tokens, one step of the
    /// engine at a time. Once the steps are used up, the engine delivers one
    /// error token with an empty text in place of what is left, and nothing
    /// after it.
    fn bump(&mut self, ctx: &mut StreamContext<'a>) {
        let mut page: Vec<Tok<'a>> = Vec::new();
        let ghost want = self.delivers(ctx.inner_stream());
        if ctx.peek_full().is_none() {
            ctx.next_token();
        }
        proof {
            assert(view_toks(page@) + self.delivers(ctx.inner_stream()) =~= want);
        }
        while page.len() < PEEK_CACHE_SIZE && self.budget > 0
            invariant
                page@.len() <= PEEK_CACHE_SIZE,
                ctx.peek_outer == old(ctx).peek_outer,
                ctx.inner.spec_commands() == old(ctx).inner.spec_commands(),
                ctx.settled(),
                view_toks(page@) + self.delivers(ctx.inner_stream()) == want,
            ensures
                page@.len() >= PEEK_CACHE_SIZE || self.budget == 0 || ctx.inner_stream().len()
                    == 0,
            decreases self.budget,
        {
            proof {
                ctx.lemma_settled();
            }
            if ctx.peek_full().is_none() {
                break ;
            }
            let ghost before = view_toks(page@);
            let ghost pre = *self;
            let ghost s = ctx.inner_stream();
            self.budget -= 1;
            self.step(ctx, &mut page);
            proof {
                let step = step_of(pre@.bindings, pre@.marks, s);
                assert(view_toks(page@) + self.delivers(ctx.inner_stream()) =~= before + (
                step.emitted + self.delivers(ctx.inner_stream())));
            }
        }
        proof {
            ctx.lemma_settled();
        }
        if self.budget == 0 && !self.halted && page.len() < PEEK_CACHE_SIZE
            && ctx.peek_full().is_some() {
            let ghost before = view_toks(page@);
            page.push((Token::Error, ""));
            self.halted = true;
            proof {
                reveal_strlit("");
                assert(""@ =~= Seq::<char>::empty());
                assert(view_toks(page@) =~= before + seq![(Token::Error, Seq::<char>::empty())]);
                assert(view_toks(page@) + self.delivers(ctx.inner_stream()) =~= want);
            }
        }
        proof {
            assert(page@.take(page@.len() as int) =~= page@);
        }
        ctx.peek_outer.bump(page);
    }
}

} // verus!
