//! The grammar: which tree a sequence of tokens stands for.
//!
//! Each function here reads a construct off the front of a stream of tokens
//! and says what it is and what is left of the stream. `tree_of` is the tree
//! of a whole stream. The parser is proved to build exactly these trees.
//!
//! Where a function compares the lengths of two streams before it reads on,
//! that is for the sake of its termination alone: no reading makes a stream
//! longer, so the comparison always goes the same way.

use vstd::prelude::*;

use crate::command_spec::{ArgKind, ArgSlot, Associativity};
use crate::parser::{group_kind, Scope};
use crate::scan::TokView;
use crate::shape::Commands;
use crate::syntax::{leaf_kind, ElemView, SyntaxKind};
use crate::text::u8_value;
use crate::token::{name_of, BraceKind, CommandName, Token};

verus! {

/// The tokens that are still to be read.
pub type Stream = Seq<TokView>;

/// What was read, after what was there before, and the stream that is left.
pub struct Out {
    /// The elements
    pub items: Seq<ElemView>,
    /// The stream that is left
    pub rest: Stream,
}

/// One element that was read, and the stream that is left.
pub struct One {
    /// The element
    pub elem: ElemView,
    /// The stream that is left
    pub rest: Stream,
}

/// A leaf.
pub open spec fn leaf(kind: SyntaxKind, text: Seq<char>) -> ElemView {
    ElemView::Leaf { kind, text }
}

/// A node.
pub open spec fn node(kind: SyntaxKind, children: Seq<ElemView>) -> ElemView {
    ElemView::Node { kind, children }
}

/// The leaf that a token becomes in its own role.
pub open spec fn token_leaf(t: TokView) -> ElemView {
    leaf(leaf_kind(t.0), t.1)
}

/// The leaf that the name of a command becomes.
pub open spec fn name_leaf(t: TokView) -> ElemView {
    leaf(SyntaxKind::ClauseCommandName, t.1)
}

/// The mark of something missing: an error leaf without text.
pub open spec fn missing_mark() -> ElemView {
    leaf(SyntaxKind::TokenError, Seq::empty())
}

/// Whether `e` is a leaf of white space, a line break or a comment.
pub open spec fn is_trivia_view(e: ElemView) -> bool {
    e matches ElemView::Leaf { kind, .. } && (kind == SyntaxKind::TokenWhiteSpace || kind
        == SyntaxKind::TokenLineBreak || kind == SyntaxKind::TokenComment)
}

/// The number of elements of `s` up to and with its last item, trivia not
/// counting as items: what stays when the last item is taken off with the
/// trivia after it. Where `s` holds nothing but trivia, all of it stays.
pub open spec fn kept_len(s: Seq<ElemView>) -> int {
    let i = last_item_view(s);
    if i < 0 {
        s.len() as int
    } else {
        i
    }
}

/// The index of the last element of `s` that is no trivia leaf, or -1.
pub open spec fn last_item_view(s: Seq<ElemView>) -> int
    decreases s.len(),
{
    if s.len() == 0 {
        -1
    } else if is_trivia_view(s.last()) {
        last_item_view(s.drop_last())
    } else {
        s.len() - 1
    }
}

/// Whether the role makes a command take its argument otherwise than after
/// its name, slot by slot.
pub open spec fn reshapes(commands: Commands, name: Seq<char>) -> bool {
    commands.contains_key(name) && (commands[name].role == Associativity::Left1
        || commands[name].role == Associativity::Infix || commands[name].role
        == Associativity::RightGreedy)
}

/// Whether the command takes the arguments after its name, slot by slot.
pub open spec fn takes_slots(commands: Commands, name: Seq<char>) -> bool {
    commands.contains_key(name) && (commands[name].role == Associativity::Prefix
        || commands[name].role == Associativity::Matrix)
}

/// The trivia at the front of `s`, as leaves after `items`.
pub open spec fn trivia_read(s: Stream, items: Seq<ElemView>) -> Out
    decreases s.len(),
{
    if s.len() > 0 && s[0].0.spec_is_trivia() {
        trivia_read(s.drop_first(), items.push(token_leaf(s[0])))
    } else {
        Out { items, rest: s }
    }
}

/// The words and trivia at the front of `s`, as leaves after `items`.
pub open spec fn text_tail_read(s: Stream, items: Seq<ElemView>) -> Out
    decreases s.len(),
{
    if s.len() > 0 && (s[0].0.spec_is_trivia() || s[0].0 == Token::Word) {
        text_tail_read(s.drop_first(), items.push(token_leaf(s[0])))
    } else {
        Out { items, rest: s }
    }
}

/// A text: the word at the front of `s` with the words and trivia after it.
pub open spec fn text_read(s: Stream) -> One {
    let o = text_tail_read(s.drop_first(), seq![token_leaf(s[0])]);
    One { elem: node(SyntaxKind::ItemText, o.items), rest: o.rest }
}

/// One character of the word at the front of `s`, as a leaf: the stream keeps
/// the rest of the word.
pub open spec fn char_read(s: Stream) -> One {
    let text = s[0].1;
    if text.len() <= 1 {
        One { elem: leaf(SyntaxKind::TokenWord, text), rest: s.drop_first() }
    } else {
        One {
            elem: leaf(SyntaxKind::TokenWord, text.take(1)),
            rest: s.update(0, (s[0].0, text.skip(1))),
        }
    }
}

/// The tokens of a block comment after its start: all up to and with `\fi`.
pub open spec fn comment_tail_read(s: Stream, items: Seq<ElemView>) -> Out
    decreases s.len(),
{
    if s.len() == 0 {
        Out { items, rest: s }
    } else if s[0].0 == Token::CommandName(CommandName::EndBlockComment) {
        Out { items: items.push(token_leaf(s[0])), rest: s.drop_first() }
    } else {
        comment_tail_read(s.drop_first(), items.push(token_leaf(s[0])))
    }
}

/// A block comment, which starts with the token at the front of `s`.
pub open spec fn block_comment_read(s: Stream) -> One {
    let o = comment_tail_read(s.drop_first(), seq![name_leaf(s[0])]);
    One { elem: node(SyntaxKind::ItemBlockComment, o.items), rest: o.rest }
}

/// The name of an environment in its braces, as a group after `items`, and
/// the name. Without an opening brace at the front of `s` nothing is read.
pub open spec fn env_name_read(s: Stream, items: Seq<ElemView>) -> (Out, Option<Seq<char>>) {
    if s.len() > 0 && s[0].0 == Token::Left(BraceKind::Curly) {
        let opened = seq![token_leaf(s[0])];
        let s1 = s.drop_first();
        let named = s1.len() > 0 && s1[0].0 == Token::Word;
        let worded = if named {
            opened.push(token_leaf(s1[0]))
        } else {
            opened
        };
        let s2 = if named {
            s1.drop_first()
        } else {
            s1
        };
        let name = if named {
            Some(s1[0].1)
        } else {
            None
        };
        if s2.len() > 0 && s2[0].0 == Token::Right(BraceKind::Curly) {
            (
                Out {
                    items: items.push(
                        node(SyntaxKind::ItemCurly, worded.push(token_leaf(s2[0]))),
                    ),
                    rest: s2.drop_first(),
                },
                name,
            )
        } else {
            (
                Out {
                    items: items.push(node(SyntaxKind::ItemCurly, worded.push(missing_mark()))),
                    rest: s2,
                },
                name,
            )
        }
    } else {
        (Out { items, rest: s }, None)
    }
}

/// A group, whose opening brace is at the front of `s`: the items up to the
/// closing brace of the same kind, that brace and the trivia after it, or the
/// mark that the brace is missing.
pub open spec fn group_read(s: Stream, kind: BraceKind, scope: Scope, commands: Commands) -> One
    decreases s.len(), 5nat, 0nat,
{
    if s.len() == 0 {
        One { elem: node(group_kind(kind), Seq::empty()), rest: s }
    } else {
        let inner = items_read(
            s.drop_first(),
            Seq::empty(),
            scope.spec_within(kind),
            false,
            commands,
        );
        let filled = seq![token_leaf(s[0])] + inner.items;
        if inner.rest.len() > 0 && inner.rest[0].0 == Token::Right(kind) {
            let o = trivia_read(inner.rest.drop_first(), filled.push(token_leaf(inner.rest[0])));
            One { elem: node(group_kind(kind), o.items), rest: o.rest }
        } else {
            One { elem: node(group_kind(kind), filled.push(missing_mark())), rest: inner.rest }
        }
    }
}

/// A single thing that can stand as an operand or as a term, after `items`:
/// a curly group, one character of a word, a command with the arguments after
/// it, or one of a few single tokens. Where there is none, nothing is read.
pub open spec fn atom_read(s: Stream, items: Seq<ElemView>, scope: Scope, commands: Commands) -> (
    Out,
    bool,
)
    decreases s.len(), 9nat, 0nat,
{
    if s.len() == 0 {
        (Out { items, rest: s }, false)
    } else {
        match s[0].0 {
            Token::Left(BraceKind::Curly) => {
                let g = group_read(s, BraceKind::Curly, scope, commands);
                (Out { items: items.push(g.elem), rest: g.rest }, true)
            },
            Token::Word => {
                let c = char_read(s);
                (Out { items: items.push(c.elem), rest: c.rest }, true)
            },
            Token::CommandName(CommandName::Generic)
            | Token::CommandName(CommandName::Left)
            | Token::CommandName(CommandName::Right) => {
                if reshapes(commands, name_of(s[0].1)) {
                    (Out { items, rest: s }, false)
                } else {
                    let c = command_read(s, scope, commands);
                    (Out { items: items.push(c.elem), rest: c.rest }, true)
                }
            },
            Token::Comma
            | Token::Tilde
            | Token::Slash
            | Token::Ditto
            | Token::Semicolon
            | Token::MacroArg(_)
            | Token::Left(_) => (
                Out { items: items.push(token_leaf(s[0])), rest: s.drop_first() },
                true,
            ),
            _ => (Out { items, rest: s }, false),
        }
    }
}

/// What fills the slot at the front of `s`, and whether anything does.
pub open spec fn slot_read(s: Stream, slot: ArgSlot, scope: Scope, commands: Commands) -> (
    Out,
    bool,
)
    decreases s.len(), 10nat, 0nat,
{
    let nothing = (Out { items: Seq::empty(), rest: s }, false);
    match slot.kind {
        ArgKind::Curly => if s.len() > 0 && s[0].0 == Token::Left(BraceKind::Curly) {
            let g = group_read(s, BraceKind::Curly, scope, commands);
            (Out { items: seq![g.elem], rest: g.rest }, true)
        } else {
            nothing
        },
        ArgKind::Bracket => if s.len() > 0 && s[0].0 == Token::Left(BraceKind::Bracket) {
            let g = group_read(s, BraceKind::Bracket, scope, commands);
            (Out { items: seq![g.elem], rest: g.rest }, true)
        } else {
            nothing
        },
        ArgKind::Term => atom_read(s, Seq::empty(), scope, commands),
        ArgKind::CommandName => if s.len() > 0 && s[0].0 is CommandName {
            (Out { items: seq![name_leaf(s[0])], rest: s.drop_first() }, true)
        } else {
            nothing
        },
        ArgKind::SmallInt => if s.len() > 0 && s[0].0 == Token::Word && u8_value(s[0].1)
            is Some {
            (Out { items: seq![token_leaf(s[0])], rest: s.drop_first() }, true)
        } else {
            nothing
        },
    }
}

/// One argument, after `items`: the trivia before it, then what fills the
/// slot in its wrapper, and the mark of something missing where a required
/// slot stays empty.
pub open spec fn argument_read(
    s: Stream,
    slot: ArgSlot,
    scope: Scope,
    commands: Commands,
    items: Seq<ElemView>,
) -> Out
    decreases s.len(), 11nat, 0nat,
{
    let t = trivia_read(s, items);
    if t.rest.len() > s.len() {
        t
    } else {
        let (inner, found) = slot_read(t.rest, slot, scope, commands);
        let wrapped = t.items.push(node(SyntaxKind::ClauseArgument, inner.items));
        Out {
            items: if !found && slot.required {
                wrapped.push(missing_mark())
            } else {
                wrapped
            },
            rest: inner.rest,
        }
    }
}

/// The arguments for the slots from the `i`-th on, after `items`.
pub open spec fn arguments_read(
    s: Stream,
    slots: Seq<ArgSlot>,
    i: int,
    scope: Scope,
    commands: Commands,
    items: Seq<ElemView>,
) -> Out
    decreases s.len(), 12nat, slots.len() - i,
{
    if i < 0 || i >= slots.len() {
        Out { items, rest: s }
    } else {
        let o = argument_read(s, slots[i], scope, commands, items);
        if o.rest.len() > s.len() {
            o
        } else {
            arguments_read(o.rest, slots, i + 1, scope, commands, o.items)
        }
    }
}

/// A command, whose name is at the front of `s`, with the arguments after
/// it: one for each slot if it is declared prefix or matrix, none otherwise.
pub open spec fn command_read(s: Stream, scope: Scope, commands: Commands) -> One
    decreases s.len(), 5nat, 0nat,
{
    if s.len() == 0 {
        One { elem: node(SyntaxKind::ItemCmd, Seq::empty()), rest: s }
    } else {
        let name = name_of(s[0].1);
        let named = seq![name_leaf(s[0])];
        if takes_slots(commands, name) {
            let o = arguments_read(s.drop_first(), commands[name].slots@, 0, scope, commands, named);
            One { elem: node(SyntaxKind::ItemCmd, o.items), rest: o.rest }
        } else {
            One { elem: node(SyntaxKind::ItemCmd, named), rest: s.drop_first() }
        }
    }
}

/// A script or a prime on `base`, whose operator is at the front of `s`: the
/// base in a wrapper, the operator, and for a script the trivia and the
/// operand after it.
pub open spec fn attach_read(s: Stream, base: Seq<ElemView>, scope: Scope, commands: Commands) -> One
    decreases s.len(), 5nat, 0nat,
{
    if s.len() == 0 {
        One { elem: node(SyntaxKind::ItemAttachComponent, Seq::empty()), rest: s }
    } else {
        let marked = seq![node(SyntaxKind::ClauseArgument, base), token_leaf(s[0])];
        if s[0].0 == Token::Apostrophe {
            One { elem: node(SyntaxKind::ItemAttachComponent, marked), rest: s.drop_first() }
        } else {
            let t = trivia_read(s.drop_first(), marked);
            if t.rest.len() >= s.len() {
                One { elem: node(SyntaxKind::ItemAttachComponent, t.items), rest: t.rest }
            } else {
                let o = atom_read(t.rest, t.items, scope, commands).0;
                One { elem: node(SyntaxKind::ItemAttachComponent, o.items), rest: o.rest }
            }
        }
    }
}

/// A command in a list after the items `acc`, whose name is at the front of
/// `s`. A left1 command wraps the last item, an infix command in a list that
/// is not greedy wraps all items and takes the rest of the scope, a
/// right-greedy command takes the rest of the scope, and any other command
/// takes the arguments after it.
pub open spec fn command_item_read(
    s: Stream,
    acc: Seq<ElemView>,
    scope: Scope,
    greedy: bool,
    commands: Commands,
) -> Out
    decreases s.len(), 8nat, 0nat,
{
    if s.len() == 0 {
        Out { items: acc, rest: s }
    } else {
        let name = name_of(s[0].1);
        if !reshapes(commands, name) {
            let c = command_read(s, scope, commands);
            Out { items: acc.push(c.elem), rest: c.rest }
        } else if commands[name].role == Associativity::Left1 {
            let k = kept_len(acc);
            let base = node(SyntaxKind::ClauseArgument, acc.skip(k));
            Out {
                items: acc.take(k).push(node(SyntaxKind::ItemCmd, seq![base, name_leaf(s[0])])),
                rest: s.drop_first(),
            }
        } else {
            let right = items_read(s.drop_first(), Seq::empty(), scope, true, commands);
            let after = node(SyntaxKind::ClauseArgument, right.items);
            if !greedy && commands[name].role == Associativity::Infix {
                let before = node(SyntaxKind::ClauseArgument, acc);
                Out {
                    items: seq![node(SyntaxKind::ItemCmd, seq![before, name_leaf(s[0]), after])],
                    rest: right.rest,
                }
            } else {
                Out {
                    items: acc.push(node(SyntaxKind::ItemCmd, seq![name_leaf(s[0]), after])),
                    rest: right.rest,
                }
            }
        }
    }
}

/// An environment, whose `\begin` is at the front of `s`: the begin clause
/// with the name and the declared arguments, the body, and the end clause,
/// marked if it names another environment, or the mark that it is missing.
pub open spec fn environment_read(s: Stream, scope: Scope, commands: Commands) -> One
    decreases s.len(), 5nat, 0nat,
{
    if s.len() == 0 {
        One { elem: node(SyntaxKind::ItemEnv, Seq::empty()), rest: s }
    } else {
        let t = trivia_read(s.drop_first(), seq![name_leaf(s[0])]);
        let (named, name) = env_name_read(t.rest, t.items);
        if named.rest.len() >= s.len() {
            One { elem: node(SyntaxKind::ItemEnv, named.items), rest: named.rest }
        } else {
            let begin = match name {
                Some(n) => if commands.contains_key(n) {
                    arguments_read(named.rest, commands[n].slots@, 0, scope, commands, named.items)
                } else {
                    named
                },
                None => named,
            };
            if begin.rest.len() >= s.len() {
                One { elem: node(SyntaxKind::ItemEnv, begin.items), rest: begin.rest }
            } else {
                let body = items_read(
                    begin.rest,
                    Seq::empty(),
                    scope.spec_within_env(),
                    false,
                    commands,
                );
                let children = seq![node(SyntaxKind::ItemBegin, begin.items)] + body.items;
                if body.rest.len() > 0 && body.rest[0].0 == Token::CommandName(
                    CommandName::EndEnvironment,
                ) {
                    let t2 = trivia_read(body.rest.drop_first(), seq![name_leaf(body.rest[0])]);
                    let (ended, end_name) = env_name_read(t2.rest, t2.items);
                    let end = if name == end_name {
                        ended.items
                    } else {
                        ended.items.push(missing_mark())
                    };
                    One {
                        elem: node(
                            SyntaxKind::ItemEnv,
                            children.push(node(SyntaxKind::ItemEnd, end)),
                        ),
                        rest: ended.rest,
                    }
                } else {
                    One {
                        elem: node(SyntaxKind::ItemEnv, children.push(missing_mark())),
                        rest: body.rest,
                    }
                }
            }
        }
    }
}

/// The step that a list takes on the token at the front of `s`, after the
/// items `acc`.
pub open spec fn item_read(
    s: Stream,
    acc: Seq<ElemView>,
    scope: Scope,
    greedy: bool,
    commands: Commands,
) -> Out
    decreases s.len(), 9nat, 1nat,
{
    if s.len() == 0 {
        Out { items: acc, rest: s }
    } else {
        let plain = Out { items: acc.push(token_leaf(s[0])), rest: s.drop_first() };
        match s[0].0 {
            Token::Word => {
                let t = text_read(s);
                Out { items: acc.push(t.elem), rest: t.rest }
            },
            Token::Left(k) => if greedy && k != BraceKind::Curly {
                plain
            } else {
                let g = group_read(s, k, scope, commands);
                Out { items: acc.push(g.elem), rest: g.rest }
            },
            Token::Underscore | Token::Caret | Token::Apostrophe => {
                let k = kept_len(acc);
                let a = attach_read(s, acc.skip(k), scope, commands);
                Out { items: acc.take(k).push(a.elem), rest: a.rest }
            },
            Token::CommandName(CommandName::Generic)
            | Token::CommandName(CommandName::Left)
            | Token::CommandName(CommandName::Right) => command_item_read(
                s,
                acc,
                scope,
                greedy,
                commands,
            ),
            Token::CommandName(CommandName::BeginEnvironment) => {
                let e = environment_read(s, scope, commands);
                Out { items: acc.push(e.elem), rest: e.rest }
            },
            Token::CommandName(CommandName::BeginBlockComment) => {
                let b = block_comment_read(s);
                Out { items: acc.push(b.elem), rest: b.rest }
            },
            Token::Right(_)
            | Token::CommandName(CommandName::EndEnvironment)
            | Token::CommandName(CommandName::EndBlockComment) => if greedy {
                plain
            } else {
                Out { items: acc.push(leaf(SyntaxKind::TokenError, s[0].1)), rest: s.drop_first() }
            },
            _ => plain,
        }
    }
}

/// The items of a scope after the items `acc`: up to the token that ends
/// the scope or to the end of the stream.
///
/// In a greedy list, the argument of a right-greedy command, brackets and
/// parentheses are plain leaves and an infix command does not split the list.
pub open spec fn items_read(
    s: Stream,
    acc: Seq<ElemView>,
    scope: Scope,
    greedy: bool,
    commands: Commands,
) -> Out
    decreases s.len(), 10nat, 0nat,
{
    if s.len() == 0 || scope.spec_stops(s[0].0) {
        Out { items: acc, rest: s }
    } else {
        let step = item_read(s, acc, scope, greedy, commands);
        if step.rest.len() >= s.len() {
            step
        } else {
            items_read(step.rest, step.items, scope, greedy, commands)
        }
    }
}

/// The tree that the tokens `s` stand for.
pub open spec fn tree_of(s: Stream, commands: Commands) -> ElemView {
    node(
        SyntaxKind::ScopeRoot,
        items_read(s, Seq::empty(), Scope::spec_root(), false, commands).items,
    )
}

} // verus!
