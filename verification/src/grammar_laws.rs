//! Laws of the grammar: what holds of the tree of every stream of tokens.

use vstd::prelude::*;

use crate::command_spec::{ArgSlot, Associativity};
use crate::grammar::{
    argument_read, arguments_read, atom_read, attach_read, command_item_read, command_read,
    comment_tail_read, env_name_read, environment_read, group_read, item_read, items_read,
    kept_len, last_item_view, missing_mark, name_leaf, node, reshapes, slot_read, takes_slots,
    text_tail_read, token_leaf, tree_of, trivia_read, Out, Stream,
};
use crate::parser::Scope;
use crate::scan::TokView;
use crate::shape::Commands;
use crate::syntax::{ElemView, SyntaxKind};
use crate::token::{name_of, BraceKind, CommandName, Token};

verus! {

/// The tree of no tokens is a root without children.
pub proof fn law_empty(commands: Commands)
    ensures
        tree_of(Seq::empty(), commands) == node(SyntaxKind::ScopeRoot, Seq::empty()),
{
}

/// A right-greedy command that nothing follows has one argument, and that is
/// empty.
pub proof fn law_right_greedy_alone(t: TokView, commands: Commands)
    requires
        t.0 == Token::CommandName(CommandName::Generic),
        commands.contains_key(name_of(t.1)),
        commands[name_of(t.1)].role == Associativity::RightGreedy,
    ensures
        tree_of(seq![t], commands) == node(
            SyntaxKind::ScopeRoot,
            seq![
                node(
                    SyntaxKind::ItemCmd,
                    seq![name_leaf(t), node(SyntaxKind::ClauseArgument, Seq::empty())],
                ),
            ],
        ),
{
    let s = seq![t];
    let root = Scope::spec_root();
    let none = Seq::<ElemView>::empty();
    let rest = s.drop_first();
    assert(rest.len() == 0);
    assert(items_read(rest, none, root, true, commands) == (Out { items: none, rest }));
    let cmd = node(
        SyntaxKind::ItemCmd,
        seq![name_leaf(t), node(SyntaxKind::ClauseArgument, none)],
    );
    assert(command_item_read(s, none, root, false, commands) == (Out {
        items: none.push(cmd),
        rest,
    }));
    assert(item_read(s, none, root, false, commands) == (Out { items: none.push(cmd), rest }));
    assert(items_read(rest, none.push(cmd), root, false, commands) == (Out {
        items: none.push(cmd),
        rest,
    }));
    assert(none.push(cmd) =~= seq![cmd]);
}

/// A left1 command that nothing stands before has one argument, and that is
/// empty.
pub proof fn law_left1_alone(t: TokView, commands: Commands)
    requires
        t.0 == Token::CommandName(CommandName::Generic),
        commands.contains_key(name_of(t.1)),
        commands[name_of(t.1)].role == Associativity::Left1,
    ensures
        tree_of(seq![t], commands) == node(
            SyntaxKind::ScopeRoot,
            seq![
                node(
                    SyntaxKind::ItemCmd,
                    seq![node(SyntaxKind::ClauseArgument, Seq::empty()), name_leaf(t)],
                ),
            ],
        ),
{
    let s = seq![t];
    let root = Scope::spec_root();
    let none = Seq::<ElemView>::empty();
    let rest = s.drop_first();
    assert(rest.len() == 0);
    assert(last_item_view(none) == -1);
    assert(kept_len(none) == 0);
    assert(none.skip(0) =~= none);
    assert(none.take(0) =~= none);
    let cmd = node(
        SyntaxKind::ItemCmd,
        seq![node(SyntaxKind::ClauseArgument, none), name_leaf(t)],
    );
    assert(command_item_read(s, none, root, false, commands) == (Out {
        items: none.push(cmd),
        rest,
    }));
    assert(item_read(s, none, root, false, commands) == (Out { items: none.push(cmd), rest }));
    assert(items_read(rest, none.push(cmd), root, false, commands) == (Out {
        items: none.push(cmd),
        rest,
    }));
    assert(none.push(cmd) =~= seq![cmd]);
}

/// Reading trivia makes the stream no longer.
pub proof fn law_trivia_shrinks(s: Stream, items: Seq<ElemView>)
    ensures
        trivia_read(s, items).rest.len() <= s.len(),
    decreases s.len(),
{
    if s.len() > 0 && s[0].0.spec_is_trivia() {
        law_trivia_shrinks(s.drop_first(), items.push(token_leaf(s[0])));
    }
}

/// Reading the tail of a text makes the stream no longer.
pub proof fn law_text_tail_shrinks(s: Stream, items: Seq<ElemView>)
    ensures
        text_tail_read(s, items).rest.len() <= s.len(),
    decreases s.len(),
{
    if s.len() > 0 && (s[0].0.spec_is_trivia() || s[0].0 == Token::Word) {
        law_text_tail_shrinks(s.drop_first(), items.push(token_leaf(s[0])));
    }
}

/// Reading the tail of a block comment makes the stream no longer.
pub proof fn law_comment_tail_shrinks(s: Stream, items: Seq<ElemView>)
    ensures
        comment_tail_read(s, items).rest.len() <= s.len(),
    decreases s.len(),
{
    if s.len() > 0 && s[0].0 != Token::CommandName(CommandName::EndBlockComment) {
        law_comment_tail_shrinks(s.drop_first(), items.push(token_leaf(s[0])));
    }
}

/// Reading a group makes the stream shorter.
pub proof fn law_group_shrinks(s: Stream, kind: BraceKind, scope: Scope, commands: Commands)
    requires
        s.len() > 0,
    ensures
        group_read(s, kind, scope, commands).rest.len() < s.len(),
    decreases s.len(), 5nat, 0nat,
{
    let inner = items_read(s.drop_first(), Seq::empty(), scope.spec_within(kind), false, commands);
    law_items_shrink(s.drop_first(), Seq::empty(), scope.spec_within(kind), false, commands);
    if inner.rest.len() > 0 && inner.rest[0].0 == Token::Right(kind) {
        let filled = seq![token_leaf(s[0])] + inner.items;
        law_trivia_shrinks(
            inner.rest.drop_first(),
            filled.push(token_leaf(inner.rest[0])),
        );
    }
}

/// Reading an atom makes the stream no longer.
pub proof fn law_atom_shrinks(s: Stream, items: Seq<ElemView>, scope: Scope, commands: Commands)
    ensures
        atom_read(s, items, scope, commands).0.rest.len() <= s.len(),
    decreases s.len(), 9nat, 0nat,
{
    if s.len() > 0 {
        match s[0].0 {
            Token::Left(BraceKind::Curly) => {
                law_group_shrinks(s, BraceKind::Curly, scope, commands);
            },
            Token::CommandName(CommandName::Generic)
            | Token::CommandName(CommandName::Left)
            | Token::CommandName(CommandName::Right) => {
                law_command_shrinks(s, scope, commands);
            },
            _ => {},
        }
    }
}

/// Reading what fills a slot makes the stream no longer.
pub proof fn law_slot_shrinks(s: Stream, slot: ArgSlot, scope: Scope, commands: Commands)
    ensures
        slot_read(s, slot, scope, commands).0.rest.len() <= s.len(),
    decreases s.len(), 10nat, 0nat,
{
    if s.len() > 0 {
        law_group_shrinks(s, BraceKind::Curly, scope, commands);
        law_group_shrinks(s, BraceKind::Bracket, scope, commands);
    }
    law_atom_shrinks(s, Seq::empty(), scope, commands);
}

/// Reading an argument makes the stream no longer.
pub proof fn law_argument_shrinks(
    s: Stream,
    slot: ArgSlot,
    scope: Scope,
    commands: Commands,
    items: Seq<ElemView>,
)
    ensures
        argument_read(s, slot, scope, commands, items).rest.len() <= s.len(),
    decreases s.len(), 11nat, 0nat,
{
    law_trivia_shrinks(s, items);
    law_slot_shrinks(trivia_read(s, items).rest, slot, scope, commands);
}

/// Reading arguments makes the stream no longer.
pub proof fn law_arguments_shrink(
    s: Stream,
    slots: Seq<ArgSlot>,
    i: int,
    scope: Scope,
    commands: Commands,
    items: Seq<ElemView>,
)
    ensures
        arguments_read(s, slots, i, scope, commands, items).rest.len() <= s.len(),
    decreases s.len(), 12nat, slots.len() - i,
{
    if 0 <= i < slots.len() {
        law_argument_shrinks(s, slots[i], scope, commands, items);
        let o = argument_read(s, slots[i], scope, commands, items);
        law_arguments_shrink(o.rest, slots, i + 1, scope, commands, o.items);
    }
}

/// Reading a command makes the stream shorter.
pub proof fn law_command_shrinks(s: Stream, scope: Scope, commands: Commands)
    requires
        s.len() > 0,
    ensures
        command_read(s, scope, commands).rest.len() < s.len(),
    decreases s.len(), 5nat, 0nat,
{
    let name = name_of(s[0].1);
    if takes_slots(commands, name) {
        law_arguments_shrink(
            s.drop_first(),
            commands[name].slots@,
            0,
            scope,
            commands,
            seq![name_leaf(s[0])],
        );
    }
}

/// Reading a script or a prime makes the stream shorter.
pub proof fn law_attach_shrinks(s: Stream, base: Seq<ElemView>, scope: Scope, commands: Commands)
    requires
        s.len() > 0,
    ensures
        attach_read(s, base, scope, commands).rest.len() < s.len(),
    decreases s.len(), 5nat, 0nat,
{
    if s[0].0 != Token::Apostrophe {
        let marked = seq![
            node(SyntaxKind::ClauseArgument, base),
            token_leaf(s[0]),
        ];
        law_trivia_shrinks(s.drop_first(), marked);
        let t = trivia_read(s.drop_first(), marked);
        law_atom_shrinks(t.rest, t.items, scope, commands);
    }
}

/// Reading a command in a list makes the stream shorter.
pub proof fn law_command_item_shrinks(
    s: Stream,
    acc: Seq<ElemView>,
    scope: Scope,
    greedy: bool,
    commands: Commands,
)
    requires
        s.len() > 0,
    ensures
        command_item_read(s, acc, scope, greedy, commands).rest.len() < s.len(),
    decreases s.len(), 8nat, 0nat,
{
    law_command_shrinks(s, scope, commands);
    law_items_shrink(s.drop_first(), Seq::empty(), scope, true, commands);
}

/// Reading an environment makes the stream shorter.
pub proof fn law_environment_shrinks(s: Stream, scope: Scope, commands: Commands)
    requires
        s.len() > 0,
    ensures
        environment_read(s, scope, commands).rest.len() < s.len(),
    decreases s.len(), 5nat, 0nat,
{
    let t = trivia_read(s.drop_first(), seq![name_leaf(s[0])]);
    law_trivia_shrinks(s.drop_first(), seq![name_leaf(s[0])]);
    let (named, name) = env_name_read(t.rest, t.items);
    let begin = match name {
        Some(n) => if commands.contains_key(n) {
            arguments_read(named.rest, commands[n].slots@, 0, scope, commands, named.items)
        } else {
            named
        },
        None => named,
    };
    match name {
        Some(n) => {
            if commands.contains_key(n) {
                law_arguments_shrink(
                    named.rest,
                    commands[n].slots@,
                    0,
                    scope,
                    commands,
                    named.items,
                );
            }
        },
        None => {},
    }
    let body = items_read(begin.rest, Seq::empty(), scope.spec_within_env(), false, commands);
    law_items_shrink(begin.rest, Seq::empty(), scope.spec_within_env(), false, commands);
    if body.rest.len() > 0 {
        law_trivia_shrinks(body.rest.drop_first(), seq![name_leaf(body.rest[0])]);
    }
}

/// One step of a list makes the stream shorter.
pub proof fn law_item_shrinks(
    s: Stream,
    acc: Seq<ElemView>,
    scope: Scope,
    greedy: bool,
    commands: Commands,
)
    requires
        s.len() > 0,
    ensures
        item_read(s, acc, scope, greedy, commands).rest.len() < s.len(),
    decreases s.len(), 9nat, 1nat,
{
    match s[0].0 {
        Token::Word => {
            law_text_tail_shrinks(s.drop_first(), seq![token_leaf(s[0])]);
        },
        Token::Left(k) => {
            law_group_shrinks(s, k, scope, commands);
        },
        Token::Underscore | Token::Caret | Token::Apostrophe => {
            law_attach_shrinks(s, acc.skip(kept_len(acc)), scope, commands);
        },
        Token::CommandName(CommandName::Generic)
        | Token::CommandName(CommandName::Left)
        | Token::CommandName(CommandName::Right) => {
            law_command_item_shrinks(s, acc, scope, greedy, commands);
        },
        Token::CommandName(CommandName::BeginEnvironment) => {
            law_environment_shrinks(s, scope, commands);
        },
        Token::CommandName(CommandName::BeginBlockComment) => {
            law_comment_tail_shrinks(s.drop_first(), seq![name_leaf(s[0])]);
        },
        _ => {},
    }
}

/// Reading the items of a scope makes the stream no longer, and it ends at
/// the end of the stream or before the token that ends the scope.
pub proof fn law_items_shrink(
    s: Stream,
    acc: Seq<ElemView>,
    scope: Scope,
    greedy: bool,
    commands: Commands,
)
    ensures
        items_read(s, acc, scope, greedy, commands).rest.len() <= s.len(),
        ({
            let rest = items_read(s, acc, scope, greedy, commands).rest;
            rest.len() == 0 || scope.spec_stops(rest[0].0)
        }),
    decreases s.len(), 10nat, 0nat,
{
    if !(s.len() == 0 || scope.spec_stops(s[0].0)) {
        law_item_shrinks(s, acc, scope, greedy, commands);
        let step = item_read(s, acc, scope, greedy, commands);
        law_items_shrink(step.rest, step.items, scope, greedy, commands);
    }
}

/// Whether `e` is the wrapper of an argument.
pub open spec fn is_wrapper(e: ElemView) -> bool {
    e matches ElemView::Node { kind, .. } && kind == SyntaxKind::ClauseArgument
}

/// The number of argument wrappers among `s`.
pub open spec fn wrappers_among(s: Seq<ElemView>) -> nat
    decreases s.len(),
{
    if s.len() == 0 {
        0
    } else if is_wrapper(s.last()) {
        wrappers_among(s.drop_last()) + 1
    } else {
        wrappers_among(s.drop_last())
    }
}

/// Adding an element adds a wrapper exactly if it is one.
pub proof fn lemma_wrappers_push(s: Seq<ElemView>, e: ElemView)
    ensures
        wrappers_among(s.push(e)) == wrappers_among(s) + if is_wrapper(e) {
            1nat
        } else {
            0nat
        },
{
    assert(s.push(e).drop_last() =~= s);
}

/// Trivia add no wrappers, and keep what stands first.
pub proof fn law_trivia_adds_none(s: Stream, items: Seq<ElemView>)
    ensures
        wrappers_among(trivia_read(s, items).items) == wrappers_among(items),
        items.len() > 0 ==> trivia_read(s, items).items.len() > 0 && trivia_read(s, items).items[0]
            == items[0],
    decreases s.len(),
{
    if s.len() > 0 && s[0].0.spec_is_trivia() {
        lemma_wrappers_push(items, token_leaf(s[0]));
        law_trivia_adds_none(s.drop_first(), items.push(token_leaf(s[0])));
    }
}

/// An argument adds exactly one wrapper, and keeps what stands first.
pub proof fn law_argument_adds_one(
    s: Stream,
    slot: ArgSlot,
    scope: Scope,
    commands: Commands,
    items: Seq<ElemView>,
)
    ensures
        wrappers_among(argument_read(s, slot, scope, commands, items).items) == wrappers_among(
            items,
        ) + 1,
        items.len() > 0 ==> argument_read(s, slot, scope, commands, items).items[0] == items[0],
{
    law_trivia_adds_none(s, items);
    law_trivia_shrinks(s, items);
    let t = trivia_read(s, items);
    let (inner, found) = slot_read(t.rest, slot, scope, commands);
    let wrapper = node(SyntaxKind::ClauseArgument, inner.items);
    lemma_wrappers_push(t.items, wrapper);
    lemma_wrappers_push(t.items.push(wrapper), missing_mark());
}

/// The arguments for the slots from the `i`-th on add one wrapper each, and
/// keep what stands first.
pub proof fn law_arguments_add(
    s: Stream,
    slots: Seq<ArgSlot>,
    i: int,
    scope: Scope,
    commands: Commands,
    items: Seq<ElemView>,
)
    requires
        0 <= i <= slots.len(),
    ensures
        wrappers_among(arguments_read(s, slots, i, scope, commands, items).items)
            == wrappers_among(items) + slots.len() - i,
        items.len() > 0 ==> arguments_read(s, slots, i, scope, commands, items).items.len() > 0
            && arguments_read(s, slots, i, scope, commands, items).items[0] == items[0],
    decreases slots.len() - i,
{
    if i < slots.len() {
        law_argument_adds_one(s, slots[i], scope, commands, items);
        law_argument_shrinks(s, slots[i], scope, commands, items);
        let o = argument_read(s, slots[i], scope, commands, items);
        assert(o.items.len() > 0) by {
            lemma_wrappers_nonempty(o.items);
        }
        law_arguments_add(o.rest, slots, i + 1, scope, commands, o.items);
    }
}

/// A sequence with a wrapper among it is not empty.
pub proof fn lemma_wrappers_nonempty(s: Seq<ElemView>)
    requires
        wrappers_among(s) > 0,
    ensures
        s.len() > 0,
{
}

/// A command that is declared prefix or matrix is read as a command node
/// that starts with the name and holds exactly one argument wrapper for
/// each of its slots, whatever follows the command.
pub proof fn law_prefix_arity_read(s: Stream, scope: Scope, commands: Commands)
    requires
        s.len() > 0,
        takes_slots(commands, name_of(s[0].1)),
    ensures
        command_read(s, scope, commands).elem matches ElemView::Node { kind, children } && {
            &&& kind == SyntaxKind::ItemCmd
            &&& children.len() > 0
            &&& children[0] == name_leaf(s[0])
            &&& wrappers_among(children) == commands[name_of(s[0].1)].slots@.len()
        },
{
    let name = name_of(s[0].1);
    let named = seq![name_leaf(s[0])];
    lemma_wrappers_push(Seq::empty(), name_leaf(s[0]));
    assert(Seq::<ElemView>::empty().push(name_leaf(s[0])) =~= named);
    law_arguments_add(s.drop_first(), commands[name].slots@, 0, scope, commands, named);
}

/// A list that meets a command which is declared prefix or matrix, or not
/// declared at all, adds the command as it is read to its items.
pub proof fn law_command_joins_list(
    s: Stream,
    acc: Seq<ElemView>,
    scope: Scope,
    greedy: bool,
    commands: Commands,
)
    requires
        s.len() > 0,
        s[0].0 == Token::CommandName(CommandName::Generic),
        !reshapes(commands, name_of(s[0].1)),
    ensures
        item_read(s, acc, scope, greedy, commands) == (Out {
            items: acc.push(command_read(s, scope, commands).elem),
            rest: command_read(s, scope, commands).rest,
        }),
{
}

/// The tree of a stream reads the whole stream: at the root nothing ends the
/// list but the end of the stream.
pub proof fn law_root_reads_all(s: Stream, commands: Commands)
    ensures
        items_read(s, Seq::empty(), Scope::spec_root(), false, commands).rest.len() == 0,
{
    law_items_shrink(s, Seq::empty(), Scope::spec_root(), false, commands);
}

} // verus!
