//! The shape of a syntax tree: what holds of every tree that the parser builds.

use vstd::prelude::*;

use crate::command_spec::{Associativity, CommandDescriptor};
use crate::syntax::{SyntaxElement, SyntaxKind, SyntaxNode};
use crate::token::name_of;

verus! {

/// The declared commands, as contracts see them.
pub type Commands = Map<Seq<char>, CommandDescriptor>;

/// Whether `e` is a leaf of the kind `k`.
pub open spec fn is_leaf_of(e: SyntaxElement, k: SyntaxKind) -> bool {
    e matches SyntaxElement::Token(t) && t.kind == k
}

/// Whether `e` is a node of the kind `k`.
pub open spec fn is_node_of(e: SyntaxElement, k: SyntaxKind) -> bool {
    e matches SyntaxElement::Node(n) && n.kind == k
}

/// Whether `e` is a leaf of white space, a line break or a comment.
pub open spec fn is_trivia_leaf(e: SyntaxElement) -> bool {
    e matches SyntaxElement::Token(t) && (t.kind == SyntaxKind::TokenWhiteSpace || t.kind
        == SyntaxKind::TokenLineBreak || t.kind == SyntaxKind::TokenComment)
}

/// Whether `e` is an empty error leaf, the mark of something missing.
pub open spec fn is_missing_mark(e: SyntaxElement) -> bool {
    e matches SyntaxElement::Token(t) && t.kind == SyntaxKind::TokenError && t.text@.len() == 0
}

/// Whether `k` is the kind of a group.
pub open spec fn is_group(k: SyntaxKind) -> bool {
    k == SyntaxKind::ItemCurly || k == SyntaxKind::ItemBracket || k == SyntaxKind::ItemParen
}

/// The kind of the leaf that opens a group of the kind `k`.
pub open spec fn opener(k: SyntaxKind) -> SyntaxKind {
    match k {
        SyntaxKind::ItemBracket => SyntaxKind::TokenLBracket,
        SyntaxKind::ItemParen => SyntaxKind::TokenLParen,
        _ => SyntaxKind::TokenLBrace,
    }
}

/// The kind of the leaf that closes a group of the kind `k`.
pub open spec fn closer(k: SyntaxKind) -> SyntaxKind {
    match k {
        SyntaxKind::ItemBracket => SyntaxKind::TokenRBracket,
        SyntaxKind::ItemParen => SyntaxKind::TokenRParen,
        _ => SyntaxKind::TokenRBrace,
    }
}

/// The children of a group of the kind `k` that has both its braces: the
/// opening brace comes first, and nothing but trivia follows the closing one.
pub open spec fn group_closed(k: SyntaxKind, s: Seq<SyntaxElement>) -> bool {
    &&& s.len() >= 2
    &&& is_leaf_of(s[0], opener(k))
    &&& exists|j: int|
        1 <= j < s.len() && is_leaf_of(#[trigger] s[j], closer(k)) && forall|m: int|
            j < m < s.len() ==> is_trivia_leaf(#[trigger] s[m])
}

/// The children of a group of the kind `k` that was cut short: the opening
/// brace comes first, and a mark stands last where the closing one is missing.
pub open spec fn group_cut(k: SyntaxKind, s: Seq<SyntaxElement>) -> bool {
    &&& s.len() >= 2
    &&& is_leaf_of(s[0], opener(k))
    &&& is_missing_mark(s.last())
}

/// The number of argument wrappers among `s`.
pub open spec fn arg_count(s: Seq<SyntaxElement>) -> nat
    decreases s.len(),
{
    if s.len() == 0 {
        0
    } else if is_node_of(s.last(), SyntaxKind::ClauseArgument) {
        arg_count(s.drop_last()) + 1
    } else {
        arg_count(s.drop_last())
    }
}

/// The index of the first command name among `s`, or -1.
pub open spec fn name_index(s: Seq<SyntaxElement>) -> int
    decreases s.len(),
{
    if s.len() == 0 {
        -1
    } else if name_index(s.drop_last()) >= 0 {
        name_index(s.drop_last())
    } else if is_leaf_of(s.last(), SyntaxKind::ClauseCommandName) {
        s.len() - 1
    } else {
        -1
    }
}

/// Whether a command called `name` may have `count` arguments: as many as it
/// has slots if it is declared prefix or matrix, one if left1 or right-greedy,
/// one or two if infix, and none if it is not declared.
pub open spec fn arity_fits(commands: Commands, name: Seq<char>, count: nat) -> bool {
    if commands.contains_key(name) {
        match commands[name].role {
            Associativity::Prefix | Associativity::Matrix => count == commands[name].slots@.len(),
            Associativity::Left1 | Associativity::RightGreedy => count == 1,
            Associativity::Infix => count == 1 || count == 2,
        }
    } else {
        count == 0
    }
}

/// The children of a command: its name is among them, with as many argument
/// wrappers as fit the command.
pub open spec fn command_shape(s: Seq<SyntaxElement>, commands: Commands) -> bool {
    let i = name_index(s);
    &&& 0 <= i < s.len()
    &&& s[i] matches SyntaxElement::Token(t) && arity_fits(
        commands,
        name_of(t.text@),
        arg_count(s),
    )
}

/// The children of an attachment: the base in a wrapper, then the operator.
pub open spec fn attach_shape(s: Seq<SyntaxElement>) -> bool {
    &&& s.len() >= 2
    &&& is_node_of(s[0], SyntaxKind::ClauseArgument)
    &&& (is_leaf_of(s[1], SyntaxKind::TokenUnderscore) || is_leaf_of(s[1], SyntaxKind::TokenCaret)
        || is_leaf_of(s[1], SyntaxKind::TokenApostrophe))
}

/// The children of a text node: a word first, then words and trivia.
pub open spec fn text_shape(s: Seq<SyntaxElement>) -> bool {
    &&& s.len() >= 1
    &&& is_leaf_of(s[0], SyntaxKind::TokenWord)
    &&& forall|i: int|
        0 <= i < s.len() ==> is_leaf_of(#[trigger] s[i], SyntaxKind::TokenWord) || is_trivia_leaf(
            s[i],
        )
}

/// The children of an environment: the begin clause first, and last the end
/// clause or the mark that it is missing.
pub open spec fn env_shape(s: Seq<SyntaxElement>) -> bool {
    &&& s.len() >= 2
    &&& is_node_of(s[0], SyntaxKind::ItemBegin)
    &&& (is_node_of(s.last(), SyntaxKind::ItemEnd) || is_missing_mark(s.last()))
}

/// What holds of the children `s` of a node of the kind `k`.
pub open spec fn node_shape(k: SyntaxKind, s: Seq<SyntaxElement>, commands: Commands) -> bool {
    &&& is_group(k) ==> group_closed(k, s) || group_cut(k, s)
    &&& k == SyntaxKind::ItemCmd ==> command_shape(s, commands)
    &&& k == SyntaxKind::ItemAttachComponent ==> attach_shape(s)
    &&& k == SyntaxKind::ItemText ==> text_shape(s)
    &&& k == SyntaxKind::ItemEnv ==> env_shape(s)
}

/// Whether every node under `e` has the shape of its kind.
pub open spec fn sound(e: SyntaxElement, commands: Commands) -> bool
    decreases e,
{
    match e {
        SyntaxElement::Token(_) => true,
        SyntaxElement::Node(n) => node_shape(n.kind, n.children@, commands) && forall|i: int|
            0 <= i < n.children@.len() ==> sound(#[trigger] n.children@[i], commands),
    }
}

/// Whether every element of `s` is sound.
pub open spec fn all_sound(s: Seq<SyntaxElement>, commands: Commands) -> bool {
    forall|i: int| 0 <= i < s.len() ==> sound(#[trigger] s[i], commands)
}

/// Whether an error leaf stands anywhere under `e`.
pub open spec fn has_error(e: SyntaxElement) -> bool
    decreases e,
{
    match e {
        SyntaxElement::Token(t) => t.kind == SyntaxKind::TokenError,
        SyntaxElement::Node(n) => exists|i: int|
            0 <= i < n.children@.len() && has_error(#[trigger] n.children@[i]),
    }
}

/// Whether every group under `e` has both its braces.
pub open spec fn groups_closed(e: SyntaxElement) -> bool
    decreases e,
{
    match e {
        SyntaxElement::Token(_) => true,
        SyntaxElement::Node(n) => (is_group(n.kind) ==> group_closed(n.kind, n.children@))
            && forall|i: int|
            0 <= i < n.children@.len() ==> groups_closed(#[trigger] n.children@[i]),
    }
}

/// `b` is `a` with more elements after it.
pub open spec fn extends(a: Seq<SyntaxElement>, b: Seq<SyntaxElement>) -> bool {
    a.len() <= b.len() && b.take(a.len() as int) == a
}

/// `b` is `a` with leaves after it.
pub open spec fn extends_by_leaves(a: Seq<SyntaxElement>, b: Seq<SyntaxElement>) -> bool {
    extends(a, b) && forall|i: int| a.len() <= i < b.len() ==> (#[trigger] b[i]) is Token
}

/// In a tree without an error leaf, every group has both its braces: each
/// opening brace of a group is matched by a closing one of the same kind, at
/// the same depth.
pub proof fn law_groups_closed(e: SyntaxElement, commands: Commands)
    requires
        sound(e, commands),
        !has_error(e),
    ensures
        groups_closed(e),
    decreases e,
{
    match e {
        SyntaxElement::Token(_) => {},
        SyntaxElement::Node(n) => {
            let s = n.children@;
            assert forall|i: int| 0 <= i < s.len() implies groups_closed(#[trigger] s[i]) by {
                assert(!has_error(s[i]));
                law_groups_closed(s[i], commands);
            }
            if is_group(n.kind) && !group_closed(n.kind, s) {
                assert(has_error(s[s.len() - 1]));
            }
        },
    }
}

/// In a sound tree, a command that is declared prefix or matrix has exactly
/// as many argument wrappers as it has slots.
pub proof fn law_prefix_arity(n: SyntaxNode, commands: Commands)
    requires
        sound(SyntaxElement::Node(n), commands),
        n.kind == SyntaxKind::ItemCmd,
    ensures
        0 <= name_index(n.children@) < n.children@.len(),
        n.children@[name_index(n.children@)] matches SyntaxElement::Token(t) && ({
            let name = name_of(t.text@);
            commands.contains_key(name) && (commands[name].role == Associativity::Prefix
                || commands[name].role == Associativity::Matrix) ==> arg_count(n.children@)
                == commands[name].slots@.len()
        }),
{
}

/// The children of a sound node are sound.
pub proof fn law_sound_children(n: SyntaxNode, commands: Commands, i: int)
    requires
        sound(SyntaxElement::Node(n), commands),
        0 <= i < n.children@.len(),
    ensures
        sound(n.children@[i], commands),
{
}

/// Adding an element keeps what is known of the elements before it.
pub proof fn lemma_push_shape(s: Seq<SyntaxElement>, e: SyntaxElement, commands: Commands)
    ensures
        all_sound(s, commands) && sound(e, commands) ==> all_sound(s.push(e), commands),
        arg_count(s.push(e)) == arg_count(s) + if is_node_of(e, SyntaxKind::ClauseArgument) {
            1nat
        } else {
            0nat
        },
        name_index(s) >= 0 ==> name_index(s.push(e)) == name_index(s),
        name_index(s) < 0 && is_leaf_of(e, SyntaxKind::ClauseCommandName) ==> name_index(s.push(e))
            == s.len(),
        name_index(s) < 0 && !is_leaf_of(e, SyntaxKind::ClauseCommandName) ==> name_index(
            s.push(e),
        ) < 0,
        extends(s, s.push(e)),
{
    assert(s.push(e).drop_last() =~= s);
    assert(s.push(e).take(s.len() as int) =~= s);
}

/// The index of the first command name is within the sequence.
pub proof fn lemma_name_index_bound(s: Seq<SyntaxElement>)
    ensures
        -1 <= name_index(s) < s.len(),
        name_index(s) >= 0 ==> is_leaf_of(s[name_index(s)], SyntaxKind::ClauseCommandName),
    decreases s.len(),
{
    if s.len() > 0 {
        lemma_name_index_bound(s.drop_last());
    }
}

/// Elements added after a sequence keep its first command name, and leaves
/// add no argument wrappers and keep soundness.
pub proof fn lemma_extends(a: Seq<SyntaxElement>, b: Seq<SyntaxElement>, commands: Commands)
    requires
        extends(a, b),
    ensures
        name_index(a) >= 0 ==> name_index(b) == name_index(a) && b[name_index(a)] == a[name_index(
            a,
        )],
        arg_count(a) <= arg_count(b),
        extends_by_leaves(a, b) ==> arg_count(b) == arg_count(a) && (all_sound(a, commands)
            ==> all_sound(b, commands)),
        forall|i: int| 0 <= i < a.len() ==> b[i] == a[i],
    decreases b.len() - a.len(),
{
    assert forall|i: int| 0 <= i < a.len() implies b[i] == a[i] by {
        assert(b.take(a.len() as int)[i] == b[i]);
    }
    lemma_name_index_bound(a);
    if a.len() < b.len() {
        let c = b.drop_last();
        assert(c.take(a.len() as int) =~= b.take(a.len() as int));
        lemma_extends(a, c, commands);
        assert(b =~= c.push(b.last()));
        lemma_push_shape(c, b.last(), commands);
        if extends_by_leaves(a, b) {
            assert(extends_by_leaves(a, c)) by {
                assert forall|i: int| a.len() <= i < c.len() implies (#[trigger] c[i]) is Token by {
                    assert(c[i] == b[i]);
                }
            }
            assert(b[b.len() - 1] is Token);
            if all_sound(a, commands) {
                assert(all_sound(b, commands));
            }
        }
    } else {
        assert(a =~= b);
    }
}

/// Extending is transitive, and so is extending by leaves.
pub proof fn lemma_extends_trans(
    a: Seq<SyntaxElement>,
    b: Seq<SyntaxElement>,
    c: Seq<SyntaxElement>,
)
    requires
        extends(a, b),
        extends(b, c),
    ensures
        extends(a, c),
        extends_by_leaves(a, b) && extends_by_leaves(b, c) ==> extends_by_leaves(a, c),
{
    assert(c.take(a.len() as int) =~= b.take(a.len() as int)) by {
        assert forall|i: int| 0 <= i < a.len() implies c[i] == b[i] by {
            assert(c.take(b.len() as int)[i] == c[i]);
        }
    }
    if extends_by_leaves(a, b) && extends_by_leaves(b, c) {
        assert forall|i: int| a.len() <= i < c.len() implies (#[trigger] c[i]) is Token by {
            if i < b.len() {
                assert(c.take(b.len() as int)[i] == c[i]);
            }
        }
    }
}

/// The parts of a sound sequence are sound.
pub proof fn lemma_all_sound_split(
    a: Seq<SyntaxElement>,
    b: Seq<SyntaxElement>,
    commands: Commands,
)
    requires
        all_sound(a + b, commands),
    ensures
        all_sound(a, commands),
        all_sound(b, commands),
{
    assert forall|i: int| 0 <= i < a.len() implies sound(#[trigger] a[i], commands) by {
        assert((a + b)[i] == a[i]);
    }
    assert forall|i: int| 0 <= i < b.len() implies sound(#[trigger] b[i], commands) by {
        assert((a + b)[a.len() + i] == b[i]);
    }
}

} // verus!
