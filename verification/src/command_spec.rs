//! The command specification: what the lexer and the parser know of each command.

use vstd::hash_map::StringHashMap;
use vstd::prelude::*;

verus! {

/// What may fill an argument slot of a command.
#[derive(Debug, PartialEq, Eq, Clone, Copy, Structural)]
pub enum ArgKind {
    /// A group in curly braces
    Curly,
    /// A group in brackets
    Bracket,
    /// A single word character, a command or a curly group
    Term,
    /// The name of a command
    CommandName,
    /// A small integer literal
    SmallInt,
}

/// One argument slot of a command.
#[derive(Debug, PartialEq, Eq, Clone, Copy, Structural)]
pub struct ArgSlot {
    /// Whether leaving the slot empty is an error
    pub required: bool,
    /// What may fill the slot
    pub kind: ArgKind,
}

/// The way in which a command finds its arguments.
#[derive(Debug, PartialEq, Eq, Clone, Copy, Structural)]
pub enum Associativity {
    /// The arguments follow the command, slot by slot
    Prefix,
    /// The one argument is the item before the command
    Left1,
    /// The one argument is everything up to the end of the scope
    RightGreedy,
    /// The scope is split at the command into a left and a right argument
    Infix,
    /// As `Prefix`, for commands whose argument is the body of a matrix
    Matrix,
}

/// The descriptor of one command.
#[derive(Debug)]
pub struct CommandDescriptor {
    /// The argument slots, in the order in which they are filled
    pub slots: Vec<ArgSlot>,
    /// How the command finds its arguments
    pub role: Associativity,
}

impl CommandDescriptor {
    /// A command that takes the given slots after its name.
    pub fn prefix(slots: Vec<ArgSlot>) -> (r: Self)
        ensures
            r.slots == slots,
            r.role == Associativity::Prefix,
    {
        CommandDescriptor { slots, role: Associativity::Prefix }
    }

    /// A command without arguments.
    pub fn symbol() -> (r: Self)
        ensures
            r.slots@.len() == 0,
            r.role == Associativity::Prefix,
    {
        CommandDescriptor { slots: Vec::new(), role: Associativity::Prefix }
    }

    /// A command that takes `n` required terms after its name.
    pub fn terms(n: u8) -> (r: Self)
        ensures
            r.slots@.len() == n,
            forall|i: int|
                0 <= i < n ==> r.slots@[i] == (ArgSlot { required: true, kind: ArgKind::Term }),
            r.role == Associativity::Prefix,
    {
        let mut slots: Vec<ArgSlot> = Vec::new();
        let mut i: u8 = 0;
        while i < n
            invariant
                i <= n,
                slots@.len() == i,
                forall|j: int|
                    0 <= j < i ==> slots@[j] == (ArgSlot { required: true, kind: ArgKind::Term }),
            decreases n - i,
        {
            slots.push(ArgSlot { required: true, kind: ArgKind::Term });
            i += 1;
        }
        CommandDescriptor { slots, role: Associativity::Prefix }
    }

    /// A command that takes the item before it as its argument.
    pub fn left1() -> (r: Self)
        ensures
            r.slots@.len() == 0,
            r.role == Associativity::Left1,
    {
        CommandDescriptor { slots: Vec::new(), role: Associativity::Left1 }
    }

    /// A command that takes the rest of its scope as its argument.
    pub fn right_greedy() -> (r: Self)
        ensures
            r.slots@.len() == 0,
            r.role == Associativity::RightGreedy,
    {
        CommandDescriptor { slots: Vec::new(), role: Associativity::RightGreedy }
    }

    /// A command that splits its scope into a left and a right argument.
    pub fn infix() -> (r: Self)
        ensures
            r.slots@.len() == 0,
            r.role == Associativity::Infix,
    {
        CommandDescriptor { slots: Vec::new(), role: Associativity::Infix }
    }

    /// A matrix command with the given slots.
    pub fn matrix(slots: Vec<ArgSlot>) -> (r: Self)
        ensures
            r.slots == slots,
            r.role == Associativity::Matrix,
    {
        CommandDescriptor { slots, role: Associativity::Matrix }
    }

    /// The number of argument slots.
    pub fn arity(&self) -> (n: usize)
        ensures
            n == self.slots@.len(),
    {
        self.slots.len()
    }
}

/// A set of commands, each name with exactly one descriptor.
///
/// The star form of a command is an entry of its own, under the name followed
/// by `*`.
pub struct CommandSpec {
    commands: StringHashMap<CommandDescriptor>,
}

impl View for CommandSpec {
    type V = Map<Seq<char>, CommandDescriptor>;

    closed spec fn view(&self) -> Self::V {
        self.commands@
    }
}

impl CommandSpec {
    /// The names that the specification declares.
    pub open spec fn names(&self) -> Set<Seq<char>> {
        self@.dom()
    }

    /// A specification without commands.
    pub fn new() -> (r: Self)
        ensures
            r@ == Map::<Seq<char>, CommandDescriptor>::empty(),
    {
        CommandSpec { commands: StringHashMap::new() }
    }

    /// Declares `name`, replacing what was declared under that name before.
    pub fn insert(&mut self, name: &str, descriptor: CommandDescriptor)
        ensures
            final(self)@ == old(self)@.insert(name@, descriptor),
    {
        self.commands.insert(name.to_owned(), descriptor);
    }

    /// The descriptor of `name`, if it is declared.
    pub fn get(&self, name: &str) -> (r: Option<&CommandDescriptor>)
        ensures
            r is Some <==> self@.contains_key(name@),
            r matches Some(d) ==> *d == self@[name@],
    {
        self.commands.get(name)
    }

    /// Whether `name` is declared.
    pub fn contains(&self, name: &str) -> (r: bool)
        ensures
            r == self.names().contains(name@),
    {
        self.commands.contains_key(name)
    }

    /// The number of commands declared.
    pub fn len(&self) -> (n: usize)
        ensures
            n == self@.len(),
    {
        self.commands.len()
    }

    /// The role of `name`, if it is declared.
    pub fn role(&self, name: &str) -> (r: Option<Associativity>)
        ensures
            r is Some <==> self@.contains_key(name@),
            r matches Some(a) ==> a == self@[name@].role,
    {
        match self.commands.get(name) {
            Some(d) => Some(d.role),
            None => None,
        }
    }
}

} // verus!
