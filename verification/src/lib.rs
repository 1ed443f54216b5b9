//! A lexer, a macro engine and a parser for TeX math.
//!
//! The pipeline runs from a source text to a concrete syntax tree:
//!
//! - [`scan`] states the token grammar over characters and cuts a text into
//!   tokens; [`scan_laws`] holds what follows for every source text.
//! - [`cache`] and [`stream`] hold the two peek caches around the scanner.
//! - [`lexer`] is what the parser reads: a stream context with a bumper that
//!   refills its outer cache. The default bumper hands the tokens on as they
//!   are; [`macro_engine`] expands the macros that the source defines.
//! - [`grammar`] states which tree a sequence of tokens stands for, and
//!   [`parser`] builds exactly that tree; [`shape`] and [`grammar_laws`] hold
//!   what follows for every tree.
//! - [`command_spec`] describes the commands that direct lexer and parser.
//!
//! Every function carries its contract, and the verifier has proved each of
//! them: that the tokens spell the source, that the tree is the one the grammar
//! gives, that its leaves spell the tokens, and that no call panics.

pub mod cache;
pub mod chars;
pub mod command_spec;
pub mod grammar;
pub mod grammar_laws;
pub mod lexer;
pub mod macro_engine;
pub mod parser;
pub mod scan;
pub mod scan_laws;
pub mod shape;
pub mod stream;
pub mod syntax;
pub mod text;
pub mod token;

pub use cache::LexCache;
pub use command_spec::{CommandDescriptor, CommandSpec};
pub use lexer::{BumpTokenStream, Lexer, MacroifyStream};
pub use macro_engine::MacroEngine;
pub use parser::{parse, parse_expanded};
pub use stream::StreamContext;
pub use syntax::{SyntaxElement, SyntaxKind, SyntaxNode, SyntaxToken};
pub use token::{BraceKind, CommandName, Token};
