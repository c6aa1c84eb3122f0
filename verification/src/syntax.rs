//! Syntax: identities, source spans, the token cursor, grammars and the
//! backtracking parser kernel that runs a grammar against a cursor.

pub mod bind;
pub mod grammar;
pub mod identity;
pub mod laws;
pub mod parse;
pub mod source;
pub mod token;
pub mod tree;

pub use bind::{
    derive_syntax_tree, derive_token, derive_token_set, Attribute, Data, Declaration, Field, Fields,
    TypeExpr, Variant,
};
pub use grammar::{BindError, Grammar, Shape};
pub use identity::{
    gen_next_program_file_id, gen_next_syntax_tree_id, IdentitySource, ProgramFileId, SyntaxTreeId,
};
pub use parse::ParserResult;
pub use source::{ProgramFile, Project, Span};
pub use token::{Token, TokenSet, TokenSetMatch, Tokens};
pub use tree::{SyntaxNode, SyntaxTree};
