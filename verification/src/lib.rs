//! Grammar-independent Markdown processing core: source views with byte
//! offset mapping, typed syntax trees, shared plugin declarations and the
//! checks that guard their composition.
use vstd::prelude::*;

pub mod ast;
pub mod bindings;
pub mod block;
pub mod budget;
pub mod builder;
pub mod definitions;
pub mod encoding;
pub mod engine;
pub mod grammar;
pub mod inline;
pub mod parser;
pub mod error;
pub mod render;
pub mod scan;
pub mod schemas;
pub mod shared;
pub mod scopes;
pub mod source;
pub mod text;
pub mod tokens;
pub mod tree;
pub mod validation;

pub use ast::Span;
pub use error::ParseError;
pub use source::SourceView;

verus! {

} // verus!
