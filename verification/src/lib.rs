//! A parsing-expression-grammar toolkit: a grammar is read from a flat token
//! sequence, analysed, lowered to matching routines and run against any input
//! that offers the capabilities the grammar needs.  Every stage carries a
//! machine-checked contract.

pub mod analysis;
pub mod ast;
pub mod compile;
pub mod entry;
pub mod error;
pub mod frontend;
pub mod grammar;
pub mod input;
pub mod laws;
pub mod matcher;
pub mod memo;
pub mod model;
pub mod order;
pub mod program;
pub mod result;
pub mod semantics;
pub mod static_laws;
pub mod syntax;
pub mod tokens;
pub mod translate;
pub mod value;

pub use frontend::parser;
pub use input::{Parse, ParseElem, ParseLiteral, ParseSlice, Symbol};
pub use result::{call_custom_closure, RuleResult};
