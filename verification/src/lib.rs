//! Renders source text as an HTML table with one row per line, where every
//! token is wrapped in `<span>` elements whose CSS classes name the lexical
//! scopes the token belongs to.
//!
//! The tokenizer of `syntect` says where scopes begin and end. The crate
//! turns that stream of pushes and pops, which runs on over the ends of
//! lines, into markup in which every row is a fragment of its own.

pub mod elision;
pub mod escape;
pub mod lines;
pub mod markup;
pub mod nesting;
pub mod scope;
pub mod spans;
pub mod std_specs;
pub mod syntax;
pub mod table;
pub mod text;

pub use escape::Escape;
pub use markup::{close_row, close_table, open_row, open_table};
pub use scope::{ClassStyle, ScopeOp, ScopePath};
pub use spans::SpanWriter;
pub use table::{highlight, ClassedTableGenerator, HighlightError};
