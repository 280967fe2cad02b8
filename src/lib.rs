//! Stack graphs: a per-file graph of definitions, references and scopes,
//! built by running ordered rules over a syntax tree, and a name-resolution
//! search over it guided by a symbol stack and edge precedence.

pub mod command;
pub mod construction;
pub mod graph;
pub mod resolution;
pub mod text;
