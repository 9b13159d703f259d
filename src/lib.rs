//! Path addressing for a hierarchical store: concrete addresses, dynamic
//! addresses with embedded lookups, their parser, and the expansion of a
//! dynamic address against the shape of a tree.
pub mod error;
pub mod text;
pub mod concrete;
pub mod address;
pub mod tree;
pub mod script;
