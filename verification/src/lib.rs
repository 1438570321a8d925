//! A parser for nginx-style configuration files: directives made of a name,
//! arguments and either a `;` or a `{ ... }` block of nested directives.
//! Parsing yields an arena of directives linked to their parents, or a
//! syntax error that can be turned into a diagnostic.

pub mod arena;
pub mod ast;
pub mod error;
pub mod text;
pub mod parser;
