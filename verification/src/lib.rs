//! A template compiler core: parses an HTML-like component template into a
//! node tree, normalizes the tree (whitespace pruning, slot reordering), and
//! emits runtime-helper call text for directives and builtin components.

pub mod ast;
pub mod builtins;
pub mod context;
pub mod directives;
pub mod html;
pub mod optimizer;
pub mod parser;
pub mod strutil;
