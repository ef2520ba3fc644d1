//! Compiler core for a graph-rewriting runtime: a parser-combinator kit,
//! the lowering of rewrite rules into condition vectors and indexed
//! right-hand sides, the emission of the C code that matches and rewrites
//! them, and the splicing of that code into the runtime's template.
pub mod builder;
pub mod compiler;
pub mod parser;
pub mod rulebook;
pub mod strings;
pub mod template;
