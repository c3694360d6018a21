//! A CSS-superset stylesheet parser.
//!
//! Source text in a CSS-like grammar (qualified blocks, dangling property
//! declarations, `@media`/`@supports` at-rules with recursive bodies, opaque
//! at-rules with brace-balanced raw bodies, and `${name}` interpolation
//! placeholders) is parsed into an immutable abstract syntax tree.
//!
//! The grammar itself is written down as specification functions over
//! sequences of characters ([`grammar`]); the executable parser ([`parser`])
//! is proved to return exactly the sheet that the grammar assigns to its
//! input.  A memoizing [`cache`] wraps the parser so that byte-identical
//! source text is parsed once, and a [`registry`] keeps track of registered
//! styles.

pub mod ast;
pub mod cache;
pub mod context;
pub mod grammar;
pub mod parser;
pub mod registry;
