//! The analysis-and-execution core of a tree-walking interpreter for a small
//! dynamically-typed scripting language: a static pass that gives every
//! variable reference an address, and a machine that runs the result.
//!
//! A session keeps one [`resolver::Resolver`] and one
//! [`interpreter::Interpreter`]. Each program goes from the parser to
//! [`resolver::Resolver::run`], and what that returns to
//! [`interpreter::Interpreter::run`] and, step by step, through
//! [`interpreter::Interpreter::step`]. The library does no output and no
//! arithmetic on numbers: a step says what it needs, and the driver of the
//! session does it.
//!
//! - [`ast`]: the syntax model.
//! - [`scoping`]: the rules of resolution, and their laws.
//! - [`resolver`]: the resolver.
//! - [`object`]: runtime values.
//! - [`machine`]: the rules of execution.
//! - [`interpreter`]: the machine in executable form.
//! - [`laws`]: how variables, cells and calls behave.
//! - [`nesting`], [`capturing`]: resolution mirrors the nesting of blocks and
//!   functions.
//! - [`soundness`], [`order`], [`levels`], [`closures`]: what a step keeps.
//! - [`runnable`]: from the parser to the machine.

pub mod ast;
pub mod scoping;
pub mod resolver;
pub mod object;
pub mod machine;
pub mod interpreter;
pub mod nesting;
pub mod capturing;
pub mod soundness;
pub mod order;
pub mod levels;
pub mod closures;
pub mod runnable;
pub mod laws;
