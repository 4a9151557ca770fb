//! A parser for one line of integer arithmetic: text in, syntax tree out.
//!
//! A line holds numbers, unary `-`, the operators `+ - * /` and parentheses,
//! with blanks wherever one likes but inside a number. `*` and `/` bind
//! tighter than `+` and `-`, unary `-` binds tighter than both, and operators
//! of one kind group from the left. Nothing is computed: `1/0` is a tree
//! like any other.
//!
//! - [`ast`]: the tree.
//! - [`text`]: blanks, digits, and the number that digits write.
//! - [`grammar`]: which tree a line writes, as a relation.
//! - [`reading`]: what a reading from left to right yields, the first flaw
//!   included.
//! - [`parser`]: the parser, which does that reading.
//! - [`error`]: syntax errors and their messages.
//! - [`source`]: from a tree back to a line.
//! - [`agreement`], [`moving`], [`laws`], [`spacing`], [`flaws`], [`reach`]:
//!   what is proved of all lines.
pub mod agreement;
pub mod ast;
pub mod error;
pub mod flaws;
pub mod grammar;
pub mod laws;
pub mod moving;
pub mod parser;
pub mod reach;
pub mod reading;
pub mod source;
pub mod spacing;
pub mod text;
