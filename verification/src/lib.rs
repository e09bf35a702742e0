//! Partial paths of a stack graph: path fragments with symbolic preconditions
//! and postconditions on a symbol stack and a scope stack, computed per file.
//!
//! - [`graph`] holds the stack graph that the paths run through.
//! - [`arena`] stores the stacks: deques that share their cells.
//! - [`model`] says what a path is as a plain value, and states the rules
//!   of extending one.
//! - [`partial`] has the stacks and the paths themselves, [`display`] shows
//!   them as text, and [`search`] finds all paths of a file, with the help
//!   of [`cycles`].
//! - [`laws`] proves what holds of every path.
//!
//! Every function of this crate carries a contract that Verus proves.

pub mod arena;
pub mod cycles;
pub mod display;
pub mod graph;
pub mod laws;
pub mod model;
pub mod partial;
pub mod paths;
pub mod search;
