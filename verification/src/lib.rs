//! Normalisation of nested dynamic slices in an SSA program, and the
//! bytecode directives that accompany it.
//!
//! A slice nested in another slice may be shorter than its siblings. Code
//! that is laid out for a circuit cannot tell at run time how long the slice
//! is that it reads from, so the pass in this crate pads every nested slice
//! with dummy elements up to the widest that may stand in its place:
//!
//! * [`tracker`] walks the instructions of a block and records for every
//!   slice the largest length it may have had, the slices directly inside
//!   it, and which value superseded which;
//! * [`resolver`] finds the latest value of a slice's lineage;
//! * [`depth`] finds the largest length recorded anywhere in a nest;
//! * [`padder`] builds the padded value;
//! * [`rewriter`] puts the instructions of a block back, with reads and
//!   writes of marked arrays made to work on padded values;
//! * [`pass`] runs all of this over the blocks of a function in reverse post
//!   order ([`post_order`]), and over the functions of a program;
//! * [`guards`] decides beforehand whether the pass can run.
//!
//! [`types`], [`value`], [`instruction`], [`dfg`] and [`inserter`] hold the
//! program that the pass works on. [`directive`] makes the short bytecode
//! programs for the register machine, and [`machine`] says what they
//! compute. [`field`], [`vector`] and [`sizes`] hold what the crate takes
//! from `acvm`, `im` and `fxhash`.

pub mod context;
pub mod depth;
pub mod dfg;
pub mod directive;
pub mod field;
pub mod guards;
pub mod inserter;
pub mod instruction;
pub mod machine;
pub mod padder;
pub mod pass;
pub mod post_order;
pub mod resolver;
pub mod rewriter;
pub mod sizes;
pub mod tracker;
pub mod types;
pub mod value;
pub mod vector;
