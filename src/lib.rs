//! A small logic-programming engine: terms, unification, a clause
//! database and depth-first SLD resolution, with a tokenizer and a parser
//! for Prolog-like source text.
//!
//! The search is plain SLD resolution without cut or negation, so a query
//! over a program whose search space is infinite (a left-recursive rule, an
//! infinite enumeration) has no end: `engine::Runner::run` takes a step bound
//! and can be called again to resume where it stopped.
//!
//! Unification has no occurs check: a variable may be bound to a term that
//! contains it, which makes the substitution cyclic (a rational term). A
//! unification that runs through cyclic bindings without end stops at a
//! depth bound and the search reports it (`engine::Step::TooDeep`). Answers
//! expand each variable through its bindings as many levels deep as there
//! are bindings, so a cyclic value is shown unfolded that far.
//!
//! A substitution keeps its bindings in the order they were made, each as it
//! was made, and never edits or removes one.

pub mod term;
pub mod unify;
pub mod engine;
pub mod tokenizer;
pub mod parser;
