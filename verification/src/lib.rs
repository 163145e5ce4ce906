//! Whole-program reachability analysis over a call graph: which functions of
//! a compilation unit can reach a failure sink, and through which call sites.
//!
//! A pass has four steps, each a module of its own:
//!
//! - [`fn_item`] holds the unit: every function definition with its name,
//!   the span of its declaration and, where it is resident, its body as a
//!   list of operations.
//! - [`call_graph`] builds the graph of direct calls, forwards and
//!   backwards, by expanding functions depth first, and brings it into a
//!   canonical order ([`canonical`]).
//! - [`paths`] answers the queries on the graph: reachability, and the
//!   enumeration of call paths between two functions and back from a
//!   function to the roots.
//! - [`localize`] finds, for each entry function and each sink
//!   ([`detect`]), the operations in the entry's body from which the sink
//!   can be reached, and collects them as diagnostic records
//!   ([`diagnostics`]), which [`render`] lays out and renders.
//!
//! [`analysis`] runs the steps in order. [`laws`] states what holds of every
//! graph and report.
//!
//! The contracts speak of the graph as of two sequences of rows
//! ([`adjacency`]). The maps and sets themselves are those of the
//! `indexmap` crate; [`indexed`] states what is taken on trust of them.
//! Taken on trust as well are three string functions of the standard
//! library ([`names`]) and the renderer of `annotate_snippets`
//! ([`render`]), of whose text nothing is claimed.

pub mod adjacency;
pub mod analysis;
pub mod call_graph;
pub mod canonical;
pub mod detect;
pub mod diagnostics;
pub mod fn_item;
pub mod growth;
pub mod indexed;
pub mod laws;
pub mod localize;
pub mod names;
pub mod paths;
pub mod render;
pub mod search;
pub mod seqs;
pub mod span;
