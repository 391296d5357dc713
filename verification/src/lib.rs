//! The core of a borrow checker in the style of Polonius, verified with Verus.
//!
//! - [`lexer`], [`parser`], [`ir`]: the syntax of fact programs, which describe a control-flow
//!   graph and the facts at its points;
//! - [`program`], [`intern`]: the facts of a fact program, over interned names;
//! - [`tab_delim`]: facts read from tab-delimited files;
//! - [`compute`], [`naive`]: the computations of the borrow analysis, each the least relation
//!   closed under its rules;
//! - [`pipeline`]: the units of computation run in order over a database of relations, and the
//!   errors of each algorithm;
//! - [`relation`]: sorted relations and the operations of `datafrog` on them;
//! - [`datalog`], [`docgen`], [`skeleton`]: datalog rules as text, markdown documentation of
//!   datalog files, and skeleton datafrog computations generated from datalog rules;
//! - [`dump`]: the text in which the relations of an output are dumped;
//! - [`timely_util`]: the command-line arguments of differential dataflow.

pub mod token;
pub mod lexer;
pub mod ir;
pub mod text;
pub mod error;
pub mod parser;
pub mod datalog;
pub mod facts;
pub mod intern;
pub mod program;
pub mod algorithm;
pub mod relation;
pub mod compute;
pub mod naive;
pub mod pipeline;
pub mod tab_delim;
pub mod docgen;
pub mod timely_util;
pub mod skeleton;
pub mod dump;
pub mod dumped_rows;
pub mod graphviz;
pub mod rules_text;
