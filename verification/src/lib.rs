//! A graph database in memory that is queried in Cypher.
//!
//! A query goes from text to tokens (`lexer`), to a statement (`grammar`,
//! `parsing`, `parser`), to a plan (`planner`) and to rows (`executor`). The
//! contract of `graph::Graph::execute` says what a query gives and what it
//! leaves of the graph, as a function of its text and the graph before it.
pub mod aggregate;
pub mod arrange;
pub mod assoc;
pub mod ast;
pub mod backend;
pub mod calls;
pub mod changes;
pub mod clauses;
pub mod combining;
pub mod constraints;
pub mod creations;
pub mod deletes;
pub mod display;
pub mod enforced;
pub mod equality;
pub mod error;
pub mod eval;
pub mod executor;
pub mod exported;
pub mod forms;
pub mod functions;
pub mod gathering;
pub mod grammar;
pub mod graph;
pub mod grouping;
pub mod hops;
pub mod identity;
pub mod index;
pub mod joins;
pub mod json;
pub mod keying;
pub mod keys;
pub mod laws;
pub mod lexer;
pub mod literals;
pub mod load;
pub mod matching;
pub mod memory;
pub mod merges;
pub mod merging;
pub mod number;
pub mod operators;
pub mod ops;
pub mod outside;
pub mod parser;
pub mod parsing;
pub mod paths;
pub mod plan;
pub mod planner;
pub mod precedence;
pub mod recreate;
pub mod refusal;
pub mod relex;
pub mod reparse;
pub mod repeatable;
pub mod rows;
pub mod semantics;
pub mod shell;
pub mod shortest;
pub mod snapshot;
pub mod sorting;
pub mod steady;
pub mod store;
pub mod stored;
pub mod tables;
pub mod text;
pub mod totals;
pub mod value;
pub mod writes;

pub use crate::backend::StorageBackend;
pub use crate::error::CypherError;
pub use crate::executor::QueryResult;
pub use crate::graph::{Graph, InMemoryGraph};
pub use crate::memory::MemoryStorage;
pub use crate::value::{CypherValue, Edge, EdgeId, Node, NodeId, Path, PropertyValue};
