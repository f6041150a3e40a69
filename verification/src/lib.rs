//! A small directed-graph engine: it parses a bracketed arc notation into a
//! graph, builds a node table with explicit child and parent lists, checks
//! that the graph is a single-rooted DAG, and then either renders it as a
//! nested call expression or folds it into an arithmetic expression under a
//! per-vertex operation table.

use vstd::prelude::*;

pub mod eval;
pub mod graph;
pub mod parser;
pub mod render;
pub mod strutil;
pub mod table;
pub mod validate;
pub mod xml_codec;
