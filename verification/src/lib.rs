//! Incremental maintenance of materialized views.

pub mod aggregate;
pub mod answers;
pub mod antijoin;
pub mod ast;
pub mod builder;
pub mod circuit;
pub mod commit;
pub mod compiler;
pub mod cte;
pub mod cursor;
pub mod decorrelate;
pub mod deltas;
pub mod display;
pub mod error;
pub mod execute;
pub mod expr;
pub mod filter;
pub mod flow;
pub mod hash;
pub mod index_cursor;
pub mod index_walk;
pub mod join;
pub mod layout;
pub mod logical;
pub mod mirror;
pub mod names;
pub mod numbers;
pub mod order;
pub mod overlay;
pub mod plan;
pub mod probe;
pub mod rewrite;
pub mod row_index;
pub mod scope;
pub mod sense;
pub mod seqs;
pub mod show;
pub mod snapshot;
pub mod state;
pub mod text;
pub mod upstream;
pub mod value;
pub mod view_walk;
pub mod write_row;
pub mod zset;
