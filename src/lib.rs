//! A small table storage and query engine: typed values, tables with exact
//! secondary indexes, equi-joins, a fixed-size page store for one byte blob
//! per database, a commit log, and a command executor over named databases.
//! Every function states its behaviour as a contract over a mathematical
//! model, and the general properties of the engine are proved in `laws`.

use vstd::prelude::*;

pub mod commit_log;
pub mod executor;
pub mod laws;
pub mod pager;
pub mod storage;
pub mod table;
pub mod value;
pub mod web;

verus! {

} // verus!
