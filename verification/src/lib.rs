//! A paged B+Tree storage engine: a fixed-size-page binary encoding for tree
//! nodes, and the tree algorithms (search, insert with split, delete with
//! merge) that operate over pages held in an in-memory page store.

pub mod btree;
pub mod codec;
pub mod error;
pub mod mem_table;
pub mod node;
pub mod page;
pub mod queue;
pub mod stack;
