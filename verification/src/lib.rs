//! Chunked hash tables for hash aggregation, with the row storage, hashing,
//! partitioning and parquet read decisions that go with them.
//!
//! - `bitmask`, `slot_value`, `chunk`: eight slots and how they are compared.
//! - `probe`, `buckets`, `layout`, `table`: probe sequences, the mathematical
//!   model of a table, where its entries lie, and the table itself.
//! - `linear_map`, `triangular_map`: the two hash maps; `batch`: which rows of a
//!   batch meet their hash again; `callback`: how rows are handed to a caller.
//! - `row_container`, `hash`: where group keys are kept and how they are hashed.
//! - `record_batch`, `partition`: batches of rows and how they are split.
//! - `row_selection`, `read`: which rows and files a parquet reader is asked for.
//! - `random`, `text`, `error`: random draws, numbers in messages, errors.

pub mod batch;
pub mod bitmask;
pub mod buckets;
pub mod callback;
pub mod chunk;
pub mod error;
pub mod hash;
pub mod layout;
pub mod linear_map;
pub mod partition;
pub mod probe;
pub mod random;
pub mod read;
pub mod record_batch;
pub mod row_container;
pub mod row_selection;
pub mod slot_value;
pub mod table;
pub mod text;
pub mod triangular_map;
