//! An in-memory store of travellers, places and visits: string dictionaries, dense append-only
//! tables, per-traveller and per-place visit indices kept sorted by date, and the range queries
//! built on them.

pub mod dict;
pub mod index;
pub mod load;
pub mod model;
pub mod query;
pub mod select;
pub mod storage;
