//! Aggregation of temperature measurements: lines `station;value` are read
//! into a fixed table of per-station statistics (minimum, maximum, sum,
//! count), searched by open addressing from the FNV-1a hash of the name;
//! tables of separate chunks are merged and written out sorted by name.

pub mod record;
pub mod measurements;
pub mod table_model;
pub mod parse;
pub mod output;
pub mod generate;
pub mod stackvec;
pub mod laws;
pub mod laws_audit;
