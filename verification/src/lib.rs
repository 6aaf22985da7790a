//! An embeddable ordered key-value store: an in-memory sorted table kept in
//! step with an append-only log of encoded records, with the rules by which a
//! table is rebuilt from the log segments found at startup.

pub mod database;
pub mod key_order;
pub mod mem_table;
pub mod record;
pub mod segment_name;
pub mod table_model;
pub mod utils;
pub mod wal;
pub mod wal_iterator;
