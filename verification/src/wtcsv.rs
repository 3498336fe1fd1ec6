//! The table format: header, record, and the table that owns both.
pub mod compatibility;
pub mod error;
pub mod export;
pub mod header;
pub mod lookup;
pub mod record;
pub mod roundtrip;
pub mod table;
pub mod values;
