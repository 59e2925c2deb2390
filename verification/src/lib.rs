//! A versioned key-value storage abstraction for a ledger, with an
//! in-memory backend.

pub mod codec;
pub mod key;
pub mod laws;
pub mod layout;
pub mod mockdb;
pub mod record;
pub mod table;
pub mod text;
pub mod types;
