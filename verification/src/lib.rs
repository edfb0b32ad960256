//! A parser for the block files that Bitcoin Core writes (`blk*.dat`):
//! blocks, transactions and their scripts, read from bytes in memory,
//! with each function's behaviour stated as a contract over the bytes.

pub mod basic_reading;
pub mod block;
pub mod errors;
pub mod hashing;
pub mod list;
pub mod script;
pub mod transaction;
pub mod transaction_laws;
