//! The exchange's state: balances, order books, order records and fills.
pub mod balances;
pub mod book;
pub mod records;
pub mod store;
