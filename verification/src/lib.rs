//! A spot-market exchange engine: balances, order books, price-time
//! priority matching and the request logic around them.
pub mod config;
pub mod models;
pub mod requests;
pub mod services;
pub mod stamps;
pub mod table;
