//! A JSON fetcher that retries with linear backoff, and a store of JSON records kept
//! one file per key, with their contracts proved by Verus.
pub mod cli;
pub mod config;
pub mod error;
pub mod http;
pub mod json;
pub mod keys;
pub mod output;
pub mod storage;
