//! A tagged key/value cache with expiry, modelled as the two relations
//! `cache_entries` and `cache_tags`, with every operation proved against a
//! mathematical description of the store.

pub mod models;
pub mod json;
pub mod cache;
pub mod utils;
pub mod plan;
