//! A typed key-value store: encoded values kept under orderable byte
//! keys, with a map-like entry API, point lookups that propagate codec
//! failures, and full scans that skip records whose values do not decode.

pub mod byte_map;
pub mod codec;
pub mod entry;
pub mod error;
pub mod key_impl;
pub mod store;

pub use crate::error::StoreError;
pub use crate::store::Store;
