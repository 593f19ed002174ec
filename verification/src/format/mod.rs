//! The on-disk formats: the e2store container and what ERA and ERA1 put in it.

pub mod e2store;
pub mod era;
pub mod era1;
pub mod laws;
pub mod types;

pub use e2store::{E2StoreReader, Entry, Header};
