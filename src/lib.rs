//! A time-to-live key/value cache: a store whose entries expire, a text
//! codec for binary payloads, and compressed payloads carried as text.
pub mod codec;
pub mod compression;
pub mod entry;
pub mod laws;
pub mod store;
