//! A verified core for a small secret-message service.
//!
//! The service stores text payloads under server-generated unique
//! identifiers and serves them back over HTTP as JSON. This crate holds
//! the verified logic: the identifier format, the store of records, the
//! JSON rendering of records, and the mapping from operation outcomes to
//! HTTP responses. The unverified binary around it does the actual
//! network and database I/O and hands plain values in and out.

pub mod http;
pub mod id;
pub mod json;
pub mod store;
