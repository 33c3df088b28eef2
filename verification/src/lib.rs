//! Core of a memcached-style ASCII key/value cache server.
//!
//! The crate provides an incremental stream decoder that recognises the
//! text protocol out of a byte stream arriving in arbitrary fragments, a
//! stateless encoder that renders replies, a backend capability trait with
//! full functional contracts, a reference in-memory storage implementing
//! that trait, and the per-request dispatch step of a connection handler.
//! Networking and task plumbing live outside this crate; everything here is
//! pure computation over byte buffers and strings.

pub mod codec;
pub mod codec_laws;
pub mod handler;
pub mod numbers;
pub mod request;
pub mod response;
pub mod scan;
pub mod storage;
