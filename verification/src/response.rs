//! Reply vocabulary: successful responses, protocol errors, and their
//! specification-level views.

use vstd::prelude::*;

verus! {

/// Failures reported to the client over the wire.
#[derive(Debug, PartialEq, Eq)]
pub enum MemcachedError {
    /// The first token of the request named no known command.
    NoExistenceCommand,
    /// The key is absent where it was required to exist.
    NotFound,
    /// The key exists where it was required to be absent.
    AlreadyExists,
    /// A stored value could not be read as a signed 64-bit decimal.
    FailedToParseInteger,
    /// Any other client-side fault, with a message.
    Client(String),
    /// A server-side fault, with a message.
    Server(String),
}

/// Successful replies.
#[derive(Debug, PartialEq, Eq)]
pub enum MemcachedResponse {
    Stored,
    Deleted,
    /// The empty-get terminator line.
    NoValue,
    /// A stored entry echoed back: the key, its opaque flags, the stored
    /// expiry seconds, and the value text.
    Value { key: String, flags: u32, expire: u64, value: String },
    /// Statistics pairs, rendered in order.
    Statistics(Vec<(String, String)>),
    /// The server version string.
    Version(String),
}

/// View of [`MemcachedError`].
pub enum ErrorV {
    NoExistenceCommand,
    NotFound,
    AlreadyExists,
    FailedToParseInteger,
    Client(Seq<char>),
    Server(Seq<char>),
}

/// View of [`MemcachedResponse`].
pub enum RespV {
    Stored,
    Deleted,
    NoValue,
    Value { key: Seq<char>, flags: u32, expire: u64, value: Seq<char> },
    Statistics(Seq<(Seq<char>, Seq<char>)>),
    Version(Seq<char>),
}

impl View for MemcachedError {
    type V = ErrorV;

    open spec fn view(&self) -> ErrorV {
        match self {
            MemcachedError::NoExistenceCommand => ErrorV::NoExistenceCommand,
            MemcachedError::NotFound => ErrorV::NotFound,
            MemcachedError::AlreadyExists => ErrorV::AlreadyExists,
            MemcachedError::FailedToParseInteger => ErrorV::FailedToParseInteger,
            MemcachedError::Client(m) => ErrorV::Client(m@),
            MemcachedError::Server(m) => ErrorV::Server(m@),
        }
    }
}

impl View for MemcachedResponse {
    type V = RespV;

    open spec fn view(&self) -> RespV {
        match self {
            MemcachedResponse::Stored => RespV::Stored,
            MemcachedResponse::Deleted => RespV::Deleted,
            MemcachedResponse::NoValue => RespV::NoValue,
            MemcachedResponse::Value { key, flags, expire, value } => RespV::Value {
                key: key@,
                flags: *flags,
                expire: *expire,
                value: value@,
            },
            MemcachedResponse::Statistics(pairs) => RespV::Statistics(
                pairs@.map_values(|p: (String, String)| (p.0@, p.1@)),
            ),
            MemcachedResponse::Version(v) => RespV::Version(v@),
        }
    }
}

/// The outcome of one backend operation.
pub type MemcachedResult = Result<MemcachedResponse, MemcachedError>;

/// View of a [`MemcachedResult`].
pub open spec fn res_view(r: MemcachedResult) -> Result<RespV, ErrorV> {
    match r {
        Ok(resp) => Ok(resp@),
        Err(e) => Err(e@),
    }
}

} // verus!
