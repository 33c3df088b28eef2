//! Request vocabulary: the recognised commands and their
//! specification-level view.

use vstd::prelude::*;
use crate::handler::WriteOptions;

verus! {

/// One decoded client command.
#[derive(Debug, PartialEq, Eq)]
pub enum MemcachedRequest {
    SetCmd { key: String, value: String, options: WriteOptions },
    Add { key: String, value: String, options: WriteOptions },
    Replace { key: String, value: String, options: WriteOptions },
    Append { key: String, value: String, options: WriteOptions },
    Prepend { key: String, value: String, options: WriteOptions },
    Get { key: String },
    Delete { key: String },
    Incr { key: String, diff: i64 },
    Decr { key: String, diff: i64 },
    Stats,
    Version,
    /// Any unrecognised first token.
    Unsupported,
}

/// View of [`MemcachedRequest`].
pub enum ReqV {
    SetCmd { key: Seq<char>, value: Seq<char>, options: WriteOptions },
    Add { key: Seq<char>, value: Seq<char>, options: WriteOptions },
    Replace { key: Seq<char>, value: Seq<char>, options: WriteOptions },
    Append { key: Seq<char>, value: Seq<char>, options: WriteOptions },
    Prepend { key: Seq<char>, value: Seq<char>, options: WriteOptions },
    Get { key: Seq<char> },
    Delete { key: Seq<char> },
    Incr { key: Seq<char>, diff: i64 },
    Decr { key: Seq<char>, diff: i64 },
    Stats,
    Version,
    Unsupported,
}

impl View for MemcachedRequest {
    type V = ReqV;

    open spec fn view(&self) -> ReqV {
        match self {
            MemcachedRequest::SetCmd { key, value, options } => ReqV::SetCmd {
                key: key@,
                value: value@,
                options: *options,
            },
            MemcachedRequest::Add { key, value, options } => ReqV::Add {
                key: key@,
                value: value@,
                options: *options,
            },
            MemcachedRequest::Replace { key, value, options } => ReqV::Replace {
                key: key@,
                value: value@,
                options: *options,
            },
            MemcachedRequest::Append { key, value, options } => ReqV::Append {
                key: key@,
                value: value@,
                options: *options,
            },
            MemcachedRequest::Prepend { key, value, options } => ReqV::Prepend {
                key: key@,
                value: value@,
                options: *options,
            },
            MemcachedRequest::Get { key } => ReqV::Get { key: key@ },
            MemcachedRequest::Delete { key } => ReqV::Delete { key: key@ },
            MemcachedRequest::Incr { key, diff } => ReqV::Incr { key: key@, diff: *diff },
            MemcachedRequest::Decr { key, diff } => ReqV::Decr { key: key@, diff: *diff },
            MemcachedRequest::Stats => ReqV::Stats,
            MemcachedRequest::Version => ReqV::Version,
            MemcachedRequest::Unsupported => ReqV::Unsupported,
        }
    }
}

} // verus!
