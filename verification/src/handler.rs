//! The backend capability set and the per-request dispatch step of the
//! connection handler.

use vstd::prelude::*;
use vstd::utf8::encode_utf8;
use crate::numbers::ParsedInt;
use crate::numbers::parse_int;
use crate::numbers::dec_chars_i64;
use crate::numbers::lemma_parse_dec_i64;
use crate::request::MemcachedRequest;
use crate::request::ReqV;
use crate::response::MemcachedError;
use crate::response::MemcachedResponse;
use crate::response::MemcachedResult;
use crate::response::ErrorV;
use crate::response::RespV;
use crate::response::res_view;

verus! {

/// Options stored beside a value: opaque client flags, echoed verbatim on
/// read, and the intended lifetime in whole seconds (stored, not enforced).
#[derive(Debug, Clone, Copy, PartialEq, Eq, Structural)]
pub struct WriteOptions {
    pub flags: u32,
    pub expire: u64,
}

/// What a backend holds for one key, at the specification level.
pub struct EntryV {
    pub value: Seq<char>,
    pub flags: u32,
    pub expire: u64,
}

/// The entry a write command installs.
pub open spec fn entry_of(value: Seq<char>, options: WriteOptions) -> EntryV {
    EntryV { value, flags: options.flags, expire: options.expire }
}

/// Signed 64-bit wrap-around of a mathematical value at most one period away
/// from the representable range.
pub open spec fn wrap_i64(v: int) -> int {
    if v > i64::MAX {
        v - 0x1_0000_0000_0000_0000
    } else if v < i64::MIN {
        v + 0x1_0000_0000_0000_0000
    } else {
        v
    }
}

/// The read-modify-write of `incr`/`decr`: parse the stored text as a signed
/// 64-bit decimal, move it by `diff` (wrapping), and store it back under the
/// entry's own options; absent keys and unparseable values change nothing.
pub open spec fn arith_post(
    pre: Map<Seq<char>, EntryV>,
    key: Seq<char>,
    diff: int,
    up: bool,
    post: Map<Seq<char>, EntryV>,
    res: Result<RespV, ErrorV>,
) -> bool {
    if !pre.contains_key(key) {
        post == pre && res == Err::<RespV, ErrorV>(ErrorV::NotFound)
    } else {
        match parse_int(encode_utf8(pre[key].value), true, i64::MIN as int, i64::MAX as int) {
            ParsedInt::Value(cur) => {
                let nv = wrap_i64(
                    if up {
                        cur + diff
                    } else {
                        cur - diff
                    },
                );
                post == pre.insert(
                    key,
                    EntryV { value: dec_chars_i64(nv), flags: pre[key].flags, expire: pre[key].expire },
                ) && res == Ok::<RespV, ErrorV>(RespV::Stored)
            },
            _ => post == pre && res == Err::<RespV, ErrorV>(ErrorV::FailedToParseInteger),
        }
    }
}

/// The full contract of one dispatched request: how the backend mapping
/// moves from `pre` to `post`, and which reply comes back.
pub open spec fn dispatch_post(
    pre: Map<Seq<char>, EntryV>,
    req: ReqV,
    post: Map<Seq<char>, EntryV>,
    res: Result<RespV, ErrorV>,
) -> bool {
    match req {
        ReqV::SetCmd { key, value, options } => post == pre.insert(key, entry_of(value, options))
            && res == Ok::<RespV, ErrorV>(RespV::Stored),
        ReqV::Add { key, value, options } => if pre.contains_key(key) {
            post == pre && res == Err::<RespV, ErrorV>(ErrorV::AlreadyExists)
        } else {
            post == pre.insert(key, entry_of(value, options)) && res == Ok::<RespV, ErrorV>(
                RespV::Stored,
            )
        },
        ReqV::Replace { key, value, options } => if pre.contains_key(key) {
            post == pre.insert(key, entry_of(value, options)) && res == Ok::<RespV, ErrorV>(
                RespV::Stored,
            )
        } else {
            post == pre && res == Err::<RespV, ErrorV>(ErrorV::NotFound)
        },
        ReqV::Append { key, value, options } => if pre.contains_key(key) {
            post == pre.insert(key, entry_of(pre[key].value + value, options)) && res == Ok::<
                RespV,
                ErrorV,
            >(RespV::Stored)
        } else {
            post == pre && res == Err::<RespV, ErrorV>(ErrorV::NotFound)
        },
        ReqV::Prepend { key, value, options } => if pre.contains_key(key) {
            post == pre.insert(key, entry_of(value + pre[key].value, options)) && res == Ok::<
                RespV,
                ErrorV,
            >(RespV::Stored)
        } else {
            post == pre && res == Err::<RespV, ErrorV>(ErrorV::NotFound)
        },
        ReqV::Get { key } => post == pre && (if pre.contains_key(key) {
            res == Ok::<RespV, ErrorV>(
                RespV::Value {
                    key,
                    flags: pre[key].flags,
                    expire: pre[key].expire,
                    value: pre[key].value,
                },
            )
        } else {
            res == Err::<RespV, ErrorV>(ErrorV::NotFound)
        }),
        ReqV::Delete { key } => if pre.contains_key(key) {
            post == pre.remove(key) && res == Ok::<RespV, ErrorV>(RespV::Deleted)
        } else {
            post == pre && res == Err::<RespV, ErrorV>(ErrorV::NotFound)
        },
        ReqV::Incr { key, diff } => arith_post(pre, key, diff as int, true, post, res),
        ReqV::Decr { key, diff } => arith_post(pre, key, diff as int, false, post, res),
        ReqV::Stats => post == pre && res matches Ok(RespV::Statistics(_)),
        ReqV::Version => post == pre && res == Ok::<RespV, ErrorV>(RespV::Version("0.1.0"@)),
        ReqV::Unsupported => post == pre && res == Err::<RespV, ErrorV>(ErrorV::NoExistenceCommand),
    }
}

/// The capability set a storage backend offers the connection handler. Each
/// operation answers one request per the protocol's rules, stated over the
/// backend's key/value mapping.
pub trait MemcachedHandler: Sized {
    /// The backend's internal validity condition.
    spec fn inv(&self) -> bool;

    /// The key/value mapping the backend currently holds.
    spec fn storage_view(&self) -> Map<Seq<char>, EntryV>;

    /// Unconditionally install `value` under `key`.
    fn set(&mut self, key: String, value: String, options: WriteOptions) -> (r: MemcachedResult)
        requires
            old(self).inv(),
        ensures
            final(self).inv(),
            dispatch_post(
                old(self).storage_view(),
                ReqV::SetCmd { key: key@, value: value@, options },
                final(self).storage_view(),
                res_view(r),
            ),
    ;

    /// Install only when `key` is absent.
    fn add(&mut self, key: String, value: String, options: WriteOptions) -> (r: MemcachedResult)
        requires
            old(self).inv(),
        ensures
            final(self).inv(),
            dispatch_post(
                old(self).storage_view(),
                ReqV::Add { key: key@, value: value@, options },
                final(self).storage_view(),
                res_view(r),
            ),
    ;

    /// Install only when `key` is present.
    fn replace(&mut self, key: String, value: String, options: WriteOptions) -> (r:
        MemcachedResult)
        requires
            old(self).inv(),
        ensures
            final(self).inv(),
            dispatch_post(
                old(self).storage_view(),
                ReqV::Replace { key: key@, value: value@, options },
                final(self).storage_view(),
                res_view(r),
            ),
    ;

    /// Extend a present entry on the right, installing the new options.
    fn append(&mut self, key: String, value: String, options: WriteOptions) -> (r: MemcachedResult)
        requires
            old(self).inv(),
        ensures
            final(self).inv(),
            dispatch_post(
                old(self).storage_view(),
                ReqV::Append { key: key@, value: value@, options },
                final(self).storage_view(),
                res_view(r),
            ),
    ;

    /// Extend a present entry on the left, installing the new options.
    fn prepend(&mut self, key: String, value: String, options: WriteOptions) -> (r:
        MemcachedResult)
        requires
            old(self).inv(),
        ensures
            final(self).inv(),
            dispatch_post(
                old(self).storage_view(),
                ReqV::Prepend { key: key@, value: value@, options },
                final(self).storage_view(),
                res_view(r),
            ),
    ;

    /// Echo a present entry back.
    fn get(&self, key: String) -> (r: MemcachedResult)
        requires
            self.inv(),
        ensures
            dispatch_post(
                self.storage_view(),
                ReqV::Get { key: key@ },
                self.storage_view(),
                res_view(r),
            ),
    ;

    /// Remove a present entry.
    fn delete(&mut self, key: String) -> (r: MemcachedResult)
        requires
            old(self).inv(),
        ensures
            final(self).inv(),
            dispatch_post(
                old(self).storage_view(),
                ReqV::Delete { key: key@ },
                final(self).storage_view(),
                res_view(r),
            ),
    ;

    /// Move a stored decimal value up by `diff`.
    fn increment(&mut self, key: String, diff: i64) -> (r: MemcachedResult)
        requires
            old(self).inv(),
        ensures
            final(self).inv(),
            dispatch_post(
                old(self).storage_view(),
                ReqV::Incr { key: key@, diff },
                final(self).storage_view(),
                res_view(r),
            ),
    ;

    /// Move a stored decimal value down by `diff`.
    fn decrement(&mut self, key: String, diff: i64) -> (r: MemcachedResult)
        requires
            old(self).inv(),
        ensures
            final(self).inv(),
            dispatch_post(
                old(self).storage_view(),
                ReqV::Decr { key: key@, diff },
                final(self).storage_view(),
                res_view(r),
            ),
    ;

    /// Report statistics pairs; an empty report is valid.
    fn statistics(&self) -> (r: MemcachedResult)
        requires
            self.inv(),
        ensures
            dispatch_post(self.storage_view(), ReqV::Stats, self.storage_view(), res_view(r)),
    ;
}

/// One dispatch step of the connection handler: route a decoded request to
/// the backend, answer `version` directly with the constant string, and map
/// an unrecognised command to its protocol error.
pub fn handle_request<H: MemcachedHandler>(handler: &mut H, request: MemcachedRequest) -> (r:
    MemcachedResult)
    requires
        old(handler).inv(),
    ensures
        final(handler).inv(),
        dispatch_post(
            old(handler).storage_view(),
            request@,
            final(handler).storage_view(),
            res_view(r),
        ),
{
    match request {
        MemcachedRequest::SetCmd { key, value, options } => handler.set(key, value, options),
        MemcachedRequest::Add { key, value, options } => handler.add(key, value, options),
        MemcachedRequest::Replace { key, value, options } => handler.replace(key, value, options),
        MemcachedRequest::Append { key, value, options } => handler.append(key, value, options),
        MemcachedRequest::Prepend { key, value, options } => handler.prepend(key, value, options),
        MemcachedRequest::Get { key } => handler.get(key),
        MemcachedRequest::Delete { key } => handler.delete(key),
        MemcachedRequest::Incr { key, diff } => handler.increment(key, diff),
        MemcachedRequest::Decr { key, diff } => handler.decrement(key, diff),
        MemcachedRequest::Stats => handler.statistics(),
        MemcachedRequest::Version => Ok(MemcachedResponse::Version("0.1.0".to_owned())),
        MemcachedRequest::Unsupported => Err(MemcachedError::NoExistenceCommand),
    }
}


/// Law: a `get` right after `set(k, v)` answers with that very value and
/// the exact options just stored.
pub proof fn lemma_get_after_set(
    pre: Map<Seq<char>, EntryV>,
    k: Seq<char>,
    v: Seq<char>,
    options: WriteOptions,
    m1: Map<Seq<char>, EntryV>,
    r1: Result<RespV, ErrorV>,
    m2: Map<Seq<char>, EntryV>,
    r2: Result<RespV, ErrorV>,
)
    requires
        dispatch_post(pre, ReqV::SetCmd { key: k, value: v, options }, m1, r1),
        dispatch_post(m1, ReqV::Get { key: k }, m2, r2),
    ensures
        m2 == m1,
        r2 == Ok::<RespV, ErrorV>(
            RespV::Value { key: k, flags: options.flags, expire: options.expire, value: v },
        ),
{
}

/// Law: `add` on a key a `set` has just installed reports that it already
/// exists, and changes nothing.
pub proof fn lemma_add_after_set(
    pre: Map<Seq<char>, EntryV>,
    k: Seq<char>,
    v: Seq<char>,
    options: WriteOptions,
    v2: Seq<char>,
    options2: WriteOptions,
    m1: Map<Seq<char>, EntryV>,
    r1: Result<RespV, ErrorV>,
    m2: Map<Seq<char>, EntryV>,
    r2: Result<RespV, ErrorV>,
)
    requires
        dispatch_post(pre, ReqV::SetCmd { key: k, value: v, options }, m1, r1),
        dispatch_post(m1, ReqV::Add { key: k, value: v2, options: options2 }, m2, r2),
    ensures
        m2 == m1,
        r2 == Err::<RespV, ErrorV>(ErrorV::AlreadyExists),
{
}

/// Law: `replace` on an absent key reports not-found, and changes nothing.
pub proof fn lemma_replace_absent(
    pre: Map<Seq<char>, EntryV>,
    k: Seq<char>,
    v: Seq<char>,
    options: WriteOptions,
    m1: Map<Seq<char>, EntryV>,
    r1: Result<RespV, ErrorV>,
)
    requires
        !pre.contains_key(k),
        dispatch_post(pre, ReqV::Replace { key: k, value: v, options }, m1, r1),
    ensures
        m1 == pre,
        r1 == Err::<RespV, ErrorV>(ErrorV::NotFound),
{
}

/// Law: `incr` on a stored value that is no decimal number reports the
/// parse failure and leaves the value untouched, as the following `get`
/// shows.
pub proof fn lemma_incr_unparseable(
    pre: Map<Seq<char>, EntryV>,
    k: Seq<char>,
    d: i64,
    m1: Map<Seq<char>, EntryV>,
    r1: Result<RespV, ErrorV>,
    m2: Map<Seq<char>, EntryV>,
    r2: Result<RespV, ErrorV>,
)
    requires
        pre.contains_key(k),
        !(parse_int(encode_utf8(pre[k].value), true, i64::MIN as int, i64::MAX as int)
            is Value),
        dispatch_post(pre, ReqV::Incr { key: k, diff: d }, m1, r1),
        dispatch_post(m1, ReqV::Get { key: k }, m2, r2),
    ensures
        m1 == pre,
        r1 == Err::<RespV, ErrorV>(ErrorV::FailedToParseInteger),
        r2 == Ok::<RespV, ErrorV>(
            RespV::Value {
                key: k,
                flags: pre[k].flags,
                expire: pre[k].expire,
                value: pre[k].value,
            },
        ),
{
}

/// Law: `incr(k, d)` on a stored decimal `n` succeeds, and the following
/// `get` returns text that parses as `n + d`; stated away from the wrap-
/// around boundary.
pub proof fn lemma_incr_then_get(
    pre: Map<Seq<char>, EntryV>,
    k: Seq<char>,
    n: int,
    d: i64,
    options: WriteOptions,
    m1: Map<Seq<char>, EntryV>,
    r1: Result<RespV, ErrorV>,
    m2: Map<Seq<char>, EntryV>,
    r2: Result<RespV, ErrorV>,
    m3: Map<Seq<char>, EntryV>,
    r3: Result<RespV, ErrorV>,
)
    requires
        i64::MIN <= n <= i64::MAX,
        i64::MIN <= n + d <= i64::MAX,
        dispatch_post(pre, ReqV::SetCmd { key: k, value: dec_chars_i64(n), options }, m1, r1),
        dispatch_post(m1, ReqV::Incr { key: k, diff: d }, m2, r2),
        dispatch_post(m2, ReqV::Get { key: k }, m3, r3),
    ensures
        r2 == Ok::<RespV, ErrorV>(RespV::Stored),
        r3 == Ok::<RespV, ErrorV>(
            RespV::Value {
                key: k,
                flags: options.flags,
                expire: options.expire,
                value: dec_chars_i64(n + d),
            },
        ),
        parse_int(encode_utf8(dec_chars_i64(n + d)), true, i64::MIN as int, i64::MAX as int)
            == ParsedInt::Value(n + d),
{
    lemma_parse_dec_i64(n);
    lemma_parse_dec_i64(n + d);
}

/// Law: `decr(k, d)` on a stored decimal `n` succeeds, and the following
/// `get` returns text that parses as `n - d`; stated away from the wrap-
/// around boundary.
pub proof fn lemma_decr_then_get(
    pre: Map<Seq<char>, EntryV>,
    k: Seq<char>,
    n: int,
    d: i64,
    options: WriteOptions,
    m1: Map<Seq<char>, EntryV>,
    r1: Result<RespV, ErrorV>,
    m2: Map<Seq<char>, EntryV>,
    r2: Result<RespV, ErrorV>,
    m3: Map<Seq<char>, EntryV>,
    r3: Result<RespV, ErrorV>,
)
    requires
        i64::MIN <= n <= i64::MAX,
        i64::MIN <= n - d <= i64::MAX,
        dispatch_post(pre, ReqV::SetCmd { key: k, value: dec_chars_i64(n), options }, m1, r1),
        dispatch_post(m1, ReqV::Decr { key: k, diff: d }, m2, r2),
        dispatch_post(m2, ReqV::Get { key: k }, m3, r3),
    ensures
        r2 == Ok::<RespV, ErrorV>(RespV::Stored),
        r3 == Ok::<RespV, ErrorV>(
            RespV::Value {
                key: k,
                flags: options.flags,
                expire: options.expire,
                value: dec_chars_i64(n - d),
            },
        ),
        parse_int(encode_utf8(dec_chars_i64(n - d)), true, i64::MIN as int, i64::MAX as int)
            == ParsedInt::Value(n - d),
{
    lemma_parse_dec_i64(n);
    lemma_parse_dec_i64(n - d);
}

/// Law: `delete` on an absent key reports not-found and changes nothing;
/// after a `set` then a `delete`, a `get` of the key reports not-found.
pub proof fn lemma_delete(
    pre: Map<Seq<char>, EntryV>,
    k: Seq<char>,
    v: Seq<char>,
    options: WriteOptions,
    m1: Map<Seq<char>, EntryV>,
    r1: Result<RespV, ErrorV>,
    m2: Map<Seq<char>, EntryV>,
    r2: Result<RespV, ErrorV>,
    m3: Map<Seq<char>, EntryV>,
    r3: Result<RespV, ErrorV>,
    m0: Map<Seq<char>, EntryV>,
    r0: Result<RespV, ErrorV>,
)
    requires
        !pre.contains_key(k),
        dispatch_post(pre, ReqV::Delete { key: k }, m0, r0),
        dispatch_post(pre, ReqV::SetCmd { key: k, value: v, options }, m1, r1),
        dispatch_post(m1, ReqV::Delete { key: k }, m2, r2),
        dispatch_post(m2, ReqV::Get { key: k }, m3, r3),
    ensures
        m0 == pre,
        r0 == Err::<RespV, ErrorV>(ErrorV::NotFound),
        r2 == Ok::<RespV, ErrorV>(RespV::Deleted),
        r3 == Err::<RespV, ErrorV>(ErrorV::NotFound),
{
}

} // verus!
