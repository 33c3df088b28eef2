//! The stream codec: an incremental decoder from bytes to requests that
//! tolerates arbitrary fragmentation, and a stateless encoder from replies
//! to protocol text.
//!
//! The decoder's whole behaviour is the specification function
//! [`spec_decode`] over the codec's six slots and the input bytes; the
//! executable [`MemcachedCodec::decode`] implements it exactly.

use vstd::prelude::*;
use vstd::string::StringExecFns;
use vstd::utf8::valid_utf8;
use vstd::utf8::decode_utf8;
use vstd::utf8::encode_utf8;
use vstd::utf8::encode_utf8_decode_utf8;
use crate::handler::WriteOptions;
use crate::numbers::ParsedInt;
use crate::numbers::parse_int;
use crate::numbers::parse_u32_token;
use crate::numbers::parse_u64_token;
use crate::numbers::parse_i64_token;
use crate::numbers::dec_chars;
use crate::numbers::u64_to_string;
use crate::request::MemcachedRequest;
use crate::request::ReqV;
use crate::response::MemcachedError;
use crate::response::MemcachedResponse;
use crate::response::MemcachedResult;
use crate::response::ErrorV;
use crate::response::RespV;
use crate::response::res_view;
use crate::scan::DecodeError;
use crate::scan::SP;
use crate::scan::LF;
use crate::scan::TokenStep;
use crate::scan::spec_token;
use crate::scan::take_token;
use crate::scan::take_cmd_token;
use crate::scan::spec_cmd_token;
use crate::scan::trim_start_ws;
use crate::scan::ws_byte;
use crate::scan::is_ws;
use crate::scan::lemma_trim_start_skip;
use crate::scan::string_from_utf8;

verus! {

/// The six decoding slots, at the specification level: each string token is
/// tracked by its (already end-trimmed) bytes.
pub struct CodecV {
    pub command: Option<Seq<u8>>,
    pub key: Option<Seq<u8>>,
    pub flags: Option<u32>,
    pub expire: Option<u64>,
    pub number_of_bytes: Option<u64>,
    pub diff: Option<i64>,
}

impl CodecV {
    /// All slots empty: the state between requests.
    pub open spec fn empty() -> CodecV {
        CodecV {
            command: None,
            key: None,
            flags: None,
            expire: None,
            number_of_bytes: None,
            diff: None,
        }
    }
}

/// Outcome of one decode attempt.
pub enum StepV {
    /// More bytes are needed; the slots and the remaining buffer.
    More { state: CodecV, rest: Seq<u8> },
    /// A full request was recognised; the slots reset.
    Emit { request: ReqV, rest: Seq<u8> },
    /// The attempt raised a decode error; the slots reset.
    Fail,
}

/// A token served from a filled slot, or read from the buffer.
pub open spec fn spec_str_token(slot: Option<Seq<u8>>, buf: Seq<u8>, sep: u8) -> TokenStep {
    match slot {
        Some(t) => TokenStep::Tok { bytes: t, rest: buf },
        None => spec_token(buf, sep),
    }
}

/// The command token served from its slot, or read from the buffer.
pub open spec fn spec_cmd_slot_token(slot: Option<Seq<u8>>, buf: Seq<u8>) -> TokenStep {
    match slot {
        Some(t) => TokenStep::Tok { bytes: t, rest: buf },
        None => spec_cmd_token(buf),
    }
}

/// Outcome of acquiring one integer slot.
pub enum IntTok {
    /// The separator has not arrived.
    NeedMore,
    /// The token was complete but not a number: it is consumed, the slot
    /// stays empty, and the attempt reports that more bytes are needed.
    Skip { rest: Seq<u8> },
    /// The token was not UTF-8, or the number is empty or out of range.
    Bad,
    /// The value, either from the slot or freshly parsed.
    Have { v: int, rest: Seq<u8> },
}

/// An integer served from a filled slot, or read and parsed from the buffer.
pub open spec fn spec_int_token(
    slot: Option<int>,
    buf: Seq<u8>,
    sep: u8,
    signed: bool,
    min: int,
    max: int,
) -> IntTok {
    match slot {
        Some(v) => IntTok::Have { v, rest: buf },
        None => match spec_token(buf, sep) {
            TokenStep::NeedMore => IntTok::NeedMore,
            TokenStep::Invalid => IntTok::Bad,
            TokenStep::Tok { bytes, rest } => match parse_int(bytes, signed, min, max) {
                ParsedInt::Value(v) => IntTok::Have { v, rest },
                ParsedInt::NotDigit => IntTok::Skip { rest },
                ParsedInt::OutOfRange => IntTok::Bad,
            },
        },
    }
}

/// A `u32` slot as a mathematical option.
pub open spec fn u32_opt(o: Option<u32>) -> Option<int> {
    match o {
        Some(v) => Some(v as int),
        None => None,
    }
}

/// A `u64` slot as a mathematical option.
pub open spec fn u64_opt(o: Option<u64>) -> Option<int> {
    match o {
        Some(v) => Some(v as int),
        None => None,
    }
}

/// An `i64` slot as a mathematical option.
pub open spec fn i64_opt(o: Option<i64>) -> Option<int> {
    match o {
        Some(v) => Some(v as int),
        None => None,
    }
}

/// Outcome of the storage-command tail: key, flags, expire, byte count, then
/// exactly that many data bytes.
pub enum WriteStepV {
    More { state: CodecV, rest: Seq<u8> },
    Fail,
    Done { key: Seq<u8>, options: WriteOptions, value: Seq<u8>, rest: Seq<u8> },
}

/// Decoding the tail of `set`/`add`/`replace`/`append`/`prepend`: the key
/// and three integers arrive as tokens, then the data block is taken
/// verbatim once enough bytes are present.
pub open spec fn spec_decode_write(c: CodecV, buf: Seq<u8>) -> WriteStepV {
    match spec_str_token(c.key, buf, SP) {
        TokenStep::NeedMore => WriteStepV::More { state: c, rest: buf },
        TokenStep::Invalid => WriteStepV::Fail,
        TokenStep::Tok { bytes: key, rest: b1 } => {
            let c1 = CodecV { key: Some(key), ..c };
            match spec_int_token(u32_opt(c1.flags), b1, SP, false, 0, u32::MAX as int) {
                IntTok::NeedMore => WriteStepV::More { state: c1, rest: b1 },
                IntTok::Skip { rest } => WriteStepV::More { state: c1, rest },
                IntTok::Bad => WriteStepV::Fail,
                IntTok::Have { v: f, rest: b2 } => {
                    let c2 = CodecV { flags: Some(f as u32), ..c1 };
                    match spec_int_token(u64_opt(c2.expire), b2, SP, false, 0, u64::MAX as int) {
                        IntTok::NeedMore => WriteStepV::More { state: c2, rest: b2 },
                        IntTok::Skip { rest } => WriteStepV::More { state: c2, rest },
                        IntTok::Bad => WriteStepV::Fail,
                        IntTok::Have { v: e, rest: b3 } => {
                            let c3 = CodecV { expire: Some(e as u64), ..c2 };
                            match spec_int_token(
                                u64_opt(c3.number_of_bytes),
                                b3,
                                LF,
                                false,
                                0,
                                u64::MAX as int,
                            ) {
                                IntTok::NeedMore => WriteStepV::More { state: c3, rest: b3 },
                                IntTok::Skip { rest } => WriteStepV::More { state: c3, rest },
                                IntTok::Bad => WriteStepV::Fail,
                                IntTok::Have { v: n, rest: b4 } => {
                                    let c4 = CodecV { number_of_bytes: Some(n as u64), ..c3 };
                                    if b4.len() < n {
                                        WriteStepV::More { state: c4, rest: b4 }
                                    } else {
                                        let data = b4.take(n);
                                        if valid_utf8(data) {
                                            WriteStepV::Done {
                                                key,
                                                options: WriteOptions {
                                                    flags: f as u32,
                                                    expire: e as u64,
                                                },
                                                value: data,
                                                rest: b4.skip(n),
                                            }
                                        } else {
                                            WriteStepV::Fail
                                        }
                                    }
                                },
                            }
                        },
                    }
                },
            }
        },
    }
}

/// Outcome of the single-key tail of `get`/`delete`.
pub enum KeyStepV {
    More { state: CodecV, rest: Seq<u8> },
    Fail,
    Done { key: Seq<u8>, rest: Seq<u8> },
}

/// Decoding the tail of `get`/`delete`: one line-terminated key. The key
/// slot is consulted but never written, matching the single-token shape.
pub open spec fn spec_decode_key(c: CodecV, buf: Seq<u8>) -> KeyStepV {
    match spec_str_token(c.key, buf, LF) {
        TokenStep::NeedMore => KeyStepV::More { state: c, rest: buf },
        TokenStep::Invalid => KeyStepV::Fail,
        TokenStep::Tok { bytes, rest } => KeyStepV::Done { key: bytes, rest },
    }
}

/// Outcome of the key-and-delta tail of `incr`/`decr`.
pub enum DiffStepV {
    More { state: CodecV, rest: Seq<u8> },
    Fail,
    Done { key: Seq<u8>, diff: i64, rest: Seq<u8> },
}

/// Decoding the tail of `incr`/`decr`: a space-terminated key, then a
/// line-terminated signed 64-bit delta.
pub open spec fn spec_decode_diff(c: CodecV, buf: Seq<u8>) -> DiffStepV {
    match spec_str_token(c.key, buf, SP) {
        TokenStep::NeedMore => DiffStepV::More { state: c, rest: buf },
        TokenStep::Invalid => DiffStepV::Fail,
        TokenStep::Tok { bytes: key, rest: b1 } => {
            let c1 = CodecV { key: Some(key), ..c };
            match spec_int_token(
                i64_opt(c1.diff),
                b1,
                LF,
                true,
                i64::MIN as int,
                i64::MAX as int,
            ) {
                IntTok::NeedMore => DiffStepV::More { state: c1, rest: b1 },
                IntTok::Skip { rest } => DiffStepV::More { state: c1, rest },
                IntTok::Bad => DiffStepV::Fail,
                IntTok::Have { v, rest } => DiffStepV::Done { key, diff: v as i64, rest },
            }
        },
    }
}

/// The bytes of a string literal.
pub open spec fn lit_bytes(s: &str) -> Seq<u8> {
    encode_utf8(s@)
}

/// Which write variant a command name selects.
pub open spec fn write_request_view(
    cmd: Seq<u8>,
    key: Seq<char>,
    options: WriteOptions,
    value: Seq<char>,
) -> ReqV {
    if cmd == lit_bytes("set") {
        ReqV::SetCmd { key, value, options }
    } else if cmd == lit_bytes("add") {
        ReqV::Add { key, value, options }
    } else if cmd == lit_bytes("replace") {
        ReqV::Replace { key, value, options }
    } else if cmd == lit_bytes("append") {
        ReqV::Append { key, value, options }
    } else {
        ReqV::Prepend { key, value, options }
    }
}

/// Whether a command name selects the storage family.
pub open spec fn is_write_cmd(k: Seq<u8>) -> bool {
    k == lit_bytes("set") || k == lit_bytes("add") || k == lit_bytes("replace") || k == lit_bytes(
        "append",
    ) || k == lit_bytes("prepend")
}

/// Dispatch on the fully trimmed command name, `c` holding that name in its
/// command slot and `buf` the bytes after it.
pub open spec fn spec_dispatch(c: CodecV, cmd: Seq<u8>, buf: Seq<u8>) -> StepV {
    let k = trim_start_ws(cmd);
    if is_write_cmd(k) {
        match spec_decode_write(c, buf) {
            WriteStepV::More { state, rest } => StepV::More { state, rest },
            WriteStepV::Fail => StepV::Fail,
            WriteStepV::Done { key, options, value, rest } => StepV::Emit {
                request: write_request_view(k, decode_utf8(key), options, decode_utf8(value)),
                rest,
            },
        }
    } else if k == lit_bytes("get") {
        match spec_decode_key(c, buf) {
            KeyStepV::More { state, rest } => StepV::More { state, rest },
            KeyStepV::Fail => StepV::Fail,
            KeyStepV::Done { key, rest } => StepV::Emit {
                request: ReqV::Get { key: decode_utf8(key) },
                rest,
            },
        }
    } else if k == lit_bytes("delete") {
        match spec_decode_key(c, buf) {
            KeyStepV::More { state, rest } => StepV::More { state, rest },
            KeyStepV::Fail => StepV::Fail,
            KeyStepV::Done { key, rest } => StepV::Emit {
                request: ReqV::Delete { key: decode_utf8(key) },
                rest,
            },
        }
    } else if k == lit_bytes("incr") {
        match spec_decode_diff(c, buf) {
            DiffStepV::More { state, rest } => StepV::More { state, rest },
            DiffStepV::Fail => StepV::Fail,
            DiffStepV::Done { key, diff, rest } => StepV::Emit {
                request: ReqV::Incr { key: decode_utf8(key), diff },
                rest,
            },
        }
    } else if k == lit_bytes("decr") {
        match spec_decode_diff(c, buf) {
            DiffStepV::More { state, rest } => StepV::More { state, rest },
            DiffStepV::Fail => StepV::Fail,
            DiffStepV::Done { key, diff, rest } => StepV::Emit {
                request: ReqV::Decr { key: decode_utf8(key), diff },
                rest,
            },
        }
    } else if k == lit_bytes("stats") {
        StepV::Emit { request: ReqV::Stats, rest: buf }
    } else if k == lit_bytes("version") {
        StepV::Emit { request: ReqV::Version, rest: buf }
    } else {
        StepV::Emit { request: ReqV::Unsupported, rest: buf }
    }
}

/// One decode attempt over the slots `c` and the buffer `buf`: read or
/// recall the command token, then run its tail.
pub open spec fn spec_decode(c: CodecV, buf: Seq<u8>) -> StepV {
    match spec_cmd_slot_token(c.command, buf) {
        TokenStep::NeedMore => StepV::More { state: c, rest: buf },
        TokenStep::Invalid => StepV::Fail,
        TokenStep::Tok { bytes: cmd, rest: b1 } => spec_dispatch(
            CodecV { command: Some(cmd), ..c },
            cmd,
            b1,
        ),
    }
}

/// The incremental decoder: six slots, filled token by token as bytes
/// arrive, reset on emission and on error.
pub struct MemcachedCodec {
    command: Option<String>,
    key: Option<String>,
    flags: Option<u32>,
    expire: Option<u64>,
    number_of_bytes: Option<u64>,
    diff: Option<i64>,
}

impl View for MemcachedCodec {
    type V = CodecV;

    closed spec fn view(&self) -> CodecV {
        CodecV {
            command: match self.command {
                Some(s) => Some(encode_utf8(s@)),
                None => None,
            },
            key: match self.key {
                Some(s) => Some(encode_utf8(s@)),
                None => None,
            },
            flags: self.flags,
            expire: self.expire,
            number_of_bytes: self.number_of_bytes,
            diff: self.diff,
        }
    }
}

/// Splits the first `n` bytes off the front of `src`.
fn split_front(src: &mut Vec<u8>, n: usize) -> (front: Vec<u8>)
    requires
        n <= old(src)@.len(),
    ensures
        front@ == old(src)@.take(n as int),
        final(src)@ == old(src)@.skip(n as int),
{
    let mut front: Vec<u8> = Vec::new();
    let mut k: usize = 0;
    while k < n
        invariant
            k <= n <= src@.len(),
            src@ == old(src)@,
            front@ == src@.take(k as int),
        decreases n - k,
    {
        front.push(src[k]);
        assert(front@ =~= src@.take(k + 1));
        k += 1;
    }
    let len: usize = src.len();
    let mut rest: Vec<u8> = Vec::new();
    let mut k2: usize = n;
    while k2 < len
        invariant
            n <= k2 <= len == src@.len(),
            src@ == old(src)@,
            rest@ == src@.subrange(n as int, k2 as int),
        decreases len - k2,
    {
        rest.push(src[k2]);
        assert(rest@ =~= src@.subrange(n as int, k2 + 1));
        k2 += 1;
    }
    proof {
        assert(rest@ =~= old(src)@.skip(n as int));
    }
    *src = rest;
    front
}

impl MemcachedCodec {
    /// A fresh codec with every slot empty.
    pub fn new() -> (c: Self)
        ensures
            c@ == CodecV::empty(),
    {
        MemcachedCodec {
            command: None,
            key: None,
            flags: None,
            expire: None,
            number_of_bytes: None,
            diff: None,
        }
    }

    /// Empties every slot.
    fn reset(&mut self)
        ensures
            final(self)@ == CodecV::empty(),
    {
        self.command = None;
        self.key = None;
        self.flags = None;
        self.expire = None;
        self.number_of_bytes = None;
        self.diff = None;
    }

    /// Whether the stored command token, leading whitespace ignored, spells
    /// `pat`.
    fn command_matches(cmd: &String, pat: &str) -> (r: bool)
        ensures
            r == (trim_start_ws(encode_utf8(cmd@)) == encode_utf8(pat@)),
    {
        let b: &[u8] = cmd.as_str().as_bytes();
        proof {
            assert(b@ == encode_utf8(cmd@));
        }
        let n: usize = b.len();
        let mut st: usize = 0;
        while st < n && ws_byte(b[st])
            invariant
                st <= n == b@.len(),
                forall|j: int| 0 <= j < st ==> is_ws(b@[j]),
            decreases n - st,
        {
            st += 1;
        }
        proof {
            lemma_trim_start_skip(b@, st as int);
        }
        let p: &[u8] = pat.as_bytes();
        proof {
            assert(p@ == encode_utf8(pat@));
        }
        if n - st != p.len() {
            proof {
                assert(b@.skip(st as int).len() != p@.len());
            }
            return false;
        }
        let m: usize = p.len();
        let mut k: usize = 0;
        while k < m
            invariant
                k <= m == p@.len(),
                st + m == n,
                n == b@.len(),
                b@ == encode_utf8(cmd@),
                p@ == encode_utf8(pat@),
                trim_start_ws(b@) == b@.skip(st as int),
                forall|j: int| 0 <= j < k ==> b@[st + j] == p@[j],
            decreases m - k,
        {
            if b[st + k] != p[k] {
                proof {
                    assert(b@.skip(st as int)[k as int] != p@[k as int]);
                }
                return false;
            }
            k += 1;
        }
        proof {
            assert(b@.skip(st as int) =~= p@);
        }
        true
    }

    /// The key slot, or a fresh `sep`-terminated token, stored back into the
    /// slot.
    fn key_token(&mut self, src: &mut Vec<u8>, sep: u8) -> (r: Result<Option<String>, DecodeError>)
        ensures
            final(self)@ == (CodecV {
                key: match spec_str_token(old(self)@.key, old(src)@, sep) {
                    TokenStep::Tok { bytes, rest } => Some(bytes),
                    _ => old(self)@.key,
                },
                ..old(self)@
            }),
            match spec_str_token(old(self)@.key, old(src)@, sep) {
                TokenStep::NeedMore => r == Ok::<Option<String>, DecodeError>(None) && final(src)@
                    == old(src)@,
                TokenStep::Invalid => r == Err::<Option<String>, DecodeError>(DecodeError::Utf8),
                TokenStep::Tok { bytes, rest } => {
                    &&& r matches Ok(Some(s)) && encode_utf8(s@) == bytes
                    &&& final(src)@ == rest
                },
            },
    {
        let key: String = match &self.key {
            Some(k) => k.clone(),
            None => {
                match take_token(src, sep)? {
                    None => {
                        return Ok(None);
                    },
                    Some(s) => s,
                }
            },
        };
        self.key = Some(key.clone());
        Ok(Some(key))
    }

    /// The tail of a storage command, per [`spec_decode_write`].
    fn decode_write(&mut self, src: &mut Vec<u8>) -> (r: Result<
        Option<(String, WriteOptions, String)>,
        DecodeError,
    >)
        ensures
            match spec_decode_write(old(self)@, old(src)@) {
                WriteStepV::More { state, rest } => r == Ok::<
                    Option<(String, WriteOptions, String)>,
                    DecodeError,
                >(None) && final(self)@ == state && final(src)@ == rest,
                WriteStepV::Fail => r is Err,
                WriteStepV::Done { key, options, value, rest } => {
                    &&& r matches Ok(Some((k, o, v))) && encode_utf8(k@) == key && o == options
                        && encode_utf8(v@) == value
                    &&& final(src)@ == rest
                },
            },
    {
        let key: String = match self.key_token(src, SP)? {
            None => {
                return Ok(None);
            },
            Some(s) => s,
        };
        let flags: u32 = match self.flags {
            Some(f) => f,
            None => {
                match take_token(src, SP)? {
                    None => {
                        return Ok(None);
                    },
                    Some(s) => {
                        match parse_u32_token(s.as_str())? {
                            None => {
                                return Ok(None);
                            },
                            Some(f) => f,
                        }
                    },
                }
            },
        };
        self.flags = Some(flags);
        let expire: u64 = match self.expire {
            Some(e) => e,
            None => {
                match take_token(src, SP)? {
                    None => {
                        return Ok(None);
                    },
                    Some(s) => {
                        match parse_u64_token(s.as_str())? {
                            None => {
                                return Ok(None);
                            },
                            Some(e) => e,
                        }
                    },
                }
            },
        };
        self.expire = Some(expire);
        let nbytes: u64 = match self.number_of_bytes {
            Some(n) => n,
            None => {
                match take_token(src, LF)? {
                    None => {
                        return Ok(None);
                    },
                    Some(s) => {
                        match parse_u64_token(s.as_str())? {
                            None => {
                                return Ok(None);
                            },
                            Some(n) => n,
                        }
                    },
                }
            },
        };
        self.number_of_bytes = Some(nbytes);
        if (src.len() as u64) < nbytes {
            return Ok(None);
        }
        let n: usize = nbytes as usize;
        let data = split_front(src, n);
        let value: String = match string_from_utf8(data) {
            Some(v) => v,
            None => {
                return Err(DecodeError::Utf8);
            },
        };
        Ok(Some((key, WriteOptions { flags, expire }, value)))
    }

    /// The tail of `get`/`delete`, per [`spec_decode_key`].
    fn decode_key(&mut self, src: &mut Vec<u8>) -> (r: Result<Option<String>, DecodeError>)
        ensures
            match spec_decode_key(old(self)@, old(src)@) {
                KeyStepV::More { state, rest } => r == Ok::<Option<String>, DecodeError>(None)
                    && final(self)@ == state && final(src)@ == rest,
                KeyStepV::Fail => r is Err,
                KeyStepV::Done { key, rest } => {
                    &&& r matches Ok(Some(s)) && encode_utf8(s@) == key
                    &&& final(src)@ == rest
                },
            },
    {
        match &self.key {
            Some(k) => Ok(Some(k.clone())),
            None => {
                match take_token(src, LF)? {
                    None => Ok(None),
                    Some(s) => Ok(Some(s)),
                }
            },
        }
    }

    /// The tail of `incr`/`decr`, per [`spec_decode_diff`].
    fn decode_diff(&mut self, src: &mut Vec<u8>) -> (r: Result<Option<(String, i64)>, DecodeError>)
        ensures
            match spec_decode_diff(old(self)@, old(src)@) {
                DiffStepV::More { state, rest } => r == Ok::<Option<(String, i64)>, DecodeError>(
                    None,
                ) && final(self)@ == state && final(src)@ == rest,
                DiffStepV::Fail => r is Err,
                DiffStepV::Done { key, diff, rest } => {
                    &&& r matches Ok(Some((k, d))) && encode_utf8(k@) == key && d == diff
                    &&& final(src)@ == rest
                },
            },
    {
        let key: String = match self.key_token(src, SP)? {
            None => {
                return Ok(None);
            },
            Some(s) => s,
        };
        let diff: i64 = match self.diff {
            Some(d) => d,
            None => {
                match take_token(src, LF)? {
                    None => {
                        return Ok(None);
                    },
                    Some(s) => {
                        match parse_i64_token(s.as_str())? {
                            None => {
                                return Ok(None);
                            },
                            Some(d) => d,
                        }
                    },
                }
            },
        };
        self.diff = Some(diff);
        Ok(Some((key, diff)))
    }

    /// One decode attempt without the final reset, per [`spec_decode`].
    fn decode_impl(&mut self, src: &mut Vec<u8>) -> (r: Result<
        Option<MemcachedRequest>,
        DecodeError,
    >)
        ensures
            match spec_decode(old(self)@, old(src)@) {
                StepV::More { state, rest } => r == Ok::<Option<MemcachedRequest>, DecodeError>(
                    None,
                ) && final(self)@ == state && final(src)@ == rest,
                StepV::Emit { request, rest } => {
                    &&& r matches Ok(Some(q)) && q@ == request
                    &&& final(src)@ == rest
                },
                StepV::Fail => r is Err,
            },
    {
        let cmd: String = match &self.command {
            Some(c) => c.clone(),
            None => {
                match take_cmd_token(src)? {
                    None => {
                        return Ok(None);
                    },
                    Some(s) => s,
                }
            },
        };
        self.command = Some(cmd.clone());
        proof {
            encode_utf8_decode_utf8(cmd@);
        }
        if Self::command_matches(&cmd, "set") {
            match self.decode_write(src)? {
                None => Ok(None),
                Some((key, options, value)) => {
                    proof {
                        encode_utf8_decode_utf8(key@);
                        encode_utf8_decode_utf8(value@);
                    }
                    Ok(Some(MemcachedRequest::SetCmd { key, value, options }))
                },
            }
        } else if Self::command_matches(&cmd, "add") {
            match self.decode_write(src)? {
                None => Ok(None),
                Some((key, options, value)) => {
                    proof {
                        encode_utf8_decode_utf8(key@);
                        encode_utf8_decode_utf8(value@);
                    }
                    Ok(Some(MemcachedRequest::Add { key, value, options }))
                },
            }
        } else if Self::command_matches(&cmd, "replace") {
            match self.decode_write(src)? {
                None => Ok(None),
                Some((key, options, value)) => {
                    proof {
                        encode_utf8_decode_utf8(key@);
                        encode_utf8_decode_utf8(value@);
                    }
                    Ok(Some(MemcachedRequest::Replace { key, value, options }))
                },
            }
        } else if Self::command_matches(&cmd, "append") {
            match self.decode_write(src)? {
                None => Ok(None),
                Some((key, options, value)) => {
                    proof {
                        encode_utf8_decode_utf8(key@);
                        encode_utf8_decode_utf8(value@);
                    }
                    Ok(Some(MemcachedRequest::Append { key, value, options }))
                },
            }
        } else if Self::command_matches(&cmd, "prepend") {
            match self.decode_write(src)? {
                None => Ok(None),
                Some((key, options, value)) => {
                    proof {
                        encode_utf8_decode_utf8(key@);
                        encode_utf8_decode_utf8(value@);
                    }
                    Ok(Some(MemcachedRequest::Prepend { key, value, options }))
                },
            }
        } else if Self::command_matches(&cmd, "get") {
            match self.decode_key(src)? {
                None => Ok(None),
                Some(key) => {
                    proof {
                        encode_utf8_decode_utf8(key@);
                    }
                    Ok(Some(MemcachedRequest::Get { key }))
                },
            }
        } else if Self::command_matches(&cmd, "delete") {
            match self.decode_key(src)? {
                None => Ok(None),
                Some(key) => {
                    proof {
                        encode_utf8_decode_utf8(key@);
                    }
                    Ok(Some(MemcachedRequest::Delete { key }))
                },
            }
        } else if Self::command_matches(&cmd, "incr") {
            match self.decode_diff(src)? {
                None => Ok(None),
                Some((key, diff)) => {
                    proof {
                        encode_utf8_decode_utf8(key@);
                    }
                    Ok(Some(MemcachedRequest::Incr { key, diff }))
                },
            }
        } else if Self::command_matches(&cmd, "decr") {
            match self.decode_diff(src)? {
                None => Ok(None),
                Some((key, diff)) => {
                    proof {
                        encode_utf8_decode_utf8(key@);
                    }
                    Ok(Some(MemcachedRequest::Decr { key, diff }))
                },
            }
        } else if Self::command_matches(&cmd, "stats") {
            Ok(Some(MemcachedRequest::Stats))
        } else if Self::command_matches(&cmd, "version") {
            Ok(Some(MemcachedRequest::Version))
        } else {
            Ok(Some(MemcachedRequest::Unsupported))
        }
    }

    /// One decode attempt: consume the bytes of at most one request from the
    /// front of `src`. Emits the request once whole, reports that more bytes
    /// are needed otherwise, and resets the slots on emission and on error,
    /// all exactly per [`spec_decode`].
    pub fn decode(&mut self, src: &mut Vec<u8>) -> (r: Result<
        Option<MemcachedRequest>,
        DecodeError,
    >)
        ensures
            match spec_decode(old(self)@, old(src)@) {
                StepV::More { state, rest } => r == Ok::<Option<MemcachedRequest>, DecodeError>(
                    None,
                ) && final(self)@ == state && final(src)@ == rest,
                StepV::Emit { request, rest } => {
                    &&& r matches Ok(Some(q)) && q@ == request
                    &&& final(self)@ == CodecV::empty()
                    &&& final(src)@ == rest
                },
                StepV::Fail => r is Err && final(self)@ == CodecV::empty(),
            },
    {
        let res = self.decode_impl(src);
        match res {
            Ok(Some(q)) => {
                self.reset();
                Ok(Some(q))
            },
            Ok(None) => Ok(None),
            Err(e) => {
                self.reset();
                Err(e)
            },
        }
    }
}

/// The reply text for one result, per the response table: each reply is one
/// line, except `Value`, which carries its payload and terminator lines.
pub open spec fn spec_encode(item: Result<RespV, ErrorV>) -> Seq<char> {
    match item {
        Ok(RespV::Stored) => "STORED\r\n"@,
        Ok(RespV::Deleted) => "DELETED\r\n"@,
        Ok(RespV::NoValue) => "END\r\n"@,
        Ok(RespV::Value { key, flags, expire, value }) => "VALUE "@ + key + " "@ + dec_chars(
            flags as nat,
        ) + " "@ + dec_chars(expire as nat) + "\r\n"@ + value + "\r\n"@ + "END\r\n"@,
        Ok(RespV::Statistics(pairs)) => stats_chars(pairs),
        Ok(RespV::Version(v)) => "VERSION "@ + v + "\r\n"@,
        Err(ErrorV::NoExistenceCommand) => "ERROR\r\n"@,
        Err(ErrorV::NotFound) => "CLIENT_ERROR Not found\r\n"@,
        Err(ErrorV::AlreadyExists) => "CLIENT_ERROR Already exists\r\n"@,
        Err(ErrorV::FailedToParseInteger) => "CLIENT_ERROR Failed to parse integer\r\n"@,
        Err(ErrorV::Client(m)) => "CLIENT_ERROR "@ + m + "\r\n"@,
        Err(ErrorV::Server(m)) => "SERVER_ERROR "@ + m + "\r\n"@,
    }
}

/// One `STAT` line per pair, in order.
pub open spec fn stats_chars(pairs: Seq<(Seq<char>, Seq<char>)>) -> Seq<char>
    decreases pairs.len(),
{
    if pairs.len() == 0 {
        Seq::empty()
    } else {
        "STAT "@ + pairs[0].0 + " "@ + pairs[0].1 + "\r\n"@ + stats_chars(pairs.drop_first())
    }
}

/// Rendering distributes over splitting the pair list.
proof fn lemma_stats_chars_concat(a: Seq<(Seq<char>, Seq<char>)>, b: Seq<(Seq<char>, Seq<char>)>)
    ensures
        stats_chars(a + b) == stats_chars(a) + stats_chars(b),
    decreases a.len(),
{
    if a.len() == 0 {
        assert(a + b =~= b);
        assert(stats_chars(a) + stats_chars(b) =~= stats_chars(b));
    } else {
        assert((a + b)[0] == a[0]);
        assert((a + b).drop_first() =~= a.drop_first() + b);
        lemma_stats_chars_concat(a.drop_first(), b);
        assert(stats_chars(a + b) =~= stats_chars(a) + stats_chars(b));
    }
}

/// The stateless encoder: appends the reply text for `item` to `dst`,
/// exactly per [`spec_encode`].
pub fn encode(item: MemcachedResult, dst: &mut String)
    ensures
        final(dst)@ == old(dst)@ + spec_encode(res_view(item)),
{
    match item {
        Ok(MemcachedResponse::Stored) => {
            dst.append("STORED\r\n");
        },
        Ok(MemcachedResponse::Deleted) => {
            dst.append("DELETED\r\n");
        },
        Ok(MemcachedResponse::NoValue) => {
            dst.append("END\r\n");
        },
        Ok(MemcachedResponse::Value { key, flags, expire, value }) => {
            let fs = u64_to_string(flags as u64);
            let es = u64_to_string(expire);
            dst.append("VALUE ");
            dst.append(key.as_str());
            dst.append(" ");
            dst.append(fs.as_str());
            dst.append(" ");
            dst.append(es.as_str());
            dst.append("\r\n");
            dst.append(value.as_str());
            dst.append("\r\n");
            dst.append("END\r\n");
            proof {
                assert(final(dst)@ =~= old(dst)@ + ("VALUE "@ + key@ + " "@ + dec_chars(
                    flags as nat,
                ) + " "@ + dec_chars(expire as nat) + "\r\n"@ + value@ + "\r\n"@ + "END\r\n"@));
            }
        },
        Ok(MemcachedResponse::Statistics(pairs)) => {
            let ghost pv = pairs@.map_values(|p: (String, String)| (p.0@, p.1@));
            let n: usize = pairs.len();
            let mut k: usize = 0;
            proof {
                assert(pv.take(0) =~= Seq::<(Seq<char>, Seq<char>)>::empty());
            }
            while k < n
                invariant
                    k <= n == pairs@.len(),
                    pv == pairs@.map_values(|p: (String, String)| (p.0@, p.1@)),
                    dst@ == old(dst)@ + stats_chars(pv.take(k as int)),
                decreases n - k,
            {
                let p = &pairs[k];
                dst.append("STAT ");
                dst.append(p.0.as_str());
                dst.append(" ");
                dst.append(p.1.as_str());
                dst.append("\r\n");
                proof {
                    let row = seq![(pairs@[k as int].0@, pairs@[k as int].1@)];
                    assert(pv.take(k + 1) =~= pv.take(k as int) + row);
                    lemma_stats_chars_concat(pv.take(k as int), row);
                    assert(row.drop_first() =~= Seq::<(Seq<char>, Seq<char>)>::empty());
                    assert(stats_chars(row.drop_first()) =~= Seq::<char>::empty());
                    assert(row[0] == (pairs@[k as int].0@, pairs@[k as int].1@));
                    assert(stats_chars(row) =~= "STAT "@ + pairs@[k as int].0@ + " "@
                        + pairs@[k as int].1@ + "\r\n"@);
                    assert(dst@ =~= old(dst)@ + stats_chars(pv.take(k + 1)));
                }
                k += 1;
            }
            proof {
                assert(pv.take(n as int) =~= pv);
            }
        },
        Ok(MemcachedResponse::Version(v)) => {
            dst.append("VERSION ");
            dst.append(v.as_str());
            dst.append("\r\n");
            proof {
                assert(final(dst)@ =~= old(dst)@ + ("VERSION "@ + v@ + "\r\n"@));
            }
        },
        Err(MemcachedError::NoExistenceCommand) => {
            dst.append("ERROR\r\n");
        },
        Err(MemcachedError::NotFound) => {
            dst.append("CLIENT_ERROR Not found\r\n");
        },
        Err(MemcachedError::AlreadyExists) => {
            dst.append("CLIENT_ERROR Already exists\r\n");
        },
        Err(MemcachedError::FailedToParseInteger) => {
            dst.append("CLIENT_ERROR Failed to parse integer\r\n");
        },
        Err(MemcachedError::Client(m)) => {
            dst.append("CLIENT_ERROR ");
            dst.append(m.as_str());
            dst.append("\r\n");
            proof {
                assert(final(dst)@ =~= old(dst)@ + ("CLIENT_ERROR "@ + m@ + "\r\n"@));
            }
        },
        Err(MemcachedError::Server(m)) => {
            dst.append("SERVER_ERROR ");
            dst.append(m.as_str());
            dst.append("\r\n");
            proof {
                assert(final(dst)@ =~= old(dst)@ + ("SERVER_ERROR "@ + m@ + "\r\n"@));
            }
        },
    }
}


/// Law: encode/decode round trip for the round-trippable replies — each
/// encodes exactly to its line in the response table, so reading the reply
/// back line by line recovers the literal text.
pub proof fn lemma_encode_table(
    v: Seq<char>,
    key: Seq<char>,
    flags: u32,
    expire: u64,
    value: Seq<char>,
)
    ensures
        spec_encode(Ok(RespV::Stored)) == "STORED\r\n"@,
        spec_encode(Ok(RespV::Deleted)) == "DELETED\r\n"@,
        spec_encode(Ok(RespV::NoValue)) == "END\r\n"@,
        spec_encode(Ok(RespV::Version(v))) == "VERSION "@ + v + "\r\n"@,
        spec_encode(Ok(RespV::Value { key, flags, expire, value })) == "VALUE "@ + key + " "@
            + dec_chars(flags as nat) + " "@ + dec_chars(expire as nat) + "\r\n"@ + value
            + "\r\n"@ + "END\r\n"@,
{
}

} // verus!
