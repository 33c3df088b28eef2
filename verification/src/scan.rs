//! Byte-level scanning for the wire protocol: locating separators, trimming
//! ASCII whitespace, and taking UTF-8 tokens off the front of a buffer.

use vstd::prelude::*;
use vstd::utf8::valid_utf8;
use vstd::utf8::encode_utf8;

verus! {

/// The space separator byte.
pub const SP: u8 = 0x20;

/// The line-feed separator byte.
pub const LF: u8 = 0x0a;

/// Why a decode attempt failed: a token was not UTF-8, or an integer token
/// was empty or out of range.
#[derive(Debug, Clone, Copy, PartialEq, Eq, Structural)]
pub enum DecodeError {
    Utf8,
    Integer,
}

/// ASCII whitespace: tab, line feed, form feed, carriage return, space.
pub open spec fn is_ws(b: u8) -> bool {
    b == 0x20 || b == 0x09 || b == 0x0a || b == 0x0c || b == 0x0d
}

/// Executable twin of [`is_ws`].
pub fn ws_byte(b: u8) -> (r: bool)
    ensures
        r == is_ws(b),
{
    b == 0x20 || b == 0x09 || b == 0x0a || b == 0x0c || b == 0x0d
}

/// Index of the first occurrence of `sep` in `buf`, if any.
pub open spec fn find_byte(buf: Seq<u8>, sep: u8) -> Option<int>
    decreases buf.len(),
{
    if buf.len() == 0 {
        None
    } else if buf[0] == sep {
        Some(0int)
    } else {
        match find_byte(buf.drop_first(), sep) {
            None => None,
            Some(i) => Some(i + 1),
        }
    }
}

/// What [`find_byte`] returns is the least index holding `sep`.
pub proof fn lemma_find_byte(buf: Seq<u8>, sep: u8)
    ensures
        match find_byte(buf, sep) {
            None => forall|j: int| 0 <= j < buf.len() ==> buf[j] != sep,
            Some(i) => 0 <= i < buf.len() && buf[i] == sep && (forall|j: int|
                0 <= j < i ==> buf[j] != sep),
        },
    decreases buf.len(),
{
    if buf.len() > 0 && buf[0] != sep {
        lemma_find_byte(buf.drop_first(), sep);
        assert(forall|j: int| 1 <= j < buf.len() ==> buf[j] == buf.drop_first()[j - 1]);
    }
}

/// Conversely, the least index holding `sep` is what [`find_byte`] returns.
pub proof fn lemma_find_byte_at(buf: Seq<u8>, sep: u8, i: int)
    requires
        0 <= i < buf.len(),
        buf[i] == sep,
        forall|j: int| 0 <= j < i ==> buf[j] != sep,
    ensures
        find_byte(buf, sep) == Some(i),
    decreases buf.len(),
{
    if i > 0 {
        assert(forall|j: int| 0 <= j < buf.drop_first().len() ==> buf.drop_first()[j] == buf[j + 1]);
        lemma_find_byte_at(buf.drop_first(), sep, i - 1);
    }
}

/// Executable search for the first occurrence of `sep`.
pub fn position_byte(src: &Vec<u8>, sep: u8) -> (r: Option<usize>)
    ensures
        match r {
            Some(i) => find_byte(src@, sep) == Some(i as int),
            None => find_byte(src@, sep) is None,
        },
{
    let n: usize = src.len();
    let mut k: usize = 0;
    while k < n
        invariant
            n == src.len(),
            k <= n,
            forall|j: int| 0 <= j < k ==> src@[j] != sep,
        decreases n - k,
    {
        if src[k] == sep {
            proof {
                lemma_find_byte_at(src@, sep, k as int);
            }
            return Some(k);
        }
        k += 1;
    }
    proof {
        lemma_find_byte(src@, sep);
    }
    None
}

/// `s` with trailing ASCII whitespace removed.
pub open spec fn trim_end_ws(s: Seq<u8>) -> Seq<u8>
    decreases s.len(),
{
    if s.len() > 0 && is_ws(s[s.len() - 1]) {
        trim_end_ws(s.drop_last())
    } else {
        s
    }
}

/// `s` with leading ASCII whitespace removed.
pub open spec fn trim_start_ws(s: Seq<u8>) -> Seq<u8>
    decreases s.len(),
{
    if s.len() > 0 && is_ws(s[0]) {
        trim_start_ws(s.drop_first())
    } else {
        s
    }
}

/// Trimming the prefix `s.take(i)` keeps exactly `s.take(e)` when the bytes
/// between `e` and `i` are whitespace and the byte before `e` is not.
pub proof fn lemma_trim_end_take(s: Seq<u8>, e: int, i: int)
    requires
        0 <= e <= i <= s.len(),
        forall|j: int| e <= j < i ==> is_ws(s[j]),
        e > 0 ==> !is_ws(s[e - 1]),
    ensures
        trim_end_ws(s.take(i)) == s.take(e),
    decreases i - e,
{
    if i == e {
        if e > 0 {
            assert(s.take(e)[e - 1] == s[e - 1]);
        }
    } else {
        assert(s.take(i)[i - 1] == s[i - 1]);
        assert(s.take(i).drop_last() =~= s.take(i - 1));
        lemma_trim_end_take(s, e, i - 1);
    }
}

/// Skipping the whitespace prefix of `s` computes [`trim_start_ws`].
pub proof fn lemma_trim_start_skip(s: Seq<u8>, e: int)
    requires
        0 <= e <= s.len(),
        forall|j: int| 0 <= j < e ==> is_ws(s[j]),
        e < s.len() ==> !is_ws(s[e]),
    ensures
        trim_start_ws(s) == s.skip(e),
    decreases e,
{
    if e == 0 {
        assert(s.skip(0) =~= s);
    } else {
        assert(forall|j: int| 0 <= j < s.drop_first().len() ==> s.drop_first()[j] == s[j + 1]);
        lemma_trim_start_skip(s.drop_first(), e - 1);
        assert(s.drop_first().skip(e - 1) =~= s.skip(e));
    }
}

/// Outcome of reading one separator-terminated token.
pub enum TokenStep {
    /// The separator has not arrived yet.
    NeedMore,
    /// The token is not valid UTF-8.
    Invalid,
    /// The trimmed token bytes and the buffer that remains past the separator.
    Tok { bytes: Seq<u8>, rest: Seq<u8> },
}

/// Reading one `sep`-terminated token from the front of `buf`: the maximal
/// prefix before the first `sep`, trailing ASCII whitespace trimmed, and the
/// separator itself consumed.
pub open spec fn spec_token(buf: Seq<u8>, sep: u8) -> TokenStep {
    match find_byte(buf, sep) {
        None => TokenStep::NeedMore,
        Some(i) => {
            let t = trim_end_ws(buf.take(i));
            if valid_utf8(t) {
                TokenStep::Tok { bytes: t, rest: buf.skip(i + 1) }
            } else {
                TokenStep::Invalid
            }
        },
    }
}

/// A token already complete in `buf` reads the same when more bytes arrive:
/// only the remaining buffer grows.
pub proof fn lemma_token_extend(buf: Seq<u8>, ext: Seq<u8>, sep: u8)
    ensures
        match spec_token(buf, sep) {
            TokenStep::NeedMore => true,
            TokenStep::Invalid => spec_token(buf + ext, sep) == TokenStep::Invalid,
            TokenStep::Tok { bytes, rest } => spec_token(buf + ext, sep) == (TokenStep::Tok {
                bytes,
                rest: rest + ext,
            }),
        },
{
    lemma_find_byte(buf, sep);
    if let Some(i) = find_byte(buf, sep) {
        assert((buf + ext)[i] == sep);
        assert(forall|j: int| 0 <= j < i ==> (buf + ext)[j] == buf[j]);
        lemma_find_byte_at(buf + ext, sep, i);
        assert((buf + ext).take(i) =~= buf.take(i));
        assert((buf + ext).skip(i + 1) =~= buf.skip(i + 1) + ext);
    }
}

/// A separator for the command position: space or line feed, so that
/// commands without arguments end at their line's end.
pub open spec fn is_sep(b: u8) -> bool {
    b == SP || b == LF
}

/// Executable twin of [`is_sep`].
pub fn sep_byte(b: u8) -> (r: bool)
    ensures
        r == is_sep(b),
{
    b == SP || b == LF
}

/// Index of the first command separator in `buf`, if any.
pub open spec fn find_sep(buf: Seq<u8>) -> Option<int>
    decreases buf.len(),
{
    if buf.len() == 0 {
        None
    } else if is_sep(buf[0]) {
        Some(0int)
    } else {
        match find_sep(buf.drop_first()) {
            None => None,
            Some(i) => Some(i + 1),
        }
    }
}

/// What [`find_sep`] returns is the least index holding a separator.
pub proof fn lemma_find_sep(buf: Seq<u8>)
    ensures
        match find_sep(buf) {
            None => forall|j: int| 0 <= j < buf.len() ==> !is_sep(buf[j]),
            Some(i) => 0 <= i < buf.len() && is_sep(buf[i]) && (forall|j: int|
                0 <= j < i ==> !is_sep(buf[j])),
        },
    decreases buf.len(),
{
    if buf.len() > 0 && !is_sep(buf[0]) {
        lemma_find_sep(buf.drop_first());
        assert(forall|j: int| 1 <= j < buf.len() ==> buf[j] == buf.drop_first()[j - 1]);
    }
}

/// Conversely, the least index holding a separator is what [`find_sep`]
/// returns.
pub proof fn lemma_find_sep_at(buf: Seq<u8>, i: int)
    requires
        0 <= i < buf.len(),
        is_sep(buf[i]),
        forall|j: int| 0 <= j < i ==> !is_sep(buf[j]),
    ensures
        find_sep(buf) == Some(i),
    decreases buf.len(),
{
    if i > 0 {
        assert(forall|j: int| 0 <= j < buf.drop_first().len() ==> buf.drop_first()[j] == buf[j + 1]);
        lemma_find_sep_at(buf.drop_first(), i - 1);
    }
}

/// The command token: leading ASCII whitespace skipped, then the bytes up to
/// the first space or line feed, trailing whitespace trimmed, the separator
/// consumed.
pub open spec fn spec_cmd_token(buf: Seq<u8>) -> TokenStep {
    let s = trim_start_ws(buf);
    match find_sep(s) {
        None => TokenStep::NeedMore,
        Some(i) => {
            let t = trim_end_ws(s.take(i));
            if valid_utf8(t) {
                TokenStep::Tok { bytes: t, rest: s.skip(i + 1) }
            } else {
                TokenStep::Invalid
            }
        },
    }
}

/// Dropping leading whitespace from joined buffers: the left part decides
/// unless it is all whitespace.
pub proof fn lemma_trim_start_concat(a: Seq<u8>, b: Seq<u8>)
    ensures
        trim_start_ws(a + b) == (if trim_start_ws(a).len() > 0 {
            trim_start_ws(a) + b
        } else {
            trim_start_ws(b)
        }),
    decreases a.len(),
{
    if a.len() == 0 {
        assert(a + b =~= b);
    } else if is_ws(a[0]) {
        assert((a + b)[0] == a[0]);
        assert((a + b).drop_first() =~= a.drop_first() + b);
        lemma_trim_start_concat(a.drop_first(), b);
    } else {
        assert((a + b)[0] == a[0]);
        assert(trim_start_ws(a + b) == a + b);
        assert(trim_start_ws(a) == a);
    }
}

/// A command token already complete in `buf` reads the same when more bytes
/// arrive: only the remaining buffer grows.
pub proof fn lemma_cmd_token_extend(buf: Seq<u8>, ext: Seq<u8>)
    ensures
        match spec_cmd_token(buf) {
            TokenStep::NeedMore => true,
            TokenStep::Invalid => spec_cmd_token(buf + ext) == TokenStep::Invalid,
            TokenStep::Tok { bytes, rest } => spec_cmd_token(buf + ext) == (TokenStep::Tok {
                bytes,
                rest: rest + ext,
            }),
        },
{
    lemma_trim_start_concat(buf, ext);
    let s = trim_start_ws(buf);
    lemma_find_sep(s);
    if let Some(i) = find_sep(s) {
        assert(trim_start_ws(buf + ext) == s + ext);
        assert((s + ext)[i] == s[i]);
        assert(forall|j: int| 0 <= j < i ==> (s + ext)[j] == s[j]);
        lemma_find_sep_at(s + ext, i);
        assert((s + ext).take(i) =~= s.take(i));
        assert((s + ext).skip(i + 1) =~= s.skip(i + 1) + ext);
    }
}

/// Reads the command token off the front of `src`, per [`spec_cmd_token`].
pub fn take_cmd_token(src: &mut Vec<u8>) -> (r: Result<Option<String>, DecodeError>)
    ensures
        match spec_cmd_token(old(src)@) {
            TokenStep::NeedMore => r == Ok::<Option<String>, DecodeError>(None) && final(src)@
                == old(src)@,
            TokenStep::Invalid => r == Err::<Option<String>, DecodeError>(DecodeError::Utf8),
            TokenStep::Tok { bytes, rest } => {
                &&& r matches Ok(Some(s)) && encode_utf8(s@) == bytes
                &&& final(src)@ == rest
            },
        },
{
    let n: usize = src.len();
    let mut st: usize = 0;
    while st < n && ws_byte(src[st])
        invariant
            st <= n == src@.len(),
            src@ == old(src)@,
            forall|j: int| 0 <= j < st ==> is_ws(src@[j]),
        decreases n - st,
    {
        st += 1;
    }
    proof {
        lemma_trim_start_skip(src@, st as int);
    }
    let ghost s = src@.skip(st as int);
    proof {
        assert(forall|j: int| 0 <= j < s.len() ==> s[j] == src@[st + j]);
    }
    let mut k: usize = st;
    while k < n && !sep_byte(src[k])
        invariant
            st <= k <= n == src@.len(),
            src@ == old(src)@,
            forall|j: int| st <= j < k ==> !is_sep(src@[j]),
        decreases n - k,
    {
        k += 1;
    }
    if k == n {
        proof {
            lemma_find_sep(s);
        }
        return Ok(None);
    }
    proof {
        lemma_find_sep_at(s, k - st);
    }
    let mut e: usize = k;
    while e > st && ws_byte(src[e - 1])
        invariant
            st <= e <= k < src@.len(),
            src@ == old(src)@,
            forall|j: int| e <= j < k ==> is_ws(src@[j]),
        decreases e,
    {
        e -= 1;
    }
    proof {
        lemma_trim_end_take(s, e - st, k - st);
        assert(s.take(e - st) =~= src@.subrange(st as int, e as int));
        assert(s.take(k - st) =~= src@.subrange(st as int, k as int));
    }
    let mut tok: Vec<u8> = Vec::new();
    let mut i: usize = st;
    while i < e
        invariant
            st <= i <= e <= src@.len(),
            src@ == old(src)@,
            tok@ == src@.subrange(st as int, i as int),
        decreases e - i,
    {
        tok.push(src[i]);
        assert(tok@ =~= src@.subrange(st as int, i + 1));
        i += 1;
    }
    let mut rest: Vec<u8> = Vec::new();
    let mut k2: usize = k + 1;
    while k2 < n
        invariant
            k + 1 <= k2 <= n == src@.len(),
            src@ == old(src)@,
            rest@ == src@.subrange(k + 1, k2 as int),
        decreases n - k2,
    {
        rest.push(src[k2]);
        assert(rest@ =~= src@.subrange(k + 1, k2 + 1));
        k2 += 1;
    }
    proof {
        assert(rest@ =~= s.skip(k - st + 1));
    }
    *src = rest;
    match string_from_utf8(tok) {
        Some(cmd) => Ok(Some(cmd)),
        None => Err(DecodeError::Utf8),
    }
}

/// Relies on `String::from_utf8` from std: it succeeds exactly on UTF-8
/// input and returns the string holding exactly the given bytes.
#[verifier::external_body]
pub(crate) fn string_from_utf8(v: Vec<u8>) -> (r: Option<String>)
    ensures
        r is Some <==> valid_utf8(v@),
        r matches Some(s) ==> encode_utf8(s@) == v@,
{
    match String::from_utf8(v) {
        Ok(s) => Some(s),
        Err(_) => None,
    }
}

/// Reads one `sep`-terminated token off the front of `src`, per
/// [`spec_token`]: the token bytes (trailing ASCII whitespace trimmed) are
/// decoded as UTF-8, and the consumed bytes leave the buffer.
pub fn take_token(src: &mut Vec<u8>, sep: u8) -> (r: Result<Option<String>, DecodeError>)
    ensures
        match spec_token(old(src)@, sep) {
            TokenStep::NeedMore => r == Ok::<Option<String>, DecodeError>(None) && final(src)@
                == old(src)@,
            TokenStep::Invalid => r == Err::<Option<String>, DecodeError>(DecodeError::Utf8),
            TokenStep::Tok { bytes, rest } => {
                &&& r matches Ok(Some(s)) && encode_utf8(s@) == bytes
                &&& final(src)@ == rest
            },
        },
{
    let idx: usize = match position_byte(src, sep) {
        None => {
            return Ok(None);
        },
        Some(i) => i,
    };
    proof {
        lemma_find_byte(src@, sep);
    }
    let mut e: usize = idx;
    while e > 0 && ws_byte(src[e - 1])
        invariant
            e <= idx < src.len(),
            src@ == old(src)@,
            forall|j: int| e <= j < idx ==> is_ws(src@[j]),
        decreases e,
    {
        e -= 1;
    }
    let mut tok: Vec<u8> = Vec::new();
    let mut k: usize = 0;
    while k < e
        invariant
            k <= e <= src.len(),
            src@ == old(src)@,
            tok@ == src@.take(k as int),
        decreases e - k,
    {
        tok.push(src[k]);
        assert(tok@ =~= src@.take(k + 1));
        k += 1;
    }
    proof {
        lemma_trim_end_take(src@, e as int, idx as int);
    }
    let n: usize = src.len();
    let mut rest: Vec<u8> = Vec::new();
    let mut k2: usize = idx + 1;
    while k2 < n
        invariant
            idx + 1 <= k2 <= n == src.len(),
            src@ == old(src)@,
            rest@ == src@.subrange(idx + 1, k2 as int),
        decreases n - k2,
    {
        rest.push(src[k2]);
        assert(rest@ =~= src@.subrange(idx + 1, k2 + 1));
        k2 += 1;
    }
    proof {
        assert(rest@ =~= old(src)@.skip(idx + 1));
    }
    *src = rest;
    match string_from_utf8(tok) {
        Some(s) => Ok(Some(s)),
        None => Err(DecodeError::Utf8),
    }
}

} // verus!
