//! Decimal integer tokens: parsing with the exact semantics of `from_str`
//! on the primitive integer types, and rendering back to decimal text.

use vstd::prelude::*;
use vstd::utf8::valid_utf8;
use vstd::utf8::decode_utf8;
use vstd::utf8::encode_utf8;
use vstd::utf8::is_ascii_chars;
use vstd::utf8::is_ascii_chars_encode_utf8;
use vstd::utf8::encode_utf8_valid_utf8;
use vstd::utf8::encode_utf8_decode_utf8;
use crate::scan::DecodeError;

verus! {

/// Outcome of parsing a decimal token, at the specification level.
pub enum ParsedInt {
    /// The token is a number in range; the mathematical value.
    Value(int),
    /// Some character is not a decimal digit (including a lone or misplaced
    /// sign): the token does not look like a number at all.
    NotDigit,
    /// The token is empty, or the number falls outside the target range.
    OutOfRange,
}

/// An ASCII decimal digit.
pub open spec fn is_digit(b: u8) -> bool {
    0x30 <= b <= 0x39
}

/// Digit-by-digit accumulation from `acc`, bounded by `max`, exactly as the
/// standard parser walks a token: the first non-digit wins over a later
/// overflow, and an overflow at some digit wins over a later non-digit.
pub open spec fn parse_digits(s: Seq<u8>, acc: int, max: int) -> ParsedInt
    decreases s.len(),
{
    if s.len() == 0 {
        ParsedInt::Value(acc)
    } else if !is_digit(s[0]) {
        ParsedInt::NotDigit
    } else {
        let acc2 = acc * 10 + (s[0] - 0x30);
        if acc2 > max {
            ParsedInt::OutOfRange
        } else {
            parse_digits(s.drop_first(), acc2, max)
        }
    }
}

/// Parsing a decimal token with an optional sign, over the byte range
/// `min ..= max`. A leading `-` is only recognised when `signed`; a negative
/// number accumulates against `-min` so that the tightest value (such as the
/// most negative 64-bit integer) is still accepted.
pub open spec fn parse_int(s: Seq<u8>, signed: bool, min: int, max: int) -> ParsedInt {
    if s.len() == 0 {
        ParsedInt::OutOfRange
    } else {
        let neg = s[0] == 0x2du8;
        let has_sign = s[0] == 0x2bu8 || neg;
        let ds = if has_sign {
            s.drop_first()
        } else {
            s
        };
        if neg && !signed {
            ParsedInt::NotDigit
        } else if ds.len() == 0 {
            ParsedInt::NotDigit
        } else if neg {
            match parse_digits(ds, 0, -min) {
                ParsedInt::Value(m) => ParsedInt::Value(-m),
                o => o,
            }
        } else {
            parse_digits(ds, 0, max)
        }
    }
}

/// A successful accumulation never leaves the range `0 ..= max`.
pub proof fn lemma_parse_digits_bounds(s: Seq<u8>, acc: int, max: int)
    requires
        0 <= acc <= max,
    ensures
        parse_digits(s, acc, max) matches ParsedInt::Value(v) ==> 0 <= v <= max,
    decreases s.len(),
{
    if s.len() > 0 && is_digit(s[0]) {
        let acc2 = acc * 10 + (s[0] - 0x30);
        if acc2 <= max {
            lemma_parse_digits_bounds(s.drop_first(), acc2, max);
        }
    }
}

/// A parse that succeeds yields a value in the requested range.
pub proof fn lemma_parse_int_bounds(s: Seq<u8>, signed: bool, min: int, max: int)
    requires
        min <= 0 <= max,
    ensures
        parse_int(s, signed, min, max) matches ParsedInt::Value(v) ==> min <= v <= max,
{
    if s.len() > 0 {
        let neg = s[0] == 0x2du8;
        let has_sign = s[0] == 0x2bu8 || neg;
        let ds = if has_sign {
            s.drop_first()
        } else {
            s
        };
        if neg && signed {
            lemma_parse_digits_bounds(ds, 0, -min);
        } else {
            lemma_parse_digits_bounds(ds, 0, max);
        }
    }
}

/// A signed 64-bit parse that succeeds yields a representable value.
pub proof fn lemma_parse_i64_bounds(s: Seq<u8>)
    ensures
        parse_int(s, true, i64::MIN as int, i64::MAX as int) matches ParsedInt::Value(v)
            ==> i64::MIN <= v <= i64::MAX,
{
    if s.len() > 0 {
        let neg = s[0] == 0x2du8;
        let has_sign = s[0] == 0x2bu8 || neg;
        let ds = if has_sign {
            s.drop_first()
        } else {
            s
        };
        if neg {
            lemma_parse_digits_bounds(ds, 0, -(i64::MIN as int));
        } else {
            lemma_parse_digits_bounds(ds, 0, i64::MAX as int);
        }
    }
}

/// Magnitude accumulation outcome, executable.
pub enum ParseMag {
    Val(u64),
    NotDigit,
    OutOfRange,
}

/// Accumulates the digits of `b` from index `st` on, stopping at `max`,
/// mirroring [`parse_digits`].
fn parse_mag(b: &[u8], st: usize, max: u64) -> (r: ParseMag)
    requires
        st <= b@.len(),
    ensures
        match parse_digits(b@.skip(st as int), 0, max as int) {
            ParsedInt::Value(v) => r == ParseMag::Val(v as u64),
            ParsedInt::NotDigit => r == ParseMag::NotDigit,
            ParsedInt::OutOfRange => r == ParseMag::OutOfRange,
        },
{
    let q: u64 = max / 10;
    let rr: u64 = max % 10;
    let n: usize = b.len();
    let mut acc: u64 = 0;
    let mut k: usize = st;
    while k < n
        invariant
            st <= k <= n == b@.len(),
            acc <= max,
            q == max / 10,
            rr == max % 10,
            parse_digits(b@.skip(st as int), 0, max as int) == parse_digits(
                b@.skip(k as int),
                acc as int,
                max as int,
            ),
        decreases n - k,
    {
        let d: u8 = b[k];
        assert(b@.skip(k as int)[0] == b@[k as int]);
        if d < 0x30 || d > 0x39 {
            return ParseMag::NotDigit;
        }
        let dv: u64 = (d - 0x30) as u64;
        if acc > q || (acc == q && dv > rr) {
            assert(acc * 10 + dv > max);
            return ParseMag::OutOfRange;
        }
        assert(acc * 10 + dv <= max);
        assert(b@.skip(k as int).drop_first() =~= b@.skip(k + 1));
        acc = acc * 10 + dv;
        k += 1;
    }
    assert(b@.skip(n as int) =~= Seq::<u8>::empty());
    ParseMag::Val(acc)
}

/// Parses a 32-bit unsigned decimal token, as `from_str` would: `Ok(None)`
/// stands for a token that is not a number, `Err` for an empty or
/// out-of-range one.
pub fn parse_u32_token(s: &str) -> (r: Result<Option<u32>, DecodeError>)
    ensures
        match parse_int(encode_utf8(s@), false, 0, u32::MAX as int) {
            ParsedInt::Value(v) => 0 <= v <= u32::MAX && r == Ok::<Option<u32>, DecodeError>(
                Some(v as u32),
            ),
            ParsedInt::NotDigit => r == Ok::<Option<u32>, DecodeError>(None),
            ParsedInt::OutOfRange => r == Err::<Option<u32>, DecodeError>(DecodeError::Integer),
        },
{
    let b: &[u8] = s.as_bytes();
    if b.len() == 0 {
        return Err(DecodeError::Integer);
    }
    if b[0] == 0x2d {
        return Ok(None);
    }
    let st: usize = if b[0] == 0x2b {
        1
    } else {
        0
    };
    proof {
        if st == 1 {
            assert(b@.skip(1) =~= b@.drop_first());
        } else {
            assert(b@.skip(0) =~= b@);
        }
    }
    if b.len() == st {
        return Ok(None);
    }
    proof {
        lemma_parse_digits_bounds(b@.skip(st as int), 0, u32::MAX as int);
    }
    match parse_mag(b, st, 0xffff_ffffu64) {
        ParseMag::Val(v) => Ok(Some(v as u32)),
        ParseMag::NotDigit => Ok(None),
        ParseMag::OutOfRange => Err(DecodeError::Integer),
    }
}

/// Parses a 64-bit unsigned decimal token, as `from_str` would.
pub fn parse_u64_token(s: &str) -> (r: Result<Option<u64>, DecodeError>)
    ensures
        match parse_int(encode_utf8(s@), false, 0, u64::MAX as int) {
            ParsedInt::Value(v) => 0 <= v <= u64::MAX && r == Ok::<Option<u64>, DecodeError>(
                Some(v as u64),
            ),
            ParsedInt::NotDigit => r == Ok::<Option<u64>, DecodeError>(None),
            ParsedInt::OutOfRange => r == Err::<Option<u64>, DecodeError>(DecodeError::Integer),
        },
{
    let b: &[u8] = s.as_bytes();
    if b.len() == 0 {
        return Err(DecodeError::Integer);
    }
    if b[0] == 0x2d {
        return Ok(None);
    }
    let st: usize = if b[0] == 0x2b {
        1
    } else {
        0
    };
    proof {
        if st == 1 {
            assert(b@.skip(1) =~= b@.drop_first());
        } else {
            assert(b@.skip(0) =~= b@);
        }
    }
    if b.len() == st {
        return Ok(None);
    }
    proof {
        lemma_parse_digits_bounds(b@.skip(st as int), 0, u64::MAX as int);
    }
    match parse_mag(b, st, 0xffff_ffff_ffff_ffffu64) {
        ParseMag::Val(v) => Ok(Some(v)),
        ParseMag::NotDigit => Ok(None),
        ParseMag::OutOfRange => Err(DecodeError::Integer),
    }
}

/// Parses a 64-bit signed decimal token, as `from_str` would.
pub fn parse_i64_token(s: &str) -> (r: Result<Option<i64>, DecodeError>)
    ensures
        match parse_int(encode_utf8(s@), true, i64::MIN as int, i64::MAX as int) {
            ParsedInt::Value(v) => i64::MIN <= v <= i64::MAX && r == Ok::<Option<i64>, DecodeError>(
                Some(v as i64),
            ),
            ParsedInt::NotDigit => r == Ok::<Option<i64>, DecodeError>(None),
            ParsedInt::OutOfRange => r == Err::<Option<i64>, DecodeError>(DecodeError::Integer),
        },
{
    let b: &[u8] = s.as_bytes();
    if b.len() == 0 {
        return Err(DecodeError::Integer);
    }
    let neg: bool = b[0] == 0x2d;
    let st: usize = if b[0] == 0x2b || neg {
        1
    } else {
        0
    };
    proof {
        if st == 1 {
            assert(b@.skip(1) =~= b@.drop_first());
        } else {
            assert(b@.skip(0) =~= b@);
        }
    }
    if b.len() == st {
        return Ok(None);
    }
    if neg {
        proof {
            lemma_parse_digits_bounds(b@.skip(st as int), 0, 0x8000_0000_0000_0000int);
        }
        match parse_mag(b, st, 0x8000_0000_0000_0000u64) {
            ParseMag::Val(m) => {
                let v: i64 = if m == 0x8000_0000_0000_0000u64 {
                    i64::MIN
                } else {
                    -(m as i64)
                };
                Ok(Some(v))
            },
            ParseMag::NotDigit => Ok(None),
            ParseMag::OutOfRange => Err(DecodeError::Integer),
        }
    } else {
        proof {
            lemma_parse_digits_bounds(b@.skip(st as int), 0, i64::MAX as int);
        }
        match parse_mag(b, st, 0x7fff_ffff_ffff_ffffu64) {
            ParseMag::Val(m) => Ok(Some(m as i64)),
            ParseMag::NotDigit => Ok(None),
            ParseMag::OutOfRange => Err(DecodeError::Integer),
        }
    }
}

/// The decimal digit bytes of `n`, most significant first.
pub open spec fn dec_digits(n: nat) -> Seq<u8>
    decreases n,
{
    if n < 10 {
        seq![(0x30 + n) as u8]
    } else {
        dec_digits(n / 10) + seq![(0x30 + n % 10) as u8]
    }
}

/// The bytes of a sequence read as characters, one per byte; meaningful for
/// ASCII bytes.
pub open spec fn ascii_chars(b: Seq<u8>) -> Seq<char> {
    Seq::new(b.len(), |i: int| b[i] as char)
}

/// The decimal text of `n`, as characters.
pub open spec fn dec_chars(n: nat) -> Seq<char> {
    ascii_chars(dec_digits(n))
}

/// The decimal digit bytes of a signed value, `-` first when negative.
pub open spec fn dec_digits_i64(v: int) -> Seq<u8> {
    if v < 0 {
        seq![0x2du8] + dec_digits((-v) as nat)
    } else {
        dec_digits(v as nat)
    }
}

/// The decimal text of a signed value, as characters.
pub open spec fn dec_chars_i64(v: int) -> Seq<char> {
    ascii_chars(dec_digits_i64(v))
}

/// Every byte of [`dec_digits`] is a decimal digit.
pub proof fn lemma_dec_digits_range(n: nat)
    ensures
        dec_digits(n).len() >= 1,
        forall|i: int| 0 <= i < dec_digits(n).len() ==> is_digit(#[trigger] dec_digits(n)[i]),
    decreases n,
{
    if n >= 10 {
        lemma_dec_digits_range(n / 10);
    }
}

/// A sequence of bytes below `0x80` is valid UTF-8, and encoding and
/// decoding exchange it byte-for-byte with [`ascii_chars`].
pub proof fn lemma_ascii_bytes(b: Seq<u8>)
    requires
        forall|i: int| 0 <= i < b.len() ==> b[i] < 0x80,
    ensures
        valid_utf8(b),
        encode_utf8(ascii_chars(b)) == b,
        decode_utf8(b) == ascii_chars(b),
{
    let cs = ascii_chars(b);
    assert forall|i: int| 0 <= i < cs.len() implies '\0' <= #[trigger] cs[i] <= '\u{7f}' by {
        assert(cs[i] == b[i] as char);
    }
    assert(is_ascii_chars(cs));
    is_ascii_chars_encode_utf8(cs);
    assert forall|i: int| 0 <= i < cs.len() implies #[trigger] encode_utf8(cs)[i] == b[i] by {
        assert(cs[i] as u8 == encode_utf8(cs)[i]);
    }
    assert(encode_utf8(cs) =~= b);
    encode_utf8_valid_utf8(cs);
    encode_utf8_decode_utf8(cs);
}

/// The digit bytes of `n`, most significant first.
fn dec_bytes_u64(n: u64) -> (v: Vec<u8>)
    ensures
        v@ == dec_digits(n as nat),
{
    let mut digs: Vec<u8> = Vec::new();
    let mut m: u64 = n;
    let ghost mut suffix: Seq<u8> = Seq::empty();
    proof {
        assert(dec_digits(n as nat) =~= dec_digits(m as nat) + suffix);
    }
    loop
        invariant_except_break
            dec_digits(n as nat) == dec_digits(m as nat) + suffix,
        invariant
            digs@.len() == suffix.len(),
            forall|i: int| 0 <= i < suffix.len() ==> digs@[i] == suffix[suffix.len() - 1 - i],
        ensures
            dec_digits(n as nat) == suffix,
        decreases m,
    {
        let d: u8 = (m % 10) as u8 + 0x30;
        digs.push(d);
        proof {
            if m < 10 {
                assert(dec_digits(m as nat) =~= seq![d]);
                assert(dec_digits(n as nat) =~= seq![d] + suffix);
            } else {
                assert(dec_digits(m as nat) == dec_digits((m as nat) / 10) + seq![d]);
                assert((m / 10) as nat == (m as nat) / 10);
                assert(dec_digits(n as nat) =~= dec_digits((m as nat) / 10) + (seq![d] + suffix));
            }
            suffix = seq![d] + suffix;
        }
        m = m / 10;
        if m == 0 {
            break;
        }
    }
    let len: usize = digs.len();
    let mut out: Vec<u8> = Vec::new();
    let mut k: usize = 0;
    while k < len
        invariant
            k <= len == digs@.len(),
            digs@.len() == suffix.len(),
            forall|i: int| 0 <= i < suffix.len() ==> digs@[i] == suffix[suffix.len() - 1 - i],
            out@ == suffix.take(k as int),
        decreases len - k,
    {
        out.push(digs[len - 1 - k]);
        assert(out@ =~= suffix.take(k + 1));
        k += 1;
    }
    proof {
        assert(out@ =~= suffix);
    }
    out
}

/// Renders `n` in decimal.
pub fn u64_to_string(n: u64) -> (s: String)
    ensures
        encode_utf8(s@) == dec_digits(n as nat),
        s@ == dec_chars(n as nat),
{
    let v = dec_bytes_u64(n);
    proof {
        lemma_dec_digits_range(n as nat);
        lemma_ascii_bytes(v@);
    }
    match crate::scan::string_from_utf8(v) {
        Some(s) => {
            proof {
                encode_utf8_decode_utf8(s@);
            }
            s
        },
        None => vstd::pervasive::unreached(),
    }
}

/// Renders `n` in decimal, with a leading `-` when negative.
pub fn i64_to_string(n: i64) -> (s: String)
    ensures
        encode_utf8(s@) == dec_digits_i64(n as int),
        s@ == dec_chars_i64(n as int),
{
    if n >= 0 {
        let s = u64_to_string(n as u64);
        return s;
    }
    let m: u64 = if n == i64::MIN {
        0x8000_0000_0000_0000u64
    } else {
        (-n) as u64
    };
    let digs = dec_bytes_u64(m);
    let mut v: Vec<u8> = Vec::new();
    v.push(0x2d);
    let len: usize = digs.len();
    let mut k: usize = 0;
    while k < len
        invariant
            k <= len == digs@.len(),
            v@ == seq![0x2du8] + digs@.take(k as int),
        decreases len - k,
    {
        v.push(digs[k]);
        assert(v@ =~= seq![0x2du8] + digs@.take(k + 1));
        k += 1;
    }
    proof {
        assert(digs@.take(len as int) =~= digs@);
        assert(v@ =~= dec_digits_i64(n as int));
        lemma_dec_digits_range(m as nat);
        lemma_ascii_bytes(v@);
    }
    match crate::scan::string_from_utf8(v) {
        Some(s) => {
            proof {
                encode_utf8_decode_utf8(s@);
            }
            s
        },
        None => vstd::pervasive::unreached(),
    }
}

/// Sequential composition of digit parsing: a run that accumulates `s`
/// without overflow continues through `t` from the value reached.
pub proof fn lemma_parse_append(s: Seq<u8>, t: Seq<u8>, acc: int, max: int)
    requires
        parse_digits(s, acc, max) is Value,
    ensures
        parse_digits(s + t, acc, max) == parse_digits(t, parse_digits(s, acc, max)->Value_0, max),
    decreases s.len(),
{
    if s.len() == 0 {
        assert(s + t =~= t);
    } else {
        assert((s + t)[0] == s[0]);
        let acc2 = acc * 10 + (s[0] - 0x30);
        assert((s + t).drop_first() =~= s.drop_first() + t);
        lemma_parse_append(s.drop_first(), t, acc2, max);
    }
}

/// Parsing the decimal digits of `m` yields `m`, whenever `m` is in range.
pub proof fn lemma_parse_dec_digits(m: nat, max: int)
    requires
        m <= max,
    ensures
        parse_digits(dec_digits(m), 0, max) == ParsedInt::Value(m as int),
    decreases m,
{
    lemma_dec_digits_range(m);
    if m < 10 {
        let s = dec_digits(m);
        assert(s =~= seq![(0x30 + m) as u8]);
        assert(s[0] == 0x30 + m);
        assert(is_digit(s[0]));
        assert(s.drop_first() =~= Seq::<u8>::empty());
        assert(0 * 10 + (s[0] - 0x30) == m as int);
        assert(parse_digits(s.drop_first(), m as int, max) == ParsedInt::Value(m as int));
        assert(parse_digits(s, 0, max) == ParsedInt::Value(m as int));
    } else {
        lemma_parse_dec_digits(m / 10, max);
        let d = (0x30 + m % 10) as u8;
        let tail = seq![d];
        assert(dec_digits(m) == dec_digits(m / 10) + tail);
        lemma_parse_append(dec_digits(m / 10), tail, 0, max);
        assert(tail[0] == d);
        assert(m % 10 < 10);
        assert(tail[0] == 0x30 + m % 10);
        assert(is_digit(tail[0]));
        vstd::arithmetic::div_mod::lemma_fundamental_div_mod(m as int, 10);
        assert(((m / 10) as int) * 10 + (tail[0] - 0x30) == m as int);
        assert(tail.drop_first() =~= Seq::<u8>::empty());
        assert(parse_digits(tail.drop_first(), m as int, max) == ParsedInt::Value(m as int));
        assert(parse_digits(tail, (m / 10) as int, max) == ParsedInt::Value(m as int));
        assert(parse_digits(dec_digits(m), 0, max) == ParsedInt::Value(m as int));
    }
}

/// Round trip: the decimal text of a signed 64-bit value parses back to the
/// value itself.
pub proof fn lemma_parse_dec_i64(v: int)
    requires
        i64::MIN <= v <= i64::MAX,
    ensures
        parse_int(dec_digits_i64(v), true, i64::MIN as int, i64::MAX as int) == ParsedInt::Value(v),
        encode_utf8(dec_chars_i64(v)) == dec_digits_i64(v),
{
    if v < 0 {
        lemma_dec_digits_range((-v) as nat);
        let s = dec_digits_i64(v);
        assert(s[0] == 0x2du8);
        assert(s.drop_first() =~= dec_digits((-v) as nat));
        lemma_parse_dec_digits((-v) as nat, -(i64::MIN as int));
    } else {
        lemma_dec_digits_range(v as nat);
        let s = dec_digits_i64(v);
        assert(s[0] != 0x2du8 && s[0] != 0x2bu8);
        lemma_parse_dec_digits(v as nat, i64::MAX as int);
    }
    proof_dec_bytes_ascii(v);
}

/// The decimal bytes of a signed value are ASCII, so the character and byte
/// forms correspond.
proof fn proof_dec_bytes_ascii(v: int)
    ensures
        encode_utf8(dec_chars_i64(v)) == dec_digits_i64(v),
{
    if v < 0 {
        lemma_dec_digits_range((-v) as nat);
    } else if v >= 0 {
        lemma_dec_digits_range(v as nat);
    }
    lemma_ascii_bytes(dec_digits_i64(v));
}

} // verus!
