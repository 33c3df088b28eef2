//! Laws of the stream decoder: a request already complete in the buffer is
//! unmoved by bytes arriving after it, an interrupted attempt resumes
//! exactly where it stopped, and from these, fragmentation invariance,
//! concatenation, trailing-bytes preservation, and the transparency of the
//! data block.

use vstd::prelude::*;
use vstd::utf8::valid_utf8;
use vstd::utf8::encode_utf8;
use vstd::utf8::is_ascii_chars;
use vstd::utf8::is_ascii_chars_encode_utf8;
use crate::codec::CodecV;
use crate::codec::StepV;
use crate::codec::WriteStepV;
use crate::codec::KeyStepV;
use crate::codec::DiffStepV;
use crate::codec::IntTok;
use crate::codec::spec_str_token;
use crate::codec::spec_cmd_slot_token;
use crate::codec::spec_int_token;
use crate::codec::spec_decode;
use crate::codec::spec_dispatch;
use crate::codec::spec_decode_write;
use crate::codec::spec_decode_key;
use crate::codec::spec_decode_diff;
use crate::codec::u32_opt;
use crate::codec::u64_opt;
use crate::codec::i64_opt;
use crate::codec::is_write_cmd;
use crate::codec::lit_bytes;
use crate::codec::spec_encode;
use crate::handler::WriteOptions;
use crate::numbers::lemma_parse_int_bounds;
use crate::request::ReqV;
use crate::response::RespV;
use crate::response::ErrorV;
use crate::scan::SP;
use crate::scan::LF;
use crate::scan::TokenStep;
use crate::scan::lemma_token_extend;
use crate::scan::spec_token;
use crate::scan::lemma_find_byte_at;
use crate::scan::lemma_trim_end_take;
use crate::scan::is_ws;
use crate::scan::lemma_cmd_token_extend;
use crate::scan::trim_start_ws;

verus! {

/// A slot-or-buffer token already found is unmoved by later bytes.
proof fn lemma_str_token_extend(slot: Option<Seq<u8>>, buf: Seq<u8>, ext: Seq<u8>, sep: u8)
    ensures
        spec_str_token(slot, buf, sep) matches TokenStep::Tok { bytes, rest }
            ==> spec_str_token(slot, buf + ext, sep) == (TokenStep::Tok {
            bytes,
            rest: rest + ext,
        }),
        spec_str_token(slot, buf, sep) is Invalid ==> spec_str_token(slot, buf + ext, sep)
            is Invalid,
{
    lemma_token_extend(buf, ext, sep);
}

/// The command token, slot or buffer, is unmoved by later bytes.
proof fn lemma_cmd_slot_extend(slot: Option<Seq<u8>>, buf: Seq<u8>, ext: Seq<u8>)
    ensures
        spec_cmd_slot_token(slot, buf) matches TokenStep::Tok { bytes, rest }
            ==> spec_cmd_slot_token(slot, buf + ext) == (TokenStep::Tok {
            bytes,
            rest: rest + ext,
        }),
        spec_cmd_slot_token(slot, buf) is Invalid ==> spec_cmd_slot_token(slot, buf + ext)
            is Invalid,
{
    lemma_cmd_token_extend(buf, ext);
}

/// A slot-or-buffer integer already settled is unmoved by later bytes.
proof fn lemma_int_token_extend(
    slot: Option<int>,
    buf: Seq<u8>,
    ext: Seq<u8>,
    sep: u8,
    signed: bool,
    min: int,
    max: int,
)
    ensures
        spec_int_token(slot, buf, sep, signed, min, max) matches IntTok::Have { v, rest }
            ==> spec_int_token(slot, buf + ext, sep, signed, min, max) == (IntTok::Have {
            v,
            rest: rest + ext,
        }),
        spec_int_token(slot, buf, sep, signed, min, max) matches IntTok::Skip { rest }
            ==> spec_int_token(slot, buf + ext, sep, signed, min, max) == (IntTok::Skip {
            rest: rest + ext,
        }),
        spec_int_token(slot, buf, sep, signed, min, max) is Bad ==> spec_int_token(
            slot,
            buf + ext,
            sep,
            signed,
            min,
            max,
        ) is Bad,
{
    lemma_token_extend(buf, ext, sep);
}

/// An integer a stage settles on lies in the stage's range.
proof fn lemma_int_token_have(
    slot: Option<int>,
    buf: Seq<u8>,
    sep: u8,
    signed: bool,
    min: int,
    max: int,
)
    requires
        min <= 0 <= max,
        slot matches Some(v) ==> min <= v <= max,
    ensures
        spec_int_token(slot, buf, sep, signed, min, max) matches IntTok::Have { v, rest } ==> min
            <= v <= max,
{
    match slot {
        Some(_) => {},
        None => {
            match crate::scan::spec_token(buf, sep) {
                TokenStep::Tok { bytes, rest } => {
                    lemma_parse_int_bounds(bytes, signed, min, max);
                },
                _ => {},
            }
        },
    }
}

/// A storage tail already decided (emitted or failed) is unmoved by later
/// bytes; only the leftover buffer grows.
proof fn lemma_write_extend(c: CodecV, b: Seq<u8>, e: Seq<u8>)
    ensures
        spec_decode_write(c, b) matches WriteStepV::Done { key, options, value, rest }
            ==> spec_decode_write(c, b + e) == (WriteStepV::Done {
            key,
            options,
            value,
            rest: rest + e,
        }),
        spec_decode_write(c, b) is Fail ==> spec_decode_write(c, b + e) is Fail,
{
    lemma_str_token_extend(c.key, b, e, SP);
    match spec_str_token(c.key, b, SP) {
        TokenStep::NeedMore => {},
        TokenStep::Invalid => {},
        TokenStep::Tok { bytes: key, rest: b1 } => {
            let c1 = CodecV { key: Some(key), ..c };
            lemma_int_token_extend(u32_opt(c1.flags), b1, e, SP, false, 0, u32::MAX as int);
            match spec_int_token(u32_opt(c1.flags), b1, SP, false, 0, u32::MAX as int) {
                IntTok::NeedMore => {},
                IntTok::Skip { rest } => {},
                IntTok::Bad => {},
                IntTok::Have { v: f, rest: b2 } => {
                    let c2 = CodecV { flags: Some(f as u32), ..c1 };
                    lemma_int_token_extend(u64_opt(c2.expire), b2, e, SP, false, 0, u64::MAX as int);
                    match spec_int_token(u64_opt(c2.expire), b2, SP, false, 0, u64::MAX as int) {
                        IntTok::NeedMore => {},
                        IntTok::Skip { rest } => {},
                        IntTok::Bad => {},
                        IntTok::Have { v: ex, rest: b3 } => {
                            let c3 = CodecV { expire: Some(ex as u64), ..c2 };
                            lemma_int_token_extend(
                                u64_opt(c3.number_of_bytes),
                                b3,
                                e,
                                LF,
                                false,
                                0,
                                u64::MAX as int,
                            );
                            match spec_int_token(
                                u64_opt(c3.number_of_bytes),
                                b3,
                                LF,
                                false,
                                0,
                                u64::MAX as int,
                            ) {
                                IntTok::NeedMore => {},
                                IntTok::Skip { rest } => {},
                                IntTok::Bad => {},
                                IntTok::Have { v: n, rest: b4 } => {
                                    lemma_int_token_have(
                                        u64_opt(c3.number_of_bytes),
                                        b3,
                                        LF,
                                        false,
                                        0,
                                        u64::MAX as int,
                                    );
                                    assert(0 <= n);
                                    if b4.len() >= n {
                                        assert((b4 + e).len() >= n);
                                        assert((b4 + e).take(n) =~= b4.take(n));
                                        assert((b4 + e).skip(n) =~= b4.skip(n) + e);
                                    }
                                },
                            }
                        },
                    }
                },
            }
        },
    }
}

/// An interrupted storage tail, given the bytes under which the whole tail
/// succeeds, resumes from its stopped slots to the same outcome.
proof fn lemma_write_resume(c: CodecV, b: Seq<u8>, e: Seq<u8>, c2: CodecV, b2: Seq<u8>)
    requires
        spec_decode_write(c, b) == (WriteStepV::More { state: c2, rest: b2 }),
        spec_decode_write(c, b + e) is Done,
    ensures
        spec_decode_write(c2, b2 + e) == spec_decode_write(c, b + e),
{
    lemma_str_token_extend(c.key, b, e, SP);
    match spec_str_token(c.key, b, SP) {
        TokenStep::NeedMore => {
            assert(c2 == c && b2 == b);
        },
        TokenStep::Invalid => {
            assert(false);
        },
        TokenStep::Tok { bytes: key, rest: b1 } => {
            let c1 = CodecV { key: Some(key), ..c };
            assert(spec_str_token(c.key, b + e, SP) == (TokenStep::Tok {
                bytes: key,
                rest: b1 + e,
            }));
            lemma_int_token_extend(u32_opt(c1.flags), b1, e, SP, false, 0, u32::MAX as int);
            match spec_int_token(u32_opt(c1.flags), b1, SP, false, 0, u32::MAX as int) {
                IntTok::NeedMore => {
                    assert(c2 == c1 && b2 == b1);
                    assert((CodecV { key: Some(key), ..c1 }) == c1);
                    assert(spec_decode_write(c1, b1 + e) == spec_decode_write(c, b + e));
                },
                IntTok::Skip { rest } => {
                    assert(spec_decode_write(c, b + e) is More);
                    assert(false);
                },
                IntTok::Bad => {
                    assert(false);
                },
                IntTok::Have { v: f, rest: b2f } => {
                    let c2f = CodecV { flags: Some(f as u32), ..c1 };
                    lemma_int_token_extend(u64_opt(c2f.expire), b2f, e, SP, false, 0, u64::MAX as int);
                    match spec_int_token(u64_opt(c2f.expire), b2f, SP, false, 0, u64::MAX as int) {
                        IntTok::NeedMore => {
                            assert(c2 == c2f && b2 == b2f);
                            assert((CodecV { key: Some(key), ..c2f }) == c2f);
                            assert(((f as u32) as int) as u32 == f as u32);
                            assert((CodecV { flags: Some(f as u32), ..c2f }) == c2f);
                            assert(spec_decode_write(c2f, b2f + e) == spec_decode_write(c, b + e));
                        },
                        IntTok::Skip { rest } => {
                            assert(spec_decode_write(c, b + e) is More);
                            assert(false);
                        },
                        IntTok::Bad => {
                            assert(false);
                        },
                        IntTok::Have { v: ex, rest: b3f } => {
                            let c3f = CodecV { expire: Some(ex as u64), ..c2f };
                            lemma_int_token_extend(
                                u64_opt(c3f.number_of_bytes),
                                b3f,
                                e,
                                LF,
                                false,
                                0,
                                u64::MAX as int,
                            );
                            match spec_int_token(
                                u64_opt(c3f.number_of_bytes),
                                b3f,
                                LF,
                                false,
                                0,
                                u64::MAX as int,
                            ) {
                                IntTok::NeedMore => {
                                    assert(c2 == c3f && b2 == b3f);
                                    assert((CodecV { key: Some(key), ..c3f }) == c3f);
                                    assert(((f as u32) as int) as u32 == f as u32);
                                    assert((CodecV { flags: Some(f as u32), ..c3f }) == c3f);
                                    assert(((ex as u64) as int) as u64 == ex as u64);
                                    assert((CodecV { expire: Some(ex as u64), ..c3f }) == c3f);
                                    assert(spec_decode_write(c3f, b3f + e) == spec_decode_write(
                                        c,
                                        b + e,
                                    ));
                                },
                                IntTok::Skip { rest } => {
                                    assert(spec_decode_write(c, b + e) is More);
                                    assert(false);
                                },
                                IntTok::Bad => {
                                    assert(false);
                                },
                                IntTok::Have { v: n, rest: b4f } => {
                                    lemma_int_token_have(
                                        u64_opt(c3f.number_of_bytes),
                                        b3f,
                                        LF,
                                        false,
                                        0,
                                        u64::MAX as int,
                                    );
                                    assert(0 <= n <= u64::MAX);
                                    let c4f = CodecV { number_of_bytes: Some(n as u64), ..c3f };
                                    if b4f.len() < n {
                                        assert(c2 == c4f && b2 == b4f);
                                        assert((CodecV { key: Some(key), ..c4f }) == c4f);
                                        assert(((f as u32) as int) as u32 == f as u32);
                                        assert((CodecV { flags: Some(f as u32), ..c4f }) == c4f);
                                        assert(((ex as u64) as int) as u64 == ex as u64);
                                        assert((CodecV { expire: Some(ex as u64), ..c4f }) == c4f);
                                        assert((n as u64) as int == n);
                                        assert((CodecV { number_of_bytes: Some(n as u64), ..c4f })
                                            == c4f);
                                        assert(spec_decode_write(c4f, b4f + e)
                                            == spec_decode_write(c, b + e));
                                    } else {
                                        assert(false);
                                    }
                                },
                            }
                        },
                    }
                },
            }
        },
    }
}

/// A single-key tail already decided is unmoved by later bytes.
proof fn lemma_key_extend(c: CodecV, b: Seq<u8>, e: Seq<u8>)
    ensures
        spec_decode_key(c, b) matches KeyStepV::Done { key, rest } ==> spec_decode_key(c, b + e)
            == (KeyStepV::Done { key, rest: rest + e }),
        spec_decode_key(c, b) is Fail ==> spec_decode_key(c, b + e) is Fail,
{
    lemma_str_token_extend(c.key, b, e, LF);
}

/// A key-and-delta tail already decided is unmoved by later bytes.
proof fn lemma_diff_extend(c: CodecV, b: Seq<u8>, e: Seq<u8>)
    ensures
        spec_decode_diff(c, b) matches DiffStepV::Done { key, diff, rest } ==> spec_decode_diff(
            c,
            b + e,
        ) == (DiffStepV::Done { key, diff, rest: rest + e }),
        spec_decode_diff(c, b) is Fail ==> spec_decode_diff(c, b + e) is Fail,
{
    lemma_str_token_extend(c.key, b, e, SP);
    match spec_str_token(c.key, b, SP) {
        TokenStep::Tok { bytes: key, rest: b1 } => {
            let c1 = CodecV { key: Some(key), ..c };
            lemma_int_token_extend(
                i64_opt(c1.diff),
                b1,
                e,
                LF,
                true,
                i64::MIN as int,
                i64::MAX as int,
            );
        },
        _ => {},
    }
}

/// An interrupted key-and-delta tail resumes to the same outcome.
proof fn lemma_diff_resume(c: CodecV, b: Seq<u8>, e: Seq<u8>, c2: CodecV, b2: Seq<u8>)
    requires
        spec_decode_diff(c, b) == (DiffStepV::More { state: c2, rest: b2 }),
        spec_decode_diff(c, b + e) is Done,
    ensures
        spec_decode_diff(c2, b2 + e) == spec_decode_diff(c, b + e),
{
    lemma_str_token_extend(c.key, b, e, SP);
    match spec_str_token(c.key, b, SP) {
        TokenStep::NeedMore => {
            assert(c2 == c && b2 == b);
        },
        TokenStep::Invalid => {
            assert(false);
        },
        TokenStep::Tok { bytes: key, rest: b1 } => {
            let c1 = CodecV { key: Some(key), ..c };
            assert(spec_str_token(c.key, b + e, SP) == (TokenStep::Tok {
                bytes: key,
                rest: b1 + e,
            }));
            lemma_int_token_extend(
                i64_opt(c1.diff),
                b1,
                e,
                LF,
                true,
                i64::MIN as int,
                i64::MAX as int,
            );
            match spec_int_token(i64_opt(c1.diff), b1, LF, true, i64::MIN as int, i64::MAX as int) {
                IntTok::NeedMore => {
                    assert(c2 == c1 && b2 == b1);
                    assert((CodecV { key: Some(key), ..c1 }) == c1);
                    assert(spec_decode_diff(c1, b1 + e) == spec_decode_diff(c, b + e));
                },
                IntTok::Skip { rest } => {
                    assert(spec_decode_diff(c, b + e) is More);
                    assert(false);
                },
                IntTok::Bad => {
                    assert(false);
                },
                IntTok::Have { v, rest } => {
                    assert(false);
                },
            }
        },
    }
}

/// A `More` outcome of any tail keeps the command slot as it was.
proof fn lemma_dispatch_more_command(c: CodecV, cmd: Seq<u8>, b: Seq<u8>)
    ensures
        spec_dispatch(c, cmd, b) matches StepV::More { state, rest } ==> state.command
            == c.command,
{
    match spec_str_token(c.key, b, SP) {
        TokenStep::Tok { bytes: key, rest: b1 } => {},
        _ => {},
    }
}

/// A dispatched request already decided is unmoved by later bytes.
proof fn lemma_dispatch_extend(c: CodecV, cmd: Seq<u8>, b: Seq<u8>, e: Seq<u8>)
    ensures
        spec_dispatch(c, cmd, b) matches StepV::Emit { request, rest } ==> spec_dispatch(
            c,
            cmd,
            b + e,
        ) == (StepV::Emit { request, rest: rest + e }),
        spec_dispatch(c, cmd, b) is Fail ==> spec_dispatch(c, cmd, b + e) is Fail,
{
    let k = trim_start_ws(cmd);
    if is_write_cmd(k) {
        lemma_write_extend(c, b, e);
    } else if k == lit_bytes("get") || k == lit_bytes("delete") {
        lemma_key_extend(c, b, e);
    } else if k == lit_bytes("incr") || k == lit_bytes("decr") {
        lemma_diff_extend(c, b, e);
    }
}

/// An interrupted dispatched request resumes to the same outcome.
proof fn lemma_dispatch_resume(
    c: CodecV,
    cmd: Seq<u8>,
    b: Seq<u8>,
    e: Seq<u8>,
    c2: CodecV,
    b2: Seq<u8>,
)
    requires
        spec_dispatch(c, cmd, b) == (StepV::More { state: c2, rest: b2 }),
        spec_dispatch(c, cmd, b + e) is Emit,
    ensures
        spec_dispatch(c2, cmd, b2 + e) == spec_dispatch(c, cmd, b + e),
{
    let k = trim_start_ws(cmd);
    if is_write_cmd(k) {
        lemma_write_resume(c, b, e, c2, b2);
    } else if k == lit_bytes("get") || k == lit_bytes("delete") {
        assert(c2 == c && b2 == b);
    } else if k == lit_bytes("incr") || k == lit_bytes("decr") {
        lemma_diff_resume(c, b, e, c2, b2);
    } else {
        assert(false);
    }
}

/// Law: a request already decided (emitted or failed) is unmoved by bytes
/// arriving after it; only the leftover buffer grows.
pub proof fn lemma_decode_extend(c: CodecV, b: Seq<u8>, e: Seq<u8>)
    ensures
        spec_decode(c, b) matches StepV::Emit { request, rest } ==> spec_decode(c, b + e) == (
        StepV::Emit { request, rest: rest + e }),
        spec_decode(c, b) is Fail ==> spec_decode(c, b + e) is Fail,
{
    lemma_cmd_slot_extend(c.command, b, e);
    match spec_cmd_slot_token(c.command, b) {
        TokenStep::NeedMore => {},
        TokenStep::Invalid => {},
        TokenStep::Tok { bytes: cmd, rest: b1 } => {
            lemma_dispatch_extend(CodecV { command: Some(cmd), ..c }, cmd, b1, e);
        },
    }
}

/// Law: an interrupted decode attempt, given bytes under which the whole
/// request succeeds, resumes from its stored slots to the same request.
pub proof fn lemma_decode_resume(c: CodecV, b: Seq<u8>, e: Seq<u8>, c2: CodecV, b2: Seq<u8>)
    requires
        spec_decode(c, b) == (StepV::More { state: c2, rest: b2 }),
        spec_decode(c, b + e) is Emit,
    ensures
        spec_decode(c2, b2 + e) == spec_decode(c, b + e),
{
    lemma_cmd_slot_extend(c.command, b, e);
    match spec_cmd_slot_token(c.command, b) {
        TokenStep::NeedMore => {
            assert(c2 == c && b2 == b);
        },
        TokenStep::Invalid => {
            assert(false);
        },
        TokenStep::Tok { bytes: cmd, rest: b1 } => {
            let c1 = CodecV { command: Some(cmd), ..c };
            assert(spec_cmd_slot_token(c.command, b + e) == (TokenStep::Tok {
                bytes: cmd,
                rest: b1 + e,
            }));
            lemma_dispatch_more_command(c1, cmd, b1);
            assert(c2.command == Some(cmd));
            lemma_dispatch_resume(c1, cmd, b1, e, c2, b2);
            assert((CodecV { command: Some(cmd), ..c2 }) == c2);
            assert(spec_decode(c2, b2 + e) == spec_dispatch(c2, cmd, b2 + e));
        },
    }
}

/// The bytes of a chunk list, in order.
pub open spec fn concat_chunks(chunks: Seq<Seq<u8>>) -> Seq<u8>
    decreases chunks.len(),
{
    if chunks.len() == 0 {
        Seq::empty()
    } else {
        chunks[0] + concat_chunks(chunks.drop_first())
    }
}

/// Feeding chunks one at a time: one decode attempt on the buffered bytes,
/// then, while more bytes are wanted, the next chunk arrives.
pub open spec fn feed(c: CodecV, buf: Seq<u8>, chunks: Seq<Seq<u8>>) -> StepV
    decreases chunks.len(),
{
    match spec_decode(c, buf) {
        StepV::More { state, rest } => if chunks.len() == 0 {
            StepV::More { state, rest }
        } else {
            feed(state, rest + chunks[0], chunks.drop_first())
        },
        StepV::Emit { request, rest } => StepV::Emit { request, rest },
        StepV::Fail => StepV::Fail,
    }
}

proof fn lemma_feed(c: CodecV, buf: Seq<u8>, chunks: Seq<Seq<u8>>, req: ReqV)
    requires
        spec_decode(c, buf + concat_chunks(chunks)) == (StepV::Emit {
            request: req,
            rest: Seq::empty(),
        }),
    ensures
        feed(c, buf, chunks) == (StepV::Emit { request: req, rest: Seq::empty() }),
    decreases chunks.len(),
{
    match spec_decode(c, buf) {
        StepV::More { state, rest } => {
            if chunks.len() == 0 {
                assert(buf + concat_chunks(chunks) =~= buf);
                assert(false);
            } else {
                lemma_decode_resume(c, buf, concat_chunks(chunks), state, rest);
                assert((rest + chunks[0]) + concat_chunks(chunks.drop_first()) =~= rest
                    + concat_chunks(chunks));
                lemma_feed(state, rest + chunks[0], chunks.drop_first(), req);
            }
        },
        StepV::Emit { request, rest } => {
            lemma_decode_extend(c, buf, concat_chunks(chunks));
            assert(rest + concat_chunks(chunks) =~= Seq::<u8>::empty());
            assert(rest =~= Seq::<u8>::empty());
        },
        StepV::Fail => {
            lemma_decode_extend(c, buf, concat_chunks(chunks));
            assert(false);
        },
    }
}

/// Law: fragmentation invariance. However a request's bytes are cut into
/// chunks, feeding the chunks in order, with a decode attempt as each one
/// arrives, emits the same request as decoding the bytes in one piece, and
/// consumes exactly those bytes.
pub proof fn lemma_fragmentation(req: ReqV, chunks: Seq<Seq<u8>>)
    requires
        spec_decode(CodecV::empty(), concat_chunks(chunks)) == (StepV::Emit {
            request: req,
            rest: Seq::empty(),
        }),
    ensures
        feed(CodecV::empty(), Seq::empty(), chunks) == (StepV::Emit {
            request: req,
            rest: Seq::empty(),
        }),
{
    assert(Seq::<u8>::empty() + concat_chunks(chunks) =~= concat_chunks(chunks));
    lemma_feed(CodecV::empty(), Seq::empty(), chunks, req);
}

/// Law: concatenation. Two whole requests back to back decode in order: the
/// first leaves exactly the second's bytes, and the state, reset to empty,
/// accepts the second as if it stood alone.
pub proof fn lemma_concatenation(r1: Seq<u8>, r2: Seq<u8>, q1: ReqV, q2: ReqV)
    requires
        spec_decode(CodecV::empty(), r1) == (StepV::Emit { request: q1, rest: Seq::empty() }),
        spec_decode(CodecV::empty(), r2) == (StepV::Emit { request: q2, rest: Seq::empty() }),
    ensures
        spec_decode(CodecV::empty(), r1 + r2) == (StepV::Emit { request: q1, rest: r2 }),
        spec_decode(CodecV::empty(), r2) == (StepV::Emit { request: q2, rest: Seq::empty() }),
{
    lemma_decode_extend(CodecV::empty(), r1, r2);
    assert(Seq::<u8>::empty() + r2 =~= r2);
}

/// Law: trailing-bytes preservation. Bytes past a request's end stay at the
/// front of the remaining buffer, untouched.
pub proof fn lemma_trailing_bytes(r: Seq<u8>, t: Seq<u8>, q: ReqV, rest: Seq<u8>)
    requires
        spec_decode(CodecV::empty(), r) == (StepV::Emit { request: q, rest }),
    ensures
        spec_decode(CodecV::empty(), r + t) == (StepV::Emit { request: q, rest: rest + t }),
{
    lemma_decode_extend(CodecV::empty(), r, t);
}

/// Law: opaque data. Once the byte count of a storage command is known, the
/// next `n` bytes are taken verbatim as the data block, whatever they hold;
/// the value is those very bytes when they are UTF-8, and only a non-UTF-8
/// block is refused.
pub proof fn lemma_opaque_data(
    c: CodecV,
    key: Seq<u8>,
    f: u32,
    ex: u64,
    n: u64,
    buf: Seq<u8>,
)
    requires
        c.key == Some(key),
        c.flags == Some(f),
        c.expire == Some(ex),
        c.number_of_bytes == Some(n),
        buf.len() >= n,
    ensures
        valid_utf8(buf.take(n as int)) ==> spec_decode_write(c, buf) == (WriteStepV::Done {
            key,
            options: WriteOptions { flags: f, expire: ex },
            value: buf.take(n as int),
            rest: buf.skip(n as int),
        }),
        !valid_utf8(buf.take(n as int)) ==> spec_decode_write(c, buf) is Fail,
{
    let c1 = CodecV { key: Some(key), ..c };
    assert(c1 == c);
    let c2 = CodecV { flags: Some(f), ..c };
    assert(c2 == c);
    let c3 = CodecV { expire: Some(ex), ..c };
    assert(c3 == c);
    let c4 = CodecV { number_of_bytes: Some(n), ..c };
    assert(c4 == c);
}


/// One constant reply line round-trips through the tokenizer: its encoded
/// bytes, read as one line-terminated token, give back exactly the word.
proof fn lemma_line_round_trip(word: Seq<char>, line: Seq<char>)
    requires
        is_ascii_chars(line),
        line.len() == word.len() + 2,
        line.take(word.len() as int) == word,
        line[line.len() - 2] == '\r',
        line[line.len() - 1] == '\n',
        forall|j: int| 0 <= j < word.len() ==> !is_ws(#[trigger] line[j] as u8),
    ensures
        spec_token(encode_utf8(line), LF) == (TokenStep::Tok {
            bytes: encode_utf8(word),
            rest: Seq::empty(),
        }),
{
    let b = encode_utf8(line);
    is_ascii_chars_encode_utf8(line);
    let n = word.len() as int;
    assert(b[n + 1] == LF);
    assert(forall|j: int| 0 <= j <= n ==> b[j] == line[j] as u8);
    assert(forall|j: int| 0 <= j < n + 1 ==> b[j] != LF) by {
        assert(b[n] == 0x0du8);
    }
    lemma_find_byte_at(b, LF, n + 1);
    assert(is_ws(b[n]));
    lemma_trim_end_take(b, n, n + 1);
    assert(is_ascii_chars(word)) by {
        assert(forall|j: int| 0 <= j < n ==> word[j] == line[j]);
    }
    is_ascii_chars_encode_utf8(word);
    assert(encode_utf8(word) =~= b.take(n));
    vstd::utf8::encode_utf8_valid_utf8(word);
    assert(b.skip(n + 2) =~= Seq::<u8>::empty());
}

/// Law: encode/decode round trip for the constant replies — the encoded
/// bytes of `Stored`, `Deleted`, and the empty-get terminator, read back as
/// one line-terminated token, give exactly the table's word.
pub proof fn lemma_encode_decode_round_trip()
    ensures
        spec_token(encode_utf8(spec_encode(Ok(RespV::Stored))), LF) == (TokenStep::Tok {
            bytes: encode_utf8("STORED"@),
            rest: Seq::empty(),
        }),
        spec_token(encode_utf8(spec_encode(Ok(RespV::Deleted))), LF) == (TokenStep::Tok {
            bytes: encode_utf8("DELETED"@),
            rest: Seq::empty(),
        }),
        spec_token(encode_utf8(spec_encode(Ok(RespV::NoValue))), LF) == (TokenStep::Tok {
            bytes: encode_utf8("END"@),
            rest: Seq::empty(),
        }),
{
    reveal_strlit("STORED\r\n");
    reveal_strlit("STORED");
    assert("STORED\r\n"@.take(6) =~= "STORED"@);
    lemma_line_round_trip("STORED"@, "STORED\r\n"@);
    reveal_strlit("DELETED\r\n");
    reveal_strlit("DELETED");
    assert("DELETED\r\n"@.take(7) =~= "DELETED"@);
    lemma_line_round_trip("DELETED"@, "DELETED\r\n"@);
    reveal_strlit("END\r\n");
    reveal_strlit("END");
    assert("END\r\n"@.take(3) =~= "END"@);
    lemma_line_round_trip("END"@, "END\r\n"@);
}

} // verus!
