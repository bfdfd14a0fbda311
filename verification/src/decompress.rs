//! The decoder: a direct interpreter for the block stream.

use vstd::prelude::*;
use crate::block::{
    apply_invert, backref_byte, backref_seq, byte_fill_seq, decode_body, decode_rest,
    decompress_spec, incrementing_seq, word_fill_seq, Command, Reference, MAX_LEN,
};

verus! {

/// Errors that can occur during decompression.
#[derive(Debug, Clone, Copy, PartialEq, Eq, Structural)]
pub enum DecompressionError {
    /// The input ended in the middle of a block header or payload.
    UnexpectedEof,
    /// A back-reference named a position at or past the current output end.
    WindowOutOfRange,
}

/// What one parsed block does to an output `out` when `rest` of the input
/// follows it: Stop ends decoding, every other block appends its expansion
/// and decoding continues, and a back-reference that starts at or past the
/// output end fails.
pub(crate) open spec fn apply_step(c: Command, rest: Seq<u8>, out: Seq<u8>) -> Result<
    (Seq<u8>, Seq<u8>),
    DecompressionError,
> {
    match c {
        Command::Stop => Ok((out, rest)),
        Command::Copy(data) => decode_rest(rest, out + data@),
        Command::ByteFill { data, len } => decode_rest(rest, out + byte_fill_seq(data, len as nat)),
        Command::WordFill { data, len } => decode_rest(
            rest,
            out + word_fill_seq((data % 256) as u8, (data / 256) as u8, len as nat),
        ),
        Command::Incrementing { start, len } => decode_rest(
            rest,
            out + incrementing_seq(start, len as nat),
        ),
        Command::Backreference { src, invert, len } => match src {
            Reference::Absolute(a) => if a as int >= out.len() {
                Err(DecompressionError::WindowOutOfRange)
            } else {
                decode_rest(rest, out + backref_seq(out, a as int, invert, len as nat))
            },
            Reference::Relative(o) => if o == 0 || o as int > out.len() {
                Err(DecompressionError::WindowOutOfRange)
            } else {
                decode_rest(rest, out + backref_seq(out, out.len() - o as int, invert, len as nat))
            },
        },
    }
}

/// Structural equality of blocks, a Copy compared by its bytes.
pub(crate) open spec fn cmd_like(a: Command, b: Command) -> bool {
    match (a, b) {
        (Command::Copy(x), Command::Copy(y)) => x@ == y@,
        _ => a == b,
    }
}

/// A parsed block whose command id, length and payload bytes agree with
/// the stream is, structurally, any well-formed block whose encoding the
/// stream carries at that position: parsing inverts `Command::write`.
proof fn lemma_parse_structural(src: Seq<u8>, p0: int, parsed: Command, newpos: int)
    requires
        0 <= p0 < src.len(),
        src[p0] != 0xFF,
        !(parsed is Stop),
        ({
            let h = src[p0] as int;
            let hlen: int = if h / 32 == 7 {
                2
            } else {
                1
            };
            &&& (h / 32 == 7 ==> p0 + 1 < src.len())
            &&& parsed.cmd_id() == (if h / 32 == 7 {
                (h % 32) / 4
            } else {
                h / 32
            })
            &&& parsed.expand_len() as int == (if h / 32 == 7 {
                ((h % 32) % 4) * 256 + src[p0 + 1] + 1
            } else {
                h % 32 + 1
            })
            &&& newpos == p0 + hlen + parsed.payload().len()
            &&& forall|t: int|
                0 <= t < parsed.payload().len() ==> src[p0 + hlen + t] == #[trigger] parsed.payload()[t]
        }),
    ensures
        forall|b: Command|
            b.wf() && !(b is Stop) && p0 + (#[trigger] b.encoding()).len() <= src.len()
                && src.subrange(p0, p0 + b.encoding().len()) == b.encoding() ==> cmd_like(
                parsed,
                b,
            ) && newpos == p0 + b.encoding().len(),
{
    assert forall|b: Command|
        b.wf() && !(b is Stop) && p0 + (#[trigger] b.encoding()).len() <= src.len()
            && src.subrange(p0, p0 + b.encoding().len()) == b.encoding() implies cmd_like(
        parsed,
        b,
    ) && newpos == p0 + b.encoding().len() by {
        crate::block::lemma_encoding_parse(src, p0, b);
        assert(b.cmd_id() == parsed.cmd_id());
        assert(b.expand_len() == parsed.expand_len());
        assert(b.payload().len() == parsed.payload().len());
        assert(b.payload() =~= parsed.payload());
        match (parsed, b) {
            (Command::Copy(x), Command::Copy(y)) => {
                assert(x@ == y@);
            },
            (
                Command::WordFill { data: w1, len: l1 },
                Command::WordFill { data: w2, len: l2 },
            ) => {
                vstd::arithmetic::div_mod::lemma_fundamental_div_mod(w1 as int, 256);
                vstd::arithmetic::div_mod::lemma_fundamental_div_mod(w2 as int, 256);
                assert(w1 == w2);
            },
            (
                Command::ByteFill { data: d1, len: _ },
                Command::ByteFill { data: d2, len: _ },
            ) => {
                assert(parsed.payload()[0] == d1);
                assert(b.payload()[0] == d2);
            },
            (
                Command::Incrementing { start: s1, len: _ },
                Command::Incrementing { start: s2, len: _ },
            ) => {
                assert(parsed.payload()[0] == s1);
                assert(b.payload()[0] == s2);
            },
            (
                Command::Backreference { src: r1, invert: v1, len: l1 },
                Command::Backreference { src: r2, invert: v2, len: l2 },
            ) => {
                assert(v1 == v2);
                match (r1, r2) {
                    (Reference::Absolute(a1), Reference::Absolute(a2)) => {
                        vstd::arithmetic::div_mod::lemma_fundamental_div_mod(a1 as int, 256);
                        vstd::arithmetic::div_mod::lemma_fundamental_div_mod(a2 as int, 256);
                        assert(a1 == a2);
                    },
                    (Reference::Relative(o1), Reference::Relative(o2)) => {
                        assert(parsed.payload()[0] == o1);
                        assert(b.payload()[0] == o2);
                        assert(o1 == o2);
                    },
                    _ => {
                        assert(false);
                    },
                }
            },
            _ => {},
        }
        assert(cmd_like(parsed, b));
    }
}

/// Reads one byte and advances the cursor.
fn read_byte(src: &[u8], pos: &mut usize) -> (r: Result<u8, DecompressionError>)
    requires
        *old(pos) <= src@.len(),
    ensures
        match r {
            Ok(b) => *old(pos) < src@.len() && *final(pos) == *old(pos) + 1 && b == src@[*old(
                pos,
            ) as int],
            Err(e) => *old(pos) == src@.len() && *final(pos) == *old(pos) && e
                == DecompressionError::UnexpectedEof,
        },
{
    if *pos < src.len() {
        let b = src[*pos];
        *pos = *pos + 1;
        Ok(b)
    } else {
        Err(DecompressionError::UnexpectedEof)
    }
}

/// Reads a little-endian word and advances the cursor.
fn read_word(src: &[u8], pos: &mut usize) -> (r: Result<u16, DecompressionError>)
    requires
        *old(pos) <= src@.len(),
    ensures
        match r {
            Ok(w) => *old(pos) + 2 <= src@.len() && *final(pos) == *old(pos) + 2 && w as int
                == src@[*old(pos) as int] + 256 * src@[*old(pos) + 1],
            Err(e) => src@.len() < *old(pos) + 2 && *old(pos) <= *final(pos) <= src@.len() && e
                == DecompressionError::UnexpectedEof,
        },
{
    let b0 = match read_byte(src, pos) {
        Ok(b) => b,
        Err(e) => {
            return Err(e);
        },
    };
    let b1 = match read_byte(src, pos) {
        Ok(b) => b,
        Err(e) => {
            return Err(e);
        },
    };
    Ok(b0 as u16 + 256 * (b1 as u16))
}

/// Reading a header at `p0` and landing at `p1` with command id `c` and
/// length `len` agrees with the specification decoder: decoding from `p0`
/// is decoding the body from `p1`.
proof fn lemma_header_step(src: Seq<u8>, p0: int, p1: int, c: int, len: int)
    requires
        0 <= p0 < src.len(),
        src[p0] != 0xFF,
        p1 <= src.len(),
        ({
            let h = src[p0] as int;
            if h / 32 == 7 {
                &&& p0 + 1 < src.len()
                &&& p1 == p0 + 2
                &&& c == (h % 32) / 4
                &&& len == ((h % 32) % 4) * 256 + src[p0 + 1] + 1
            } else {
                &&& p1 == p0 + 1
                &&& c == h / 32
                &&& len == h % 32 + 1
            }
        }),
    ensures
        forall|out: Seq<u8>| #[trigger]
            decode_rest(src.skip(p0), out) == decode_body(src.skip(p1), out, c, len),
{
    let s0 = src.skip(p0);
    let s1 = src.skip(p1);
    assert(s0[0] == src[p0]);
    assert(s0.len() == src.len() - p0);
    let h = src[p0] as int;
    if h / 32 == 7 {
        assert(s0[1] == src[p0 + 1]);
        assert(s0.skip(2) =~= s1);
    } else {
        assert(s0.skip(1) =~= s1);
    }
}

/// A well-formed block whose encoding sits at `p0`, under a header already
/// parsed to `(c, len)` with the cursor at `p1`: the block carries exactly
/// that id and length, and its payload, whose size the id fixes, sits at
/// `p1`.
proof fn lemma_encoding_bound(src: Seq<u8>, p0: int, p1: int, c: int, len: int, b: Command)
    requires
        0 <= p0 < src.len(),
        src[p0] != 0xFF,
        p1 <= src.len(),
        ({
            let h = src[p0] as int;
            if h / 32 == 7 {
                &&& p0 + 1 < src.len()
                &&& p1 == p0 + 2
                &&& c == (h % 32) / 4
                &&& len == ((h % 32) % 4) * 256 + src[p0 + 1] + 1
            } else {
                &&& p1 == p0 + 1
                &&& c == h / 32
                &&& len == h % 32 + 1
            }
        }),
        b.wf(),
        !(b is Stop),
        p0 + b.encoding().len() <= src.len(),
        src.subrange(p0, p0 + b.encoding().len()) == b.encoding(),
    ensures
        b.cmd_id() == c,
        b.expand_len() == len,
        p0 + b.encoding().len() == p1 + b.payload().len(),
        b.payload().len() == (if c == 0 {
            len
        } else if c == 2 || c == 4 || c == 5 {
            2int
        } else {
            1int
        }),
{
    crate::block::lemma_encoding_parse(src, p0, b);
}

/// Parses one block at the cursor. On success, decoding the remaining input
/// from the old cursor equals applying the parsed block at the new one, for
/// every output built so far, and the parsed block is structurally the one
/// whose encoding sits at the cursor; on failure, decoding equals that
/// error.
#[verifier::rlimit(100)]
fn read_cmd(src: &[u8], pos: &mut usize) -> (r: Result<Command, DecompressionError>)
    requires
        *old(pos) <= src@.len(),
    ensures
        *final(pos) <= src@.len(),
        match r {
            Ok(cmd) => *old(pos) < *final(pos) && cmd.expand_len() <= MAX_LEN && forall|
                out: Seq<u8>,
            |
                #[trigger] decode_rest(src@.skip(*old(pos) as int), out) == apply_step(
                    cmd,
                    src@.skip(*final(pos) as int),
                    out,
                ),
            Err(e) => forall|out: Seq<u8>|
                #[trigger] decode_rest(src@.skip(*old(pos) as int), out) == Err::<
                    (Seq<u8>, Seq<u8>),
                    DecompressionError,
                >(e),
        },
        forall|b: Command|
            b.wf() && !(b is Stop) && *old(pos) + (#[trigger] b.encoding()).len() <= src@.len()
                && src@.subrange(*old(pos) as int, *old(pos) + b.encoding().len())
                == b.encoding() ==> (match r {
                Ok(cmd) => cmd_like(cmd, b) && *final(pos) as int == *old(pos)
                    + b.encoding().len(),
                Err(_) => false,
            }),
{
    let ghost p0 = *pos as int;
    let ghost s0 = src@.skip(p0);
    let h = match read_byte(src, pos) {
        Ok(b) => b,
        Err(e) => {
            proof {
                assert(s0.len() == 0);
                assert forall|b: Command|
                    b.wf() && !(b is Stop) && p0 + (#[trigger] b.encoding()).len() <= src@.len()
                        && src@.subrange(p0, p0 + b.encoding().len())
                        == b.encoding() implies false by {
                    crate::block::lemma_encoding_parse(src@, p0, b);
                }
            }
            return Err(e);
        },
    };
    proof {
        assert(s0[0] == h);
        assert(s0.len() == src@.len() - p0);
    }
    if h == 0xFF {
        proof {
            assert forall|out: Seq<u8>| #[trigger] decode_rest(s0, out) == apply_step(
                Command::Stop,
                src@.skip(p0 + 1),
                out,
            ) by {
                assert(s0.skip(1) =~= src@.skip(p0 + 1));
            }
            assert forall|b: Command|
                b.wf() && !(b is Stop) && p0 + (#[trigger] b.encoding()).len() <= src@.len()
                    && src@.subrange(p0, p0 + b.encoding().len()) == b.encoding() implies false by {
                crate::block::lemma_encoding_parse(src@, p0, b);
            }
        }
        return Ok(Command::Stop);
    }
    let mut len: usize = (h % 32) as usize;
    let mut cmd: u8 = h / 32;
    if cmd == 7 {
        let n = match read_byte(src, pos) {
            Ok(b) => b,
            Err(e) => {
                proof {
                    assert(s0.len() < 2);
                    assert forall|b: Command|
                        b.wf() && !(b is Stop) && p0 + (#[trigger] b.encoding()).len()
                            <= src@.len() && src@.subrange(p0, p0 + b.encoding().len())
                            == b.encoding() implies false by {
                        crate::block::lemma_encoding_parse(src@, p0, b);
                    }
                }
                return Err(e);
            },
        };
        cmd = (len / 4) as u8;
        len = (len % 4) * 256 + n as usize;
    }
    let len = len + 1;
    let ghost p1 = *pos as int;
    proof {
        lemma_header_step(src@, p0, p1, cmd as int, len as int);
    }
    let r = read_payload(src, pos, cmd, len, Ghost(p0));
    proof {
        let ghost rg = r;
        match rg {
            Ok(c) => {
                assert forall|out: Seq<u8>| #[trigger] decode_rest(src@.skip(p0), out)
                    == apply_step(c, src@.skip(*pos as int), out) by {
                    assert(decode_rest(src@.skip(p0), out) == decode_body(
                        src@.skip(p1),
                        out,
                        cmd as int,
                        len as int,
                    ));
                }
            },
            Err(e) => {
                assert forall|out: Seq<u8>| #[trigger] decode_rest(src@.skip(p0), out) == Err::<
                    (Seq<u8>, Seq<u8>),
                    DecompressionError,
                >(e) by {
                    assert(decode_rest(src@.skip(p0), out) == decode_body(
                        src@.skip(p1),
                        out,
                        cmd as int,
                        len as int,
                    ));
                }
            },
        }
    }
    r
}

/// Reads the payload of one block whose header, already consumed, carried
/// command id `cmd` and length `len`; `p0` is where the header begins.
#[verifier::rlimit(100)]
fn read_payload(
    src: &[u8],
    pos: &mut usize,
    cmd: u8,
    len: usize,
    Ghost(p0): Ghost<int>,
) -> (r: Result<Command, DecompressionError>)
    requires
        0 <= p0 < src@.len(),
        *old(pos) <= src@.len(),
        src@[p0] != 0xFF,
        1 <= len <= MAX_LEN,
        ({
            let h = src@[p0] as int;
            if h / 32 == 7 {
                &&& p0 + 1 < src@.len()
                &&& *old(pos) == p0 + 2
                &&& cmd as int == (h % 32) / 4
                &&& len as int == ((h % 32) % 4) * 256 + src@[p0 + 1] + 1
            } else {
                &&& *old(pos) == p0 + 1
                &&& cmd as int == h / 32
                &&& len as int == h % 32 + 1
            }
        }),
    ensures
        *final(pos) <= src@.len(),
        *old(pos) <= *final(pos),
        match r {
            Ok(c) => c.expand_len() <= MAX_LEN && forall|out: Seq<u8>|
                #[trigger] decode_body(src@.skip(*old(pos) as int), out, cmd as int, len as int)
                    == apply_step(c, src@.skip(*final(pos) as int), out),
            Err(e) => forall|out: Seq<u8>|
                #[trigger] decode_body(src@.skip(*old(pos) as int), out, cmd as int, len as int)
                    == Err::<(Seq<u8>, Seq<u8>), DecompressionError>(e),
        },
        forall|b: Command|
            b.wf() && !(b is Stop) && p0 + (#[trigger] b.encoding()).len() <= src@.len()
                && src@.subrange(p0, p0 + b.encoding().len()) == b.encoding() ==> (match r {
                Ok(cmd2) => cmd_like(cmd2, b) && *final(pos) as int == p0 + b.encoding().len(),
                Err(_) => false,
            }),
{
    let ghost p1 = *pos as int;
    let ghost s1 = src@.skip(p1);
    proof {
        assert(s1.len() == src@.len() - p1);
    }
    match cmd {
        0 => {
            if src.len() - *pos < len {
                proof {
                    assert(s1.len() < len);
                    assert forall|b: Command|
                        b.wf() && !(b is Stop) && p0 + (#[trigger] b.encoding()).len()
                            <= src@.len() && src@.subrange(p0, p0 + b.encoding().len())
                            == b.encoding() implies false by {
                        lemma_encoding_bound(src@, p0, p1, cmd as int, len as int, b);
                    }
                }
                return Err(DecompressionError::UnexpectedEof);
            }
            let base = *pos;
            let n = src.len();
            let mut data: Vec<u8> = Vec::new();
            let mut k: usize = 0;
            while k < len
                invariant
                    k <= len,
                    base + len <= n == src@.len(),
                    data@ == src@.subrange(base as int, base + k),
                decreases len - k,
            {
                data.push(src[base + k]);
                proof {
                    assert(src@.subrange(base as int, base + k + 1) =~= src@.subrange(
                        base as int,
                        base + k,
                    ).push(src@[base + k]));
                }
                k = k + 1;
            }
            *pos = base + len;
            let c = Command::Copy(data);
            proof {
                assert(s1.take(len as int) =~= data@);
                assert(s1.skip(len as int) =~= src@.skip(base + len));
                assert forall|t: int| 0 <= t < c.payload().len() implies src@[p1 + t]
                    == #[trigger] c.payload()[t] by {
                    assert(c.payload()[t] == src@.subrange(p1, p1 + len)[t]);
                }
                lemma_parse_structural(src@, p0, c, *pos as int);
            }
            Ok(c)
        },
        1 => {
            let data = match read_byte(src, pos) {
                Ok(b) => b,
                Err(e) => {
                    proof {
                        assert forall|b: Command|
                            b.wf() && !(b is Stop) && p0 + (#[trigger] b.encoding()).len()
                                <= src@.len() && src@.subrange(p0, p0 + b.encoding().len())
                                == b.encoding() implies false by {
                            lemma_encoding_bound(src@, p0, p1, cmd as int, len as int, b);
                        }
                    }
                    return Err(e);
                },
            };
            let c = Command::ByteFill { data, len };
            proof {
                assert(s1[0] == data);
                assert(s1.skip(1) =~= src@.skip(p1 + 1));
                lemma_parse_structural(src@, p0, c, *pos as int);
            }
            Ok(c)
        },
        2 => {
            let data = match read_word(src, pos) {
                Ok(w) => w,
                Err(e) => {
                    proof {
                        assert forall|b: Command|
                            b.wf() && !(b is Stop) && p0 + (#[trigger] b.encoding()).len()
                                <= src@.len() && src@.subrange(p0, p0 + b.encoding().len())
                                == b.encoding() implies false by {
                            lemma_encoding_bound(src@, p0, p1, cmd as int, len as int, b);
                        }
                    }
                    return Err(e);
                },
            };
            let c = Command::WordFill { data, len };
            proof {
                assert(s1[0] == src@[p1]);
                assert(s1[1] == src@[p1 + 1]);
                vstd::arithmetic::div_mod::lemma_fundamental_div_mod_converse(
                    data as int,
                    256,
                    s1[1] as int,
                    s1[0] as int,
                );
                assert((data % 256) as u8 == s1[0]);
                assert((data / 256) as u8 == s1[1]);
                assert(s1.skip(2) =~= src@.skip(p1 + 2));
                lemma_parse_structural(src@, p0, c, *pos as int);
            }
            Ok(c)
        },
        3 => {
            let start = match read_byte(src, pos) {
                Ok(b) => b,
                Err(e) => {
                    proof {
                        assert forall|b: Command|
                            b.wf() && !(b is Stop) && p0 + (#[trigger] b.encoding()).len()
                                <= src@.len() && src@.subrange(p0, p0 + b.encoding().len())
                                == b.encoding() implies false by {
                            lemma_encoding_bound(src@, p0, p1, cmd as int, len as int, b);
                        }
                    }
                    return Err(e);
                },
            };
            let c = Command::Incrementing { start, len };
            proof {
                assert(s1[0] == start);
                assert(s1.skip(1) =~= src@.skip(p1 + 1));
                lemma_parse_structural(src@, p0, c, *pos as int);
            }
            Ok(c)
        },
        _ => {
            let invert = cmd % 2 == 1;
            if cmd < 6 {
                let a = match read_word(src, pos) {
                    Ok(w) => w,
                    Err(e) => {
                        proof {
                            assert forall|b: Command|
                                b.wf() && !(b is Stop) && p0 + (#[trigger] b.encoding()).len()
                                    <= src@.len() && src@.subrange(p0, p0 + b.encoding().len())
                                    == b.encoding() implies false by {
                                lemma_encoding_bound(src@, p0, p1, cmd as int, len as int, b);
                            }
                        }
                        return Err(e);
                    },
                };
                let c = Command::Backreference { src: Reference::Absolute(a), invert, len };
                proof {
                    assert(s1[0] == src@[p1]);
                    assert(s1[1] == src@[p1 + 1]);
                    assert(a as int == s1[0] + 256 * (s1[1] as int));
                    vstd::arithmetic::div_mod::lemma_fundamental_div_mod_converse(
                        a as int,
                        256,
                        s1[1] as int,
                        s1[0] as int,
                    );
                    assert((a % 256) as u8 == s1[0]);
                    assert((a / 256) as u8 == s1[1]);
                    assert(s1.skip(2) =~= src@.skip(p1 + 2));
                    assert(cmd == 4 || cmd == 5);
                    assert((cmd as int == 5) <==> invert);
                    lemma_parse_structural(src@, p0, c, *pos as int);
                }
                Ok(c)
            } else {
                let o = match read_byte(src, pos) {
                    Ok(b) => b,
                    Err(e) => {
                        proof {
                            assert forall|b: Command|
                                b.wf() && !(b is Stop) && p0 + (#[trigger] b.encoding()).len()
                                    <= src@.len() && src@.subrange(p0, p0 + b.encoding().len())
                                    == b.encoding() implies false by {
                                lemma_encoding_bound(src@, p0, p1, cmd as int, len as int, b);
                            }
                        }
                        return Err(e);
                    },
                };
                let c = Command::Backreference { src: Reference::Relative(o), invert, len };
                proof {
                    assert(s1[0] == o);
                    assert(s1.skip(1) =~= src@.skip(p1 + 1));
                    assert(cmd == 6 || cmd == 7);
                    assert((cmd as int == 7) <==> invert);
                    lemma_parse_structural(src@, p0, c, *pos as int);
                }
                Ok(c)
            }
        },
    }
}

/// Decompresses the provided data.
///
/// The result is exactly what the specification-level decoder says: the
/// decoded bytes on success, and the first error — truncated input or an
/// out-of-window back-reference — otherwise.
pub fn decompress(src: &[u8]) -> (r: Result<Vec<u8>, DecompressionError>)
    ensures
        match r {
            Ok(v) => decompress_spec(src@) == Ok::<Seq<u8>, DecompressionError>(v@),
            Err(e) => decompress_spec(src@) == Err::<Seq<u8>, DecompressionError>(e),
        },
{
    let mut dst: Vec<u8> = Vec::new();
    let mut pos: usize = 0;
    proof {
        assert(src@.skip(0) =~= src@);
    }
    loop
        invariant
            pos <= src@.len(),
            decode_rest(src@.skip(pos as int), dst@) == decode_rest(src@, Seq::<u8>::empty()),
        decreases src@.len() - pos,
    {
        let ghost p0 = pos as int;
        let ghost out0 = dst@;
        let cmd = match read_cmd(src, &mut pos) {
            Ok(c) => c,
            Err(e) => {
                proof {
                    assert(decode_rest(src@.skip(p0), out0) == Err::<
                        (Seq<u8>, Seq<u8>),
                        DecompressionError,
                    >(e));
                }
                return Err(e);
            },
        };
        proof {
            assert(decode_rest(src@.skip(p0), out0) == apply_step(
                cmd,
                src@.skip(pos as int),
                out0,
            ));
        }
        match cmd {
            Command::Stop => {
                return Ok(dst);
            },
            Command::Copy(mut data) => {
                let ghost d = data@;
                dst.append(&mut data);
                proof {
                    assert(dst@ == out0 + d);
                }
            },
            Command::ByteFill { data, len } => {
                let mut k: usize = 0;
                while k < len
                    invariant
                        k <= len,
                        dst@ == out0 + byte_fill_seq(data, k as nat),
                    decreases len - k,
                {
                    dst.push(data);
                    proof {
                        assert(byte_fill_seq(data, (k + 1) as nat) =~= byte_fill_seq(
                            data,
                            k as nat,
                        ).push(data));
                    }
                    k = k + 1;
                }
            },
            Command::WordFill { data, len } => {
                let lo = (data % 256) as u8;
                let hi = (data / 256) as u8;
                let mut k: usize = 0;
                while k < len
                    invariant
                        k <= len,
                        dst@ == out0 + word_fill_seq(lo, hi, k as nat),
                    decreases len - k,
                {
                    if k % 2 == 0 {
                        dst.push(lo);
                    } else {
                        dst.push(hi);
                    }
                    proof {
                        assert(word_fill_seq(lo, hi, (k + 1) as nat) =~= word_fill_seq(
                            lo,
                            hi,
                            k as nat,
                        ).push(
                            if k as int % 2 == 0 {
                                lo
                            } else {
                                hi
                            },
                        ));
                    }
                    k = k + 1;
                }
            },
            Command::Incrementing { start, len } => {
                let mut k: usize = 0;
                while k < len
                    invariant
                        k <= len,
                        len <= MAX_LEN,
                        dst@ == out0 + incrementing_seq(start, k as nat),
                    decreases len - k,
                {
                    let b = ((start as usize + k) % 256) as u8;
                    dst.push(b);
                    proof {
                        assert(incrementing_seq(start, (k + 1) as nat) =~= incrementing_seq(
                            start,
                            k as nat,
                        ).push(((start + k) % 256) as u8));
                    }
                    k = k + 1;
                }
            },
            Command::Backreference { src: rsrc, invert, len } => {
                let start: usize = match rsrc {
                    Reference::Absolute(a) => {
                        if a as usize >= dst.len() {
                            return Err(DecompressionError::WindowOutOfRange);
                        }
                        a as usize
                    },
                    Reference::Relative(o) => {
                        if o == 0 || o as usize > dst.len() {
                            return Err(DecompressionError::WindowOutOfRange);
                        }
                        dst.len() - o as usize
                    },
                };
                let mut k: usize = 0;
                while k < len
                    invariant
                        k <= len,
                        start < out0.len(),
                        dst@ == out0 + backref_seq(out0, start as int, invert, k as nat),
                    decreases len - k,
                {
                    let dlen = dst.len();
                    assert(start + k < dlen);
                    let b = dst[start + k];
                    dst.push(
                        if invert {
                            0xFF - b
                        } else {
                            b
                        },
                    );
                    proof {
                        let st = start as int;
                        let kk = k as int;
                        assert(apply_invert(b, invert) == backref_byte(out0, st, invert, kk)) by {
                            if st + kk < out0.len() {
                                assert(b == out0[st + kk]);
                            } else {
                                assert(b == backref_seq(out0, st, invert, k as nat)[st + kk
                                    - out0.len()]);
                            }
                        }
                        assert(backref_seq(out0, st, invert, (k + 1) as nat) =~= backref_seq(
                            out0,
                            st,
                            invert,
                            k as nat,
                        ).push(backref_byte(out0, st, invert, kk)));
                    }
                    k = k + 1;
                }
            },
        }
        proof {
            assert(decode_rest(src@.skip(pos as int), dst@) == decode_rest(
                src@,
                Seq::<u8>::empty(),
            ));
        }
    }
}

} // verus!
