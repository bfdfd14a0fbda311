//! The block model and the wire format.
//!
//! A compressed stream is a sequence of blocks, each a header (one or two
//! bytes) followed by a payload, terminated by the single stop byte `0xFF`.
//! This module defines the block type [`Command`], the byte-exact encoding of
//! every block, and the specification-level decoder [`decode_rest`] that both
//! the executable decoder and the compressor's correctness contract are
//! stated against.

use vstd::prelude::*;
use crate::decompress::DecompressionError;

verus! {

/// The maximum number of bytes a single non-Copy block may expand to.
pub const MAX_LEN: usize = 0x400;

/// A back-reference source: an absolute index into the output produced so
/// far, or an offset subtracted from the current output length.
pub enum Reference {
    Absolute(u16),
    Relative(u8),
}

/// One block of the command stream.
pub enum Command {
    /// Literal bytes, emitted unchanged.
    Copy(Vec<u8>),
    /// One byte repeated `len` times.
    ByteFill { data: u8, len: usize },
    /// A little-endian word repeated as a two-byte pattern, `len` bytes in
    /// all; an odd `len` ends on the low byte.
    WordFill { data: u16, len: usize },
    /// `start, start+1, ...` modulo 256, `len` bytes.
    Incrementing { start: u8, len: usize },
    /// `len` bytes copied byte by byte from an earlier position of the
    /// output, each XORed with `0xFF` iff `invert`.
    Backreference { src: Reference, invert: bool, len: usize },
    /// Terminates the stream.
    Stop,
}

/// XORs a byte with `0xFF` iff `inv`.
pub open spec fn apply_invert(b: u8, inv: bool) -> u8 {
    if inv {
        (0xFF - b) as u8
    } else {
        b
    }
}

/// The expansion of a ByteFill block: `d` repeated `len` times.
pub open spec fn byte_fill_seq(d: u8, len: nat) -> Seq<u8> {
    Seq::new(len, |k: int| d)
}

/// The expansion of a WordFill block: low, high, low, high, ... for `len`
/// bytes.
pub open spec fn word_fill_seq(lo: u8, hi: u8, len: nat) -> Seq<u8> {
    Seq::new(len, |k: int| if k % 2 == 0 { lo } else { hi })
}

/// The expansion of an Incrementing block: `s, s+1, ...` modulo 256.
pub open spec fn incrementing_seq(s: u8, len: nat) -> Seq<u8> {
    Seq::new(len, |k: int| ((s + k) % 256) as u8)
}

/// The `k`-th byte appended by a back-reference that starts reading at
/// `start` in an output that currently holds `out`.
///
/// The decoder reads and appends one byte at a time, so a back-reference may
/// run past the old output end into bytes it appended itself; the recursion
/// mirrors that byte-by-byte behaviour.
pub open spec fn backref_byte(out: Seq<u8>, start: int, inv: bool, k: int) -> u8
    decreases k,
{
    if 0 <= start && 0 <= k && start + k < out.len() {
        apply_invert(out[start + k], inv)
    } else if 0 <= start && start < out.len() && start + k >= out.len() {
        apply_invert(backref_byte(out, start, inv, start + k - out.len()), inv)
    } else {
        0u8
    }
}

/// The full expansion of a back-reference block.
pub open spec fn backref_seq(out: Seq<u8>, start: int, inv: bool, len: nat) -> Seq<u8> {
    Seq::new(len, |k: int| backref_byte(out, start, inv, k))
}

/// The header bytes of a non-Stop block with command id `c` and expanded
/// length `len`: the short form `(c << 5) | (len-1)` when `len-1 < 32` and
/// `c != 7`, else the long form `0xE0 | (c << 2) | ((len-1) >> 8)` followed
/// by the low byte of `len-1`.
pub open spec fn header_bytes(c: int, len: int) -> Seq<u8> {
    let l = len - 1;
    if l < 32 && c != 7 {
        seq![(c * 32 + l) as u8]
    } else {
        seq![(0xE0 + c * 4 + l / 256) as u8, (l % 256) as u8]
    }
}

impl Command {
    /// The number of bytes this block expands to (0 for Stop).
    pub open spec fn expand_len(&self) -> nat {
        match self {
            Command::Copy(data) => data@.len(),
            Command::ByteFill { data: _, len } => *len as nat,
            Command::WordFill { data: _, len } => *len as nat,
            Command::Incrementing { start: _, len } => *len as nat,
            Command::Backreference { src: _, invert: _, len } => *len as nat,
            Command::Stop => 0,
        }
    }

    /// The command id carried by the header (Stop has none and maps to 7
    /// only through its dedicated `0xFF` byte).
    pub open spec fn cmd_id(&self) -> int {
        match self {
            Command::Copy(_) => 0,
            Command::ByteFill { .. } => 1,
            Command::WordFill { .. } => 2,
            Command::Incrementing { .. } => 3,
            Command::Backreference { src, invert, len: _ } => match src {
                Reference::Absolute(_) => if *invert { 5 } else { 4 },
                Reference::Relative(_) => if *invert { 7 } else { 6 },
            },
            Command::Stop => 7,
        }
    }

    /// The payload bytes that follow the header.
    pub open spec fn payload(&self) -> Seq<u8> {
        match self {
            Command::Copy(data) => data@,
            Command::ByteFill { data, len: _ } => seq![*data],
            Command::WordFill { data, len: _ } => seq![(*data % 256) as u8, (*data / 256) as u8],
            Command::Incrementing { start, len: _ } => seq![*start],
            Command::Backreference { src, invert: _, len: _ } => match src {
                Reference::Absolute(a) => seq![(*a % 256) as u8, (*a / 256) as u8],
                Reference::Relative(o) => seq![*o],
            },
            Command::Stop => Seq::empty(),
        }
    }

    /// The exact bytes this block occupies in a compressed stream.
    pub open spec fn encoding(&self) -> Seq<u8> {
        match self {
            Command::Stop => seq![0xFFu8],
            _ => header_bytes(self.cmd_id(), self.expand_len() as int) + self.payload(),
        }
    }

    /// Well-formedness: the bounds every block must satisfy before it may be
    /// serialized. In particular no block expands to more than `MAX_LEN`
    /// bytes, a relative offset is never zero, and an inverted relative
    /// back-reference stays short enough that its long-form header cannot
    /// collide with the stop byte.
    pub(crate) open spec fn wf(&self) -> bool {
        match self {
            Command::Copy(data) => 1 <= data@.len() <= MAX_LEN,
            Command::ByteFill { data: _, len } => 1 <= *len <= MAX_LEN,
            Command::WordFill { data: _, len } => 1 <= *len <= MAX_LEN,
            Command::Incrementing { start: _, len } => 1 <= *len <= MAX_LEN,
            Command::Backreference { src, invert, len } => {
                &&& 1 <= *len <= MAX_LEN
                &&& match src {
                    Reference::Absolute(_) => true,
                    Reference::Relative(o) => *o != 0 && (*invert ==> *len <= 0x300),
                }
            },
            Command::Stop => true,
        }
    }

    /// A block the compressor may emit when the output decoded so far has
    /// `outlen` bytes: well-formed, not Stop, and any back-reference starts
    /// strictly inside the existing output.
    pub(crate) open spec fn emittable(&self, outlen: nat) -> bool {
        &&& self.wf()
        &&& !(self is Stop)
        &&& match self {
            Command::Backreference { src, invert: _, len: _ } => match src {
                Reference::Absolute(a) => (*a as nat) < outlen,
                Reference::Relative(o) => 1 <= *o as nat <= outlen,
            },
            _ => true,
        }
    }

    /// The bytes this block appends to an output that currently holds `out`.
    pub(crate) open spec fn expand(&self, out: Seq<u8>) -> Seq<u8> {
        match self {
            Command::Copy(data) => data@,
            Command::ByteFill { data, len } => byte_fill_seq(*data, *len as nat),
            Command::WordFill { data, len } => word_fill_seq(
                (*data % 256) as u8,
                (*data / 256) as u8,
                *len as nat,
            ),
            Command::Incrementing { start, len } => incrementing_seq(*start, *len as nat),
            Command::Backreference { src, invert, len } => match src {
                Reference::Absolute(a) => backref_seq(out, *a as int, *invert, *len as nat),
                Reference::Relative(o) => backref_seq(
                    out,
                    out.len() - *o as int,
                    *invert,
                    *len as nat,
                ),
            },
            Command::Stop => Seq::empty(),
        }
    }
}

impl Command {
    /// The number of bytes this block expands to.
    pub(crate) fn len(&self) -> (n: usize)
        ensures
            n == self.expand_len(),
    {
        match self {
            Command::Copy(data) => data.len(),
            Command::ByteFill { data: _, len } => *len,
            Command::WordFill { data: _, len } => *len,
            Command::Incrementing { start: _, len } => *len,
            Command::Backreference { src: _, invert: _, len } => *len,
            Command::Stop => 0,
        }
    }

    /// The number of bytes this block occupies once encoded.
    pub open spec fn spec_cost(&self) -> int {
        let header: int = if self.expand_len() <= 32 {
            1
        } else {
            2
        };
        match self {
            Command::Copy(data) => data@.len() + header,
            Command::ByteFill { .. } => 1 + header,
            Command::WordFill { .. } => 2 + header,
            Command::Incrementing { .. } => 1 + header,
            Command::Backreference { src, invert, len: _ } => match src {
                Reference::Absolute(_) => 2 + header,
                // An inverted relative back-reference can only use the
                // long-form header, whatever its length.
                Reference::Relative(_) => if *invert {
                    3
                } else {
                    1 + header
                },
            },
            Command::Stop => 1,
        }
    }

    /// The encoded size of this block. The argument costs follow the
    /// byte-count cost table: one byte for a ByteFill, Incrementing or
    /// relative back-reference argument, two for a WordFill word or an
    /// absolute index, and the literal bytes themselves for a Copy.
    pub(crate) fn cost(&self) -> (c: usize)
        requires
            self.wf(),
        ensures
            c == self.spec_cost(),
    {
        let header: usize = if self.len() <= 32 {
            1
        } else {
            2
        };
        match self {
            Command::Copy(data) => data.len() + header,
            Command::ByteFill { .. } => 1 + header,
            Command::WordFill { .. } => 2 + header,
            Command::Incrementing { .. } => 1 + header,
            Command::Backreference { src, invert, len: _ } => match src {
                Reference::Absolute(_) => 2 + header,
                Reference::Relative(_) => if *invert {
                    3
                } else {
                    1 + header
                },
            },
            Command::Stop => 1,
        }
    }

    /// Serializes this block: header, then payload.
    pub(crate) fn write(&self, dst: &mut Vec<u8>)
        requires
            self.wf(),
        ensures
            final(dst)@ == old(dst)@ + self.encoding(),
    {
        let ghost pre = dst@;
        match self {
            Command::Copy(data) => {
                write_header(0, data.len(), dst);
                let mut k: usize = 0;
                while k < data.len()
                    invariant
                        k <= data@.len(),
                        dst@ == pre + header_bytes(0, data@.len() as int) + data@.take(k as int),
                    decreases data@.len() - k,
                {
                    dst.push(data[k]);
                    assert(data@.take(k + 1) =~= data@.take(k as int).push(data@[k as int]));
                    k = k + 1;
                }
                assert(data@.take(data@.len() as int) =~= data@);
            },
            Command::ByteFill { data, len } => {
                write_header(1, *len, dst);
                dst.push(*data);
            },
            Command::WordFill { data, len } => {
                write_header(2, *len, dst);
                dst.push((*data % 256) as u8);
                dst.push((*data / 256) as u8);
            },
            Command::Incrementing { start, len } => {
                write_header(3, *len, dst);
                dst.push(*start);
            },
            Command::Backreference { src, invert, len } => {
                match src {
                    Reference::Absolute(a) => {
                        write_header(if *invert { 5 } else { 4 }, *len, dst);
                        dst.push((*a % 256) as u8);
                        dst.push((*a / 256) as u8);
                    },
                    Reference::Relative(o) => {
                        write_header(if *invert { 7 } else { 6 }, *len, dst);
                        dst.push(*o);
                    },
                }
            },
            Command::Stop => {
                dst.push(0xFF);
            },
        }
        assert(dst@ =~= pre + self.encoding());
    }
}

/// Writes the one- or two-byte header for command id `c` and expanded
/// length `len`.
fn write_header(c: u8, len: usize, dst: &mut Vec<u8>)
    requires
        c <= 7,
        1 <= len <= MAX_LEN,
    ensures
        final(dst)@ == old(dst)@ + header_bytes(c as int, len as int),
{
    let l = len - 1;
    if l < 32 && c != 7 {
        dst.push(c * 32 + l as u8);
    } else {
        dst.push(0xE0 + c * 4 + (l / 256) as u8);
        dst.push((l % 256) as u8);
    }
    assert(dst@ =~= old(dst)@ + header_bytes(c as int, len as int));
}

/// The specification-level decoder. `s` is the remaining input and `out` the
/// output produced so far; the result carries the final output together with
/// the input left over after the stop byte.
pub open spec fn decode_rest(s: Seq<u8>, out: Seq<u8>) -> Result<
    (Seq<u8>, Seq<u8>),
    DecompressionError,
>
    decreases s.len(), 1int,
{
    if s.len() == 0 {
        Err(DecompressionError::UnexpectedEof)
    } else {
        let h = s[0] as int;
        if h == 0xFF {
            Ok((out, s.skip(1)))
        } else if h / 32 == 7 {
            if s.len() < 2 {
                Err(DecompressionError::UnexpectedEof)
            } else {
                decode_body(s.skip(2), out, (h % 32) / 4, ((h % 32) % 4) * 256 + s[1] + 1)
            }
        } else {
            decode_body(s.skip(1), out, h / 32, h % 32 + 1)
        }
    }
}

/// Decodes the payload of one block with command id `c` and expanded length
/// `len`, applies it to `out`, and continues with the rest of the stream.
pub open spec fn decode_body(s: Seq<u8>, out: Seq<u8>, c: int, len: int) -> Result<
    (Seq<u8>, Seq<u8>),
    DecompressionError,
>
    decreases s.len(), 0int,
{
    if len < 1 {
        Err(DecompressionError::UnexpectedEof)
    } else if c == 0 {
        if s.len() < len {
            Err(DecompressionError::UnexpectedEof)
        } else {
            decode_rest(s.skip(len), out + s.take(len))
        }
    } else if c == 1 {
        if s.len() < 1 {
            Err(DecompressionError::UnexpectedEof)
        } else {
            decode_rest(s.skip(1), out + byte_fill_seq(s[0], len as nat))
        }
    } else if c == 2 {
        if s.len() < 2 {
            Err(DecompressionError::UnexpectedEof)
        } else {
            decode_rest(s.skip(2), out + word_fill_seq(s[0], s[1], len as nat))
        }
    } else if c == 3 {
        if s.len() < 1 {
            Err(DecompressionError::UnexpectedEof)
        } else {
            decode_rest(s.skip(1), out + incrementing_seq(s[0], len as nat))
        }
    } else if c == 4 || c == 5 {
        if s.len() < 2 {
            Err(DecompressionError::UnexpectedEof)
        } else {
            let start = s[0] as int + 256 * (s[1] as int);
            if start >= out.len() {
                Err(DecompressionError::WindowOutOfRange)
            } else {
                decode_rest(s.skip(2), out + backref_seq(out, start, c == 5, len as nat))
            }
        }
    } else {
        if s.len() < 1 {
            Err(DecompressionError::UnexpectedEof)
        } else {
            let o = s[0] as int;
            if o == 0 || o > out.len() {
                Err(DecompressionError::WindowOutOfRange)
            } else {
                decode_rest(s.skip(1), out + backref_seq(out, out.len() - o, c == 7, len as nat))
            }
        }
    }
}

/// What decoding a whole input yields: the decompressed bytes, or the first
/// error. Input left over after the stop byte is ignored, as the decoder
/// does not self-delimit beyond it.
pub open spec fn decompress_spec(s: Seq<u8>) -> Result<Seq<u8>, DecompressionError> {
    match decode_rest(s, Seq::empty()) {
        Ok((out, _)) => Ok(out),
        Err(e) => Err(e),
    }
}

/// Parsing a well-formed header recovers the command id and the length.
proof fn lemma_header_parse(c: int, len: int)
    requires
        0 <= c <= 7,
        1 <= len <= MAX_LEN,
        c == 7 ==> len <= 0x300,
    ensures
        ({
            let hb = header_bytes(c, len);
            &&& 1 <= hb.len() <= 2
            &&& hb[0] != 0xFF
            &&& (len - 1 < 32 && c != 7) ==> hb.len() == 1 && hb[0] as int / 32 == c && hb[0]
                as int % 32 == len - 1
            &&& !(len - 1 < 32 && c != 7) ==> hb.len() == 2 && hb[0] as int / 32 == 7 && (hb[0]
                as int % 32) / 4 == c && ((hb[0] as int % 32) % 4) * 256 + hb[1] as int == len - 1
        }),
{
    let l = len - 1;
    if l < 32 && c != 7 {
        let v = c * 32 + l;
        assert(0 <= v <= 223);
        vstd::arithmetic::div_mod::lemma_fundamental_div_mod_converse(v, 32, c, l);
    } else {
        vstd::arithmetic::div_mod::lemma_fundamental_div_mod(l, 256);
        let hi = l / 256;
        let lo = l % 256;
        assert(0 <= hi <= 3);
        let v = 0xE0 + c * 4 + hi;
        assert(v != 0xFF);
        vstd::arithmetic::div_mod::lemma_fundamental_div_mod_converse(v, 32, 7, c * 4 + hi);
        vstd::arithmetic::div_mod::lemma_fundamental_div_mod_converse(c * 4 + hi, 4, c, hi);
    }
}

/// A stream that carries the encoding of a well-formed non-Stop block at
/// position `p` parses back to that block's command id, length and payload
/// bytes: the header byte is never the stop byte, its form matches the
/// block's, and the payload bytes follow the header.
pub(crate) proof fn lemma_encoding_parse(src: Seq<u8>, p: int, b: Command)
    requires
        b.wf(),
        !(b is Stop),
        0 <= p,
        p + b.encoding().len() <= src.len(),
        src.subrange(p, p + b.encoding().len()) == b.encoding(),
    ensures
        ({
            let h = src[p] as int;
            let hb = header_bytes(b.cmd_id(), b.expand_len() as int);
            &&& src[p] != 0xFF
            &&& b.encoding().len() == hb.len() + b.payload().len()
            &&& hb.len() == (if h / 32 == 7 {
                2int
            } else {
                1int
            })
            &&& (h / 32 == 7 ==> (h % 32) / 4 == b.cmd_id() && ((h % 32) % 4) * 256 + src[p + 1]
                + 1 == b.expand_len())
            &&& (h / 32 != 7 ==> h / 32 == b.cmd_id() && h % 32 + 1 == b.expand_len())
            &&& forall|t: int|
                0 <= t < b.payload().len() ==> src[p + hb.len() + t] == #[trigger] b.payload()[t]
        }),
{
    let hb = header_bytes(b.cmd_id(), b.expand_len() as int);
    let enc = b.encoding();
    lemma_header_parse(b.cmd_id(), b.expand_len() as int);
    assert(enc == hb + b.payload());
    assert forall|k: int| 0 <= k < enc.len() implies src[p + k] == #[trigger] enc[k] by {
        assert(src.subrange(p, p + enc.len())[k] == src[p + k]);
    }
    assert(src[p] == enc[0]);
    assert(enc[0] == hb[0]);
    if hb.len() == 2 {
        assert(src[p + 1] == enc[1]);
        assert(enc[1] == hb[1]);
    }
    assert forall|t: int| 0 <= t < b.payload().len() implies src[p + hb.len() + t]
        == #[trigger] b.payload()[t] by {
        assert(enc[hb.len() + t] == b.payload()[t]);
    }
}

/// Decoding a stream that begins with the encoding of an emittable block
/// applies exactly that block and goes on with the rest of the stream.
pub(crate) proof fn lemma_decode_step(c: Command, rest: Seq<u8>, out: Seq<u8>)
    requires
        c.emittable(out.len() as nat),
    ensures
        decode_rest(c.encoding() + rest, out) == decode_rest(rest, out + c.expand(out)),
{
    let enc = c.encoding();
    let s = enc + rest;
    let id = c.cmd_id();
    let len = c.expand_len() as int;
    let hb = header_bytes(id, len);
    let pay = c.payload();
    lemma_header_parse(id, len);
    assert(enc =~= hb + pay);
    assert(s[0] == hb[0]);
    let sp = pay + rest;
    if len - 1 < 32 && id != 7 {
        assert(s.skip(1) =~= sp);
        assert(decode_rest(s, out) == decode_body(sp, out, id, len));
    } else {
        assert(s[1] == hb[1]);
        assert(s.skip(2) =~= sp);
        assert(decode_rest(s, out) == decode_body(sp, out, id, len));
    }
    match c {
        Command::Copy(data) => {
            assert(sp.len() >= len);
            assert(sp.take(len) =~= data@);
            assert(sp.skip(len) =~= rest);
        },
        Command::ByteFill { data, len: _ } => {
            assert(sp[0] == data);
            assert(sp.skip(1) =~= rest);
        },
        Command::WordFill { data, len: _ } => {
            assert(sp[0] == (data % 256) as u8);
            assert(sp[1] == (data / 256) as u8);
            assert(sp.skip(2) =~= rest);
        },
        Command::Incrementing { start, len: _ } => {
            assert(sp[0] == start);
            assert(sp.skip(1) =~= rest);
        },
        Command::Backreference { src, invert, len: _ } => {
            match src {
                Reference::Absolute(a) => {
                    assert(sp[0] == (a % 256) as u8);
                    assert(sp[1] == (a / 256) as u8);
                    vstd::arithmetic::div_mod::lemma_fundamental_div_mod(a as int, 256);
                    assert(sp[0] as int + 256 * (sp[1] as int) == a as int);
                    assert(sp.skip(2) =~= rest);
                    assert(id == 5 <==> invert);
                },
                Reference::Relative(o) => {
                    assert(sp[0] == o);
                    assert(sp.skip(1) =~= rest);
                    assert(id == 7 <==> invert);
                },
            }
        },
        Command::Stop => {
            assert(false);
        },
    }
}

/// Round trip, stated over the decoder's specification: a stream that
/// decodes to exactly `x` with nothing left over is mapped to `x`. The
/// postcondition of `compress` supplies such a stream for every input, so
/// decompressing a compressed buffer restores it, including the empty one.
pub proof fn lemma_round_trip(x: Seq<u8>, y: Seq<u8>)
    requires
        decode_rest(y, Seq::empty()) == Ok::<(Seq<u8>, Seq<u8>), DecompressionError>(
            (x, Seq::<u8>::empty()),
        ),
    ensures
        decompress_spec(y) == Ok::<Seq<u8>, DecompressionError>(x),
{
}

/// One byte of an overlapping relative back-reference, by induction: the
/// bytes produced repeat the last `o` bytes of the output cyclically.
proof fn lemma_overlap_byte(out: Seq<u8>, o: int, k: int)
    requires
        1 <= o <= out.len(),
        0 <= k,
    ensures
        backref_byte(out, out.len() - o, false, k) == out[out.len() - o + (k % o)],
    decreases k,
{
    let start = out.len() - o;
    if start + k < out.len() {
        vstd::arithmetic::div_mod::lemma_small_mod(k as nat, o as nat);
    } else {
        lemma_overlap_byte(out, o, k - o);
        vstd::arithmetic::div_mod::lemma_mod_multiples_vanish(1, k - o, o);
        assert(start + k - out.len() == k - o);
    }
}

/// Overlap copy: a relative back-reference with offset `o < len` duplicates
/// the last `o` bytes of the output, cyclically, until `len` bytes have been
/// produced.
pub proof fn lemma_overlap_copy(out: Seq<u8>, o: int, len: nat)
    requires
        1 <= o <= out.len(),
    ensures
        forall|k: int|
            0 <= k < len ==> #[trigger] backref_seq(out, out.len() - o, false, len)[k]
                == out[out.len() - o + (k % o)],
{
    assert forall|k: int| 0 <= k < len implies #[trigger] backref_seq(
        out,
        out.len() - o,
        false,
        len,
    )[k] == out[out.len() - o + (k % o)] by {
        lemma_overlap_byte(out, o, k);
    }
}

/// Bit-exact header: the short form is used exactly when `len - 1 < 32` and
/// the command id is not 7, and the bytes of both forms are pinned down.
pub proof fn lemma_header_form(c: int, len: int)
    requires
        0 <= c <= 7,
        1 <= len <= MAX_LEN,
    ensures
        header_bytes(c, len).len() == 1 <==> (len - 1 < 32 && c != 7),
        (len - 1 < 32 && c != 7) ==> header_bytes(c, len) == seq![(c * 32 + (len - 1)) as u8],
        !(len - 1 < 32 && c != 7) ==> header_bytes(c, len) == seq![
            (0xE0 + c * 4 + (len - 1) / 256) as u8,
            ((len - 1) % 256) as u8,
        ],
{
}

/// Length bound: the lengths a block header can carry lie between 1 and
/// MAX_LEN, whichever form it uses, so no block of any stream — in
/// particular none encoded by the compressor — expands to more than MAX_LEN
/// bytes.
pub proof fn lemma_block_length_bound(h: u8, n: u8)
    requires
        h != 0xFF,
    ensures
        ({
            let len = if h as int / 32 == 7 {
                ((h as int % 32) % 4) * 256 + n + 1
            } else {
                h as int % 32 + 1
            };
            1 <= len <= MAX_LEN
        }),
{
}

} // verus!
