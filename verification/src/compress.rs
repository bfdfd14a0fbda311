//! The encoder: a greedy optimiser over candidate blocks.
//!
//! At every input position the encoder builds a small candidate set — a word
//! fill, a byte fill, an incrementing run and the best back-reference — and
//! scores each by expanded length over encoded size. A candidate is emitted
//! only when it saves at least two bytes over carrying the input along as
//! literals; otherwise the byte joins a pending literal run that is flushed
//! as a Copy block. The cost table and threshold here are the byte-count
//! variant: ByteFill, Incrementing and relative back-reference arguments
//! cost one byte, WordFill words and absolute indices two, and a block is
//! emitted when its expansion is at least its cost plus two.

use vstd::prelude::*;
use crate::block::{
    apply_invert, backref_byte, backref_seq, decode_rest, decompress_spec, header_bytes,
    incrementing_seq, lemma_decode_step, word_fill_seq, Command, Reference, MAX_LEN,
};
use crate::decompress::DecompressionError;

verus! {

/// A candidate block is sound at position `i`: it may be emitted when the
/// decoder's output holds exactly the first `i` input bytes, it fits in the
/// remaining input, and it expands to exactly the next `expand_len` bytes.
pub(crate) open spec fn cand_ok(c: Command, src: Seq<u8>, i: int) -> bool {
    &&& 0 <= i
    &&& c.emittable(i as nat)
    &&& 1 <= c.expand_len()
    &&& i + c.expand_len() <= src.len()
    &&& c.expand(src.take(i)) == src.subrange(i, i + c.expand_len())
}

/// The input at `i` matches the input at `j` for `l` bytes, byte-inverted
/// iff `inv`.
pub open spec fn is_match(src: Seq<u8>, i: int, j: int, inv: bool, l: int) -> bool {
    forall|k: int| 0 <= k < l ==> #[trigger] src[i + k] == apply_invert(src[j + k], inv)
}

/// Where the relative window at position `i` begins: offsets reach back at
/// most 255 bytes.
pub open spec fn window_start(i: int) -> int {
    if i > 255 {
        i - 255
    } else {
        0
    }
}

/// The positions and lengths the back-reference search considers: the
/// relative window just before `i`, where an inverted match is capped at
/// 0x300, and the absolute region before that window, within the first
/// 65536 bytes of output, where only plain matches are looked for.
pub open spec fn backref_reach(i: int, j: int, inv: bool, l: int) -> bool {
    ||| (window_start(i) <= j < i && (if inv {
        l <= 0x300
    } else {
        l <= MAX_LEN as int
    }))
    ||| (0 <= j < window_start(i) && j < 0x10000 && !inv && l <= MAX_LEN as int)
}

/// One byte of a matched back-reference, by induction over the bytes the
/// decoder will append: a match found in the input replays exactly the
/// input, even where it overlaps its own expansion.
proof fn lemma_backref_byte_match(src: Seq<u8>, i: int, j: int, inv: bool, len: int, k: int)
    requires
        0 <= j < i,
        i + len <= src.len(),
        0 <= k < len,
        forall|k2: int| 0 <= k2 < len ==> #[trigger] src[i + k2] == apply_invert(src[j + k2], inv),
    ensures
        backref_byte(src.take(i), j, inv, k) == src[i + k],
    decreases k,
{
    let out = src.take(i);
    if j + k < i {
        assert(out[j + k] == src[j + k]);
    } else {
        let k2 = j + k - i;
        lemma_backref_byte_match(src, i, j, inv, len, k2);
        assert(src[i + k2] == apply_invert(src[j + k2], inv));
    }
}

/// A back-reference whose source bytes match the input expands to exactly
/// the matched input bytes.
proof fn lemma_backref_expand(src: Seq<u8>, i: int, j: int, inv: bool, len: int)
    requires
        0 <= j < i,
        i + len <= src.len(),
        0 <= len,
        forall|k: int| 0 <= k < len ==> #[trigger] src[i + k] == apply_invert(src[j + k], inv),
    ensures
        backref_seq(src.take(i), j, inv, len as nat) == src.subrange(i, i + len),
{
    assert forall|k: int| 0 <= k < len implies #[trigger] backref_seq(
        src.take(i),
        j,
        inv,
        len as nat,
    )[k] == src.subrange(i, i + len)[k] by {
        lemma_backref_byte_match(src, i, j, inv, len, k);
    }
    assert(backref_seq(src.take(i), j, inv, len as nat) =~= src.subrange(i, i + len));
}

/// Any match at a position `j` already measured by `backreference_at` is
/// bounded by what it reported: a match in the same mode is no longer, and
/// a match in the other mode is empty — the first byte decides the mode.
proof fn lemma_match_bounded(src: Seq<u8>, i: int, j: int, r0: bool, r1: int, inv: bool, l: int)
    requires
        0 <= j < i < src.len(),
        0 <= r1 <= MAX_LEN,
        i + r1 <= src.len(),
        is_match(src, i, j, r0, r1),
        r1 < MAX_LEN && i + r1 < src.len() ==> src[i + r1] != apply_invert(src[j + r1], r0),
        r0 ==> src[i] != src[j],
        r1 == 0 ==> src[i] != src[j] && src[i] != apply_invert(src[j], true),
        0 <= l <= MAX_LEN,
        i + l <= src.len(),
        is_match(src, i, j, inv, l),
    ensures
        inv == r0 ==> l <= r1,
        inv != r0 ==> l == 0,
{
    if inv == r0 {
        if l > r1 {
            assert(src[i + r1] == apply_invert(src[j + r1], inv));
        }
    } else {
        if l >= 1 {
            assert(src[i + 0] == apply_invert(src[j + 0], inv));
            if r1 >= 1 {
                assert(src[i + 0] == apply_invert(src[j + 0], r0));
            }
        }
    }
}

/// The longest match between the input at `i` and the input at `j`, capped
/// at MAX_LEN: a plain match if there is one, else an inverted match. A
/// zero-length result means the first bytes match in neither mode.
fn backreference_at(src: &[u8], i: usize, j: usize) -> (r: (bool, usize))
    requires
        j < i < src@.len(),
    ensures
        r.1 <= MAX_LEN,
        i + r.1 <= src@.len(),
        is_match(src@, i as int, j as int, r.0, r.1 as int),
        r.1 < MAX_LEN && i + r.1 < src@.len() ==> src@[i + r.1] != apply_invert(
            src@[j + r.1],
            r.0,
        ),
        r.0 ==> src@[i as int] != src@[j as int],
        r.1 == 0 ==> src@[i as int] != src@[j as int] && src@[i as int] != apply_invert(
            src@[j as int],
            true,
        ),
{
    let n = src.len();
    let mut len: usize = 0;
    while i + len < n && len < MAX_LEN && src[i + len] == src[j + len]
        invariant
            j < i < n == src@.len(),
            len <= MAX_LEN,
            i + len <= n,
            forall|k: int| 0 <= k < len ==> #[trigger] src@[i + k] == apply_invert(src@[j + k], false),
        decreases n - i - len,
    {
        len = len + 1;
    }
    if len > 0 {
        return (false, len);
    }
    let mut ilen: usize = 0;
    while i + ilen < n && ilen < MAX_LEN && src[i + ilen] == 0xFF - src[j + ilen]
        invariant
            j < i < n == src@.len(),
            ilen <= MAX_LEN,
            i + ilen <= n,
            forall|k: int| 0 <= k < ilen ==> #[trigger] src@[i + k] == apply_invert(src@[j + k], true),
        decreases n - i - ilen,
    {
        ilen = ilen + 1;
    }
    (true, ilen)
}

/// What the back-reference search returns when it finds anything: a
/// back-reference whose length is the maximum match length over everything
/// the search reaches, matching the input at its own source position, with
/// ties broken towards a relative reference, within the window towards a
/// plain match over an inverted one, and within a region towards the
/// earliest source position achieving that length.
pub open spec fn backref_cand(src: Seq<u8>, i: int, c: Command) -> bool {
    match c {
        Command::Backreference { src: rf, invert, len } => {
            &&& 1 <= len <= MAX_LEN
            &&& i + len <= src.len()
            &&& forall|j: int, inv: bool, l: int|
                backref_reach(i, j, inv, l) && 0 <= l && i + l <= src.len() && #[trigger] is_match(
                    src,
                    i,
                    j,
                    inv,
                    l,
                ) ==> l <= len
            &&& match rf {
                Reference::Relative(o) => {
                    &&& 1 <= o as int <= i
                    &&& window_start(i) <= i - o
                    &&& (invert ==> len <= 0x300)
                    &&& is_match(src, i, i - o, invert, len as int)
                    &&& (invert ==> forall|j: int|
                        window_start(i) <= j < i ==> !is_match(src, i, j, false, len as int))
                    &&& forall|j: int|
                        window_start(i) <= j < i - o ==> !is_match(src, i, j, invert, len as int)
                },
                Reference::Absolute(a) => {
                    &&& !invert
                    &&& (a as int) < window_start(i)
                    &&& is_match(src, i, a as int, invert, len as int)
                    &&& forall|j: int|
                        window_start(i) <= j < i ==> !is_match(src, i, j, false, len as int) && (
                        len <= 0x300 ==> !is_match(src, i, j, true, len as int))
                    &&& forall|j: int| 0 <= j < a ==> !is_match(src, i, j, false, len as int)
                },
            }
        },
        _ => false,
    }
}

/// No back-reference exists: the byte at `i` matches no reachable earlier
/// position, plainly or inverted.
pub open spec fn no_backref(src: Seq<u8>, i: int) -> bool {
    forall|j: int, inv: bool|
        backref_reach(i, j, inv, 1) ==> !(#[trigger] is_match(src, i, j, inv, 1))
}

/// The best back-reference at position `i`, if any: the longest match from
/// the relative window (the last 255 positions, ties preferring a plain
/// match over an inverted one), against the longest plain match from the
/// absolute region before it (the first 65536 positions; inverted matches
/// are not looked for there), ties preferring relative. Within a region,
/// the earliest position achieving the winning length is kept.
fn find_best_backreference(src: &[u8], i: usize) -> (r: Option<Command>)
    requires
        i < src@.len(),
    ensures
        match r {
            Some(c) => cand_ok(c, src@, i as int) && backref_cand(src@, i as int, c),
            None => no_backref(src@, i as int),
        },
{
    let farthest = if i > 255 {
        i - 255
    } else {
        0
    };
    let mut best_j: usize = 0;
    let mut best_inv: bool = false;
    let mut best_len: usize = 0;
    let mut j = farthest;
    while j < i
        invariant
            farthest == window_start(i as int),
            farthest <= j <= i,
            i < src@.len(),
            best_len <= MAX_LEN,
            best_len == 0 ==> !best_inv,
            best_len > 0 ==> {
                &&& farthest <= best_j < i
                &&& i + best_len <= src@.len()
                &&& (best_inv ==> best_len <= 0x300)
                &&& is_match(src@, i as int, best_j as int, best_inv, best_len as int)
            },
            forall|j2: int, inv2: bool, l: int|
                farthest <= j2 < j && 0 <= l && i + l <= src@.len() && (if inv2 {
                    l <= 0x300
                } else {
                    l <= MAX_LEN as int
                }) && #[trigger] is_match(src@, i as int, j2, inv2, l) ==> l <= best_len,
            best_inv ==> forall|j2: int|
                farthest <= j2 < j ==> !is_match(src@, i as int, j2, false, best_len as int),
            best_len > 0 ==> forall|j2: int|
                farthest <= j2 < best_j ==> !is_match(src@, i as int, j2, best_inv, best_len as int),
        decreases i - j,
    {
        let (inv, len0) = backreference_at(src, i, j);
        let mut len = len0;
        if inv && len > 0x300 {
            // An inverted relative back-reference longer than 0x300 cannot
            // be encoded: its long-form header would collide with Stop.
            len = 0x300;
        }
        proof {
            assert forall|inv2: bool, l: int|
                0 <= l && i + l <= src@.len() && (if inv2 {
                    l <= 0x300
                } else {
                    l <= MAX_LEN as int
                }) && #[trigger] is_match(src@, i as int, j as int, inv2, l) implies l <= len && (
            inv2 != inv ==> l == 0) by {
                lemma_match_bounded(src@, i as int, j as int, inv, len0 as int, inv2, l);
            }
        }
        if len > best_len || (len == best_len && !inv && best_inv) {
            best_j = j;
            best_inv = inv;
            best_len = len;
        }
        j = j + 1;
    }
    let abs_end = if farthest > 65536 {
        65536
    } else {
        farthest
    };
    let mut abest_j: usize = 0;
    let mut abest_len: usize = 0;
    let mut aj: usize = 0;
    while aj < abs_end
        invariant
            aj <= abs_end <= farthest <= i < src@.len(),
            abs_end <= 65536,
            abest_len <= MAX_LEN,
            abest_len > 0 ==> {
                &&& abest_j < abs_end
                &&& i + abest_len <= src@.len()
                &&& is_match(src@, i as int, abest_j as int, false, abest_len as int)
            },
            forall|j2: int, l: int|
                0 <= j2 < aj && 0 <= l <= MAX_LEN as int && i + l <= src@.len()
                    && #[trigger] is_match(src@, i as int, j2, false, l) ==> l <= abest_len,
            abest_len > 0 ==> forall|j2: int|
                0 <= j2 < abest_j ==> !is_match(src@, i as int, j2, false, abest_len as int),
        decreases abs_end - aj,
    {
        let (inv, len0) = backreference_at(src, i, aj);
        // The absolute region is searched for plain matches only.
        let len = if inv {
            0
        } else {
            len0
        };
        proof {
            assert forall|l: int|
                0 <= l <= MAX_LEN as int && i + l <= src@.len() && #[trigger] is_match(
                    src@,
                    i as int,
                    aj as int,
                    false,
                    l,
                ) implies l <= len by {
                lemma_match_bounded(src@, i as int, aj as int, inv, len0 as int, false, l);
            }
        }
        if len > abest_len {
            abest_j = aj;
            abest_len = len;
        }
        aj = aj + 1;
    }
    if best_len == 0 && abest_len == 0 {
        return None;
    }
    if best_len >= abest_len {
        let off = (i - best_j) as u8;
        let c = Command::Backreference {
            src: Reference::Relative(off),
            invert: best_inv,
            len: best_len,
        };
        proof {
            lemma_backref_expand(src@, i as int, best_j as int, best_inv, best_len as int);
            assert(src@.take(i as int).len() - off as int == best_j as int);
        }
        Some(c)
    } else {
        let c = Command::Backreference {
            src: Reference::Absolute(abest_j as u16),
            invert: false,
            len: abest_len,
        };
        proof {
            lemma_backref_expand(src@, i as int, abest_j as int, false, abest_len as int);
        }
        Some(c)
    }
}

/// The word-fill candidate at `i`: its word is the two bytes at `i`, its
/// length the longest alternating run of them, capped at MAX_LEN.
pub open spec fn wordfill_cand(src: Seq<u8>, i: int, c: Command) -> bool {
    match c {
        Command::WordFill { data, len } => {
            &&& data as int == src[i] + 256 * (src[i + 1] as int)
            &&& 2 <= len <= MAX_LEN
            &&& i + len <= src.len()
            &&& forall|k: int|
                0 <= k < len ==> #[trigger] src[i + k] == (if k % 2 == 0 {
                    src[i]
                } else {
                    src[i + 1]
                })
            &&& (len == MAX_LEN || i + len == src.len() || src[i + len] != (if (
            len as int) % 2 == 0 {
                src[i]
            } else {
                src[i + 1]
            }))
        },
        _ => false,
    }
}

/// The byte-fill candidate at `i`: the byte at `i`, for the length of its
/// run, capped at MAX_LEN.
pub open spec fn bytefill_cand(src: Seq<u8>, i: int, c: Command) -> bool {
    match c {
        Command::ByteFill { data, len } => {
            &&& data == src[i]
            &&& 1 <= len <= MAX_LEN
            &&& i + len <= src.len()
            &&& forall|k: int| 0 <= k < len ==> #[trigger] src[i + k] == data
            &&& (len == MAX_LEN || i + len == src.len() || src[i + len] != data)
        },
        _ => false,
    }
}

/// The incrementing candidate at `i`: it starts with the byte at `i` and
/// runs as long as the input keeps counting up modulo 256, capped at
/// MAX_LEN.
pub open spec fn incrementing_cand(src: Seq<u8>, i: int, c: Command) -> bool {
    match c {
        Command::Incrementing { start, len } => {
            &&& start == src[i]
            &&& 1 <= len <= MAX_LEN
            &&& i + len <= src.len()
            &&& forall|k: int| 0 <= k < len ==> #[trigger] src[i + k] == ((start + k) % 256) as u8
            &&& (len == MAX_LEN || i + len == src.len() || src[i + len] != ((start + len)
                % 256) as u8)
        },
        _ => false,
    }
}

/// The exact candidate set the evaluator builds: either the fast path — a
/// word fill alone, already at MAX_LEN — or, in this order: the word fill
/// when two bytes remain, the byte fill, the incrementing run, and the
/// best back-reference when one exists.
pub(crate) open spec fn candidate_set(src: Seq<u8>, i: int, cs: Seq<Command>) -> bool {
    if src.len() - i >= 2 && cs.len() == 1 {
        &&& wordfill_cand(src, i, cs[0])
        &&& cs[0].expand_len() == MAX_LEN
    } else {
        let w: int = if src.len() - i >= 2 {
            1
        } else {
            0
        };
        &&& (w == 1 ==> wordfill_cand(src, i, cs[0]) && cs[0].expand_len() < MAX_LEN)
        &&& (cs.len() == w + 2 || cs.len() == w + 3)
        &&& bytefill_cand(src, i, cs[w])
        &&& incrementing_cand(src, i, cs[w + 1])
        &&& (cs.len() == w + 3 ==> backref_cand(src, i, cs[w + 2]))
        &&& (cs.len() == w + 2 ==> no_backref(src, i))
    }
}

/// The candidate set at position `i`: a word fill when two bytes remain
/// (alone when it reaches MAX_LEN, which keeps the back-reference search
/// away from pathological runs), a byte fill, an incrementing run, and the
/// best back-reference if there is one.
fn get_candidates(src: &[u8], i: usize) -> (r: Vec<Command>)
    requires
        i < src@.len(),
    ensures
        r@.len() >= 1,
        forall|m: int| 0 <= m < r@.len() ==> cand_ok(#[trigger] r@[m], src@, i as int),
        candidate_set(src@, i as int, r@),
{
    let n = src.len();
    let mut candidates: Vec<Command> = Vec::new();
    if n - i >= 2 {
        let lo = src[i];
        let hi = src[i + 1];
        let word: u16 = lo as u16 + 256 * (hi as u16);
        let mut len: usize = 2;
        while i + len < n && len < MAX_LEN && ((len % 2 == 0 && src[i + len] == lo) || (len % 2
            == 1 && src[i + len] == hi))
            invariant
                2 <= len <= MAX_LEN,
                i + len <= n == src@.len(),
                lo == src@[i as int],
                hi == src@[i + 1],
                forall|k: int|
                    0 <= k < len ==> #[trigger] src@[i + k] == (if k % 2 == 0 {
                        lo
                    } else {
                        hi
                    }),
            decreases n - i - len,
        {
            len = len + 1;
        }
        let c = Command::WordFill { data: word, len };
        proof {
            vstd::arithmetic::div_mod::lemma_fundamental_div_mod_converse(
                word as int,
                256,
                hi as int,
                lo as int,
            );
            assert((word % 256) as u8 == lo);
            assert((word / 256) as u8 == hi);
            assert forall|k: int| 0 <= k < len implies #[trigger] word_fill_seq(
                lo,
                hi,
                len as nat,
            )[k] == src@.subrange(i as int, i + len)[k] by {
                assert(src@[i + k] == (if k % 2 == 0 {
                    lo
                } else {
                    hi
                }));
            }
            assert(c.expand(src@.take(i as int)) =~= src@.subrange(i as int, i + len));
        }
        candidates.push(c);
        if len == MAX_LEN {
            return candidates;
        }
    }
    let d = src[i];
    let mut blen: usize = 1;
    while i + blen < n && blen < MAX_LEN && src[i + blen] == d
        invariant
            1 <= blen <= MAX_LEN,
            i + blen <= n == src@.len(),
            d == src@[i as int],
            forall|k: int| 0 <= k < blen ==> #[trigger] src@[i + k] == d,
        decreases n - i - blen,
    {
        blen = blen + 1;
    }
    let c = Command::ByteFill { data: d, len: blen };
    proof {
        assert(c.expand(src@.take(i as int)) =~= src@.subrange(i as int, i + blen));
        assert(forall|m: int|
            0 <= m < candidates@.len() ==> cand_ok(#[trigger] candidates@[m], src@, i as int));
    }
    candidates.push(c);
    let s0 = src[i];
    let mut ilen: usize = 1;
    while i + ilen < n && ilen < MAX_LEN && src[i + ilen] == ((s0 as usize + ilen) % 256) as u8
        invariant
            1 <= ilen <= MAX_LEN,
            i + ilen <= n == src@.len(),
            s0 == src@[i as int],
            forall|k: int| 0 <= k < ilen ==> #[trigger] src@[i + k] == ((s0 + k) % 256) as u8,
        decreases n - i - ilen,
    {
        ilen = ilen + 1;
    }
    let c = Command::Incrementing { start: s0, len: ilen };
    proof {
        assert forall|k: int| 0 <= k < ilen implies #[trigger] incrementing_seq(s0, ilen as nat)[k]
            == src@.subrange(i as int, i + ilen)[k] by {
            assert(src@[i + k] == ((s0 + k) % 256) as u8);
        }
        assert(c.expand(src@.take(i as int)) =~= src@.subrange(i as int, i + ilen));
        assert(forall|m: int|
            0 <= m < candidates@.len() ==> cand_ok(#[trigger] candidates@[m], src@, i as int));
    }
    candidates.push(c);
    match find_best_backreference(src, i) {
        Some(c) => {
            proof {
                assert(forall|m: int|
                    0 <= m < candidates@.len() ==> cand_ok(
                        #[trigger] candidates@[m],
                        src@,
                        i as int,
                    ));
            }
            candidates.push(c);
        },
        None => {},
    }
    candidates
}

/// The word-fill pattern at `i` fills a whole MAX_LEN block: the fast path
/// of the candidate evaluator, which then skips every other candidate.
pub open spec fn wordfill_max(src: Seq<u8>, i: int) -> bool {
    &&& src.len() - i >= 2
    &&& i + MAX_LEN <= src.len()
    &&& forall|k: int|
        0 <= k < MAX_LEN ==> #[trigger] src[i + k] == (if k % 2 == 0 {
            src[i]
        } else {
            src[i + 1]
        })
}

/// One of the candidates the evaluator weighs at position `i`.
pub open spec fn is_candidate(src: Seq<u8>, i: int, c: Command) -> bool {
    ||| (src.len() - i >= 2 && wordfill_cand(src, i, c))
    ||| bytefill_cand(src, i, c)
    ||| incrementing_cand(src, i, c)
    ||| backref_cand(src, i, c)
}

/// The order in which the evaluator proposes candidates; ties in score go
/// to the lower rank.
pub open spec fn kind_rank(c: Command) -> int {
    match c {
        Command::WordFill { .. } => 0,
        Command::ByteFill { .. } => 1,
        Command::Incrementing { .. } => 2,
        Command::Backreference { .. } => 3,
        Command::Copy(_) => 4,
        Command::Stop => 5,
    }
}

/// Ratios compare transitively by cross-multiplication: if `a/b` beats
/// `c/d` and `c/d` beats `e/f`, then `a/b` beats `e/f`.
proof fn lemma_ratio_trans(a: int, b: int, c: int, d: int, e: int, f: int)
    requires
        b >= 1,
        d >= 1,
        f >= 1,
        a >= 0,
        c >= 0,
        e >= 0,
        c * f >= e * d,
    ensures
        a * d >= c * b ==> a * f >= e * b,
        a * d > c * b ==> a * f > e * b,
{
    if a * d >= c * b {
        assert(a * f >= e * b) by (nonlinear_arith)
            requires
                a * d >= c * b,
                c * f >= e * d,
                b >= 1,
                d >= 1,
                f >= 1,
                a >= 0,
                c >= 0,
                e >= 0,
        ;
    }
    if a * d > c * b {
        assert(a * f > e * b) by (nonlinear_arith)
            requires
                a * d > c * b,
                c * f >= e * d,
                b >= 1,
                d >= 1,
                f >= 1,
                a >= 0,
                c >= 0,
                e >= 0,
        ;
    }
}

/// Only one command satisfies the word-fill candidate description at `i`.
proof fn lemma_wordfill_unique(src: Seq<u8>, i: int, c1: Command, c2: Command)
    requires
        wordfill_cand(src, i, c1),
        wordfill_cand(src, i, c2),
    ensures
        c1 == c2,
{
    match (c1, c2) {
        (Command::WordFill { data: d1, len: l1 }, Command::WordFill { data: d2, len: l2 }) => {
            if l1 < l2 {
                assert(src[i + l1] == (if (l1 as int) % 2 == 0 {
                    src[i]
                } else {
                    src[i + 1]
                }));
            }
            if l2 < l1 {
                assert(src[i + l2] == (if (l2 as int) % 2 == 0 {
                    src[i]
                } else {
                    src[i + 1]
                }));
            }
            assert(l1 == l2 && d1 == d2);
        },
        _ => {
            assert(false);
        },
    }
}

/// Only one command satisfies the byte-fill candidate description at `i`.
proof fn lemma_bytefill_unique(src: Seq<u8>, i: int, c1: Command, c2: Command)
    requires
        bytefill_cand(src, i, c1),
        bytefill_cand(src, i, c2),
    ensures
        c1 == c2,
{
    match (c1, c2) {
        (Command::ByteFill { data: d1, len: l1 }, Command::ByteFill { data: d2, len: l2 }) => {
            if l1 < l2 {
                assert(src[i + l1] == d2);
            }
            if l2 < l1 {
                assert(src[i + l2] == d1);
            }
            assert(l1 == l2 && d1 == d2);
        },
        _ => {
            assert(false);
        },
    }
}

/// Only one command satisfies the incrementing candidate description at `i`.
proof fn lemma_incrementing_unique(src: Seq<u8>, i: int, c1: Command, c2: Command)
    requires
        incrementing_cand(src, i, c1),
        incrementing_cand(src, i, c2),
    ensures
        c1 == c2,
{
    match (c1, c2) {
        (
            Command::Incrementing { start: s1, len: l1 },
            Command::Incrementing { start: s2, len: l2 },
        ) => {
            if l1 < l2 {
                assert(src[i + l1] == ((s2 + l1) % 256) as u8);
            }
            if l2 < l1 {
                assert(src[i + l2] == ((s1 + l2) % 256) as u8);
            }
            assert(l1 == l2 && s1 == s2);
        },
        _ => {
            assert(false);
        },
    }
}

/// Only one command satisfies the back-reference candidate description at
/// `i`: the length is the shared maximum, the tie-break clauses pin the
/// reference form, and the first-position clauses pin its source.
proof fn lemma_backref_unique(src: Seq<u8>, i: int, c1: Command, c2: Command)
    requires
        0 <= i,
        backref_cand(src, i, c1),
        backref_cand(src, i, c2),
    ensures
        c1 == c2,
{
    match (c1, c2) {
        (
            Command::Backreference { src: r1, invert: v1, len: l1 },
            Command::Backreference { src: r2, invert: v2, len: l2 },
        ) => {
            let j1: int = match r1 {
                Reference::Relative(o) => i - o,
                Reference::Absolute(a) => a as int,
            };
            let j2: int = match r2 {
                Reference::Relative(o) => i - o,
                Reference::Absolute(a) => a as int,
            };
            assert(backref_reach(i, j1, v1, l1 as int));
            assert(backref_reach(i, j2, v2, l2 as int));
            assert(l1 == l2);
            match (r1, r2) {
                (Reference::Relative(o1), Reference::Relative(o2)) => {
                    if v1 && !v2 {
                        assert(!is_match(src, i, j2, false, l2 as int));
                    }
                    if v2 && !v1 {
                        assert(!is_match(src, i, j1, false, l1 as int));
                    }
                    if j1 < j2 {
                        assert(!is_match(src, i, j1, v1, l1 as int));
                    }
                    if j2 < j1 {
                        assert(!is_match(src, i, j2, v2, l2 as int));
                    }
                },
                (Reference::Relative(o1), Reference::Absolute(a2)) => {
                    assert(!is_match(src, i, j1, v1, l1 as int));
                },
                (Reference::Absolute(a1), Reference::Relative(o2)) => {
                    assert(!is_match(src, i, j2, v2, l2 as int));
                },
                (Reference::Absolute(a1), Reference::Absolute(a2)) => {
                    if j1 < j2 {
                        assert(!is_match(src, i, j1, false, l1 as int));
                    }
                    if j2 < j1 {
                        assert(!is_match(src, i, j2, false, l2 as int));
                    }
                },
            }
        },
        _ => {
            assert(false);
        },
    }
}

/// What the evaluator's selection returns at position `i`: on the fast
/// path the MAX_LEN word fill; otherwise a candidate that no candidate
/// beats on the ratio of expanded length to encoded size, earlier kinds
/// winning ties.
pub open spec fn picks(src: Seq<u8>, i: int, c: Command) -> bool {
    if wordfill_max(src, i) {
        wordfill_cand(src, i, c)
    } else {
        &&& is_candidate(src, i, c)
        &&& forall|c2: Command|
            #[trigger] is_candidate(src, i, c2) ==> c.expand_len() * c2.spec_cost()
                >= c2.expand_len() * c.spec_cost() && (c.expand_len() * c2.spec_cost()
                == c2.expand_len() * c.spec_cost() ==> kind_rank(c) <= kind_rank(c2))
    }
}

/// Only one command satisfies the selection description: the mutual ratio
/// bounds force equal scores, the rank tie-break forces equal kinds, and
/// each kind's candidate is unique. The spec-level encoder is therefore a
/// function of the input alone.
pub proof fn lemma_picks_unique(src: Seq<u8>, i: int, c1: Command, c2: Command)
    requires
        0 <= i,
        picks(src, i, c1),
        picks(src, i, c2),
    ensures
        c1 == c2,
{
    if wordfill_max(src, i) {
        lemma_wordfill_unique(src, i, c1, c2);
    } else {
        assert(is_candidate(src, i, c2));
        assert(is_candidate(src, i, c1));
        assert(kind_rank(c1) == kind_rank(c2));
        match c1 {
            Command::WordFill { .. } => {
                lemma_wordfill_unique(src, i, c1, c2);
            },
            Command::ByteFill { .. } => {
                lemma_bytefill_unique(src, i, c1, c2);
            },
            Command::Incrementing { .. } => {
                lemma_incrementing_unique(src, i, c1, c2);
            },
            Command::Backreference { .. } => {
                lemma_backref_unique(src, i, c1, c2);
            },
            _ => {
                assert(false);
            },
        }
    }
}

/// The block the evaluator selects at position `i`, as a specification
/// value: the unique command satisfying [`picks`].
pub open spec fn best_cand(src: Seq<u8>, i: int) -> Command {
    choose|c: Command| picks(src, i, c)
}

/// The best candidate at position `i`: on the fast path, the MAX_LEN word
/// fill alone; otherwise the candidate with the highest ratio of expanded
/// length to encoded size, earlier candidates winning ties.
fn find_best(src: &[u8], i: usize) -> (r: Command)
    requires
        i < src@.len(),
    ensures
        cand_ok(r, src@, i as int),
        picks(src@, i as int, r),
        r == best_cand(src@, i as int),
{
    proof {
        assert(i as int >= 0);
    }
    let mut candidates = get_candidates(src, i);
    let ghost cs = candidates@;
    let mut bi: usize = 0;
    let mut k: usize = 1;
    while k < candidates.len()
        invariant
            1 <= candidates@.len(),
            candidates@ == cs,
            bi < k,
            k <= candidates@.len(),
            forall|m: int|
                0 <= m < candidates@.len() ==> cand_ok(#[trigger] candidates@[m], src@, i as int),
            forall|m: int| #![trigger cs[m]]
                0 <= m < k ==> cs[bi as int].expand_len() * cs[m].spec_cost() >= cs[m].expand_len()
                    * cs[bi as int].spec_cost(),
            forall|m: int| #![trigger cs[m]]
                0 <= m < k && cs[bi as int].expand_len() * cs[m].spec_cost() == cs[m].expand_len()
                    * cs[bi as int].spec_cost() ==> bi <= m,
        decreases candidates@.len() - k,
    {
        let lk = candidates[k].len();
        let ck = candidates[k].cost();
        let lb = candidates[bi].len();
        let cb = candidates[bi].cost();
        proof {
            assert(lk <= MAX_LEN && lb <= MAX_LEN);
            assert(ck <= MAX_LEN + 2 && cb <= MAX_LEN + 2);
            assert(ck >= 1 && cb >= 1);
            assert(lk * cb <= MAX_LEN * (MAX_LEN + 2)) by (nonlinear_arith)
                requires
                    0 <= lk <= MAX_LEN,
                    0 <= cb <= MAX_LEN + 2,
            ;
            assert(lb * ck <= MAX_LEN * (MAX_LEN + 2)) by (nonlinear_arith)
                requires
                    0 <= lb <= MAX_LEN,
                    0 <= ck <= MAX_LEN + 2,
            ;
            if lk * cb > lb * ck {
                assert forall|m: int| #![trigger cs[m]] 0 <= m < k + 1 implies cs[k as int].expand_len()
                    * cs[m].spec_cost() >= cs[m].expand_len() * cs[k as int].spec_cost() && (cs[
                k as int].expand_len() * cs[m].spec_cost() > cs[m].expand_len() * cs[
                k as int].spec_cost() || k as int <= m) by {
                    if m < k {
                        assert(cs[m].spec_cost() >= 1);
                        lemma_ratio_trans(
                            cs[k as int].expand_len() as int,
                            cs[k as int].spec_cost(),
                            cs[bi as int].expand_len() as int,
                            cs[bi as int].spec_cost(),
                            cs[m].expand_len() as int,
                            cs[m].spec_cost(),
                        );
                    }
                }
            }
        }
        if lk * cb > lb * ck {
            bi = k;
        }
        k = k + 1;
    }
    let best = candidates.swap_remove(bi);
    proof {
        let ii = i as int;
        if src@.len() - i >= 2 && cs.len() == 1 {
            assert(wordfill_max(src@, ii));
        } else {
            let w: int = if src@.len() - i >= 2 {
                1
            } else {
                0
            };
            assert(!wordfill_max(src@, ii)) by {
                if wordfill_max(src@, ii) {
                    match cs[0] {
                        Command::WordFill { data, len } => {
                            assert(src@[ii + len] == (if (len as int) % 2 == 0 {
                                src@[ii]
                            } else {
                                src@[ii + 1]
                            }));
                        },
                        _ => {
                            assert(false);
                        },
                    }
                }
            }
            assert(kind_rank(best) == bi + 1 - w);
            assert forall|c: Command| #[trigger] is_candidate(src@, ii, c) implies best.expand_len()
                * c.spec_cost() >= c.expand_len() * best.spec_cost() && (best.expand_len()
                * c.spec_cost() == c.expand_len() * best.spec_cost() ==> kind_rank(best)
                <= kind_rank(c)) by {
                if src@.len() - i >= 2 && wordfill_cand(src@, ii, c) {
                    lemma_wordfill_unique(src@, ii, c, cs[0]);
                } else if bytefill_cand(src@, ii, c) {
                    lemma_bytefill_unique(src@, ii, c, cs[w]);
                } else if incrementing_cand(src@, ii, c) {
                    lemma_incrementing_unique(src@, ii, c, cs[w + 1]);
                } else {
                    if cs.len() == w + 3 {
                        lemma_backref_unique(src@, ii, c, cs[w + 2]);
                        assert(kind_rank(c) == 3);
                    } else {
                        match c {
                            Command::Backreference { src: rf, invert, len } => {
                                let jc: int = match rf {
                                    Reference::Relative(o) => ii - o,
                                    Reference::Absolute(a) => a as int,
                                };
                                assert(is_match(src@, ii, jc, invert, 1));
                                assert(backref_reach(ii, jc, invert, 1));
                                assert(false);
                            },
                            _ => {
                                assert(false);
                            },
                        }
                    }
                }
            }
        }
        assert(picks(src@, ii, best));
        assert(picks(src@, ii, best_cand(src@, ii)));
        lemma_picks_unique(src@, ii, best_cand(src@, ii), best);
    }
    best
}

/// Serializes one sound block and advances the decoded prefix it stands
/// for: if everything written so far decodes to the first `done` input
/// bytes, then afterwards it decodes to the first `done + expand_len` bytes.
fn emit(cmd: &Command, dst: &mut Vec<u8>, Ghost(src): Ghost<Seq<u8>>, Ghost(done): Ghost<int>)
    requires
        cand_ok(*cmd, src, done),
        forall|rest: Seq<u8>| #[trigger]
            decode_rest(old(dst)@ + rest, Seq::<u8>::empty()) == decode_rest(
                rest,
                src.take(done),
            ),
    ensures
        final(dst)@ == old(dst)@ + cmd.encoding(),
        forall|rest: Seq<u8>| #[trigger]
            decode_rest(final(dst)@ + rest, Seq::<u8>::empty()) == decode_rest(
                rest,
                src.take(done + cmd.expand_len()),
            ),
{
    cmd.write(dst);
    proof {
        let pre = old(dst)@;
        let enc = cmd.encoding();
        let out = src.take(done);
        assert forall|rest: Seq<u8>| #[trigger]
            decode_rest(dst@ + rest, Seq::<u8>::empty()) == decode_rest(
                rest,
                src.take(done + cmd.expand_len()),
            ) by {
            assert(dst@ + rest =~= pre + (enc + rest));
            assert(decode_rest(pre + (enc + rest), Seq::<u8>::empty()) == decode_rest(
                enc + rest,
                out,
            ));
            lemma_decode_step(*cmd, rest, out);
            assert(out + cmd.expand(out) =~= src.take(done + cmd.expand_len()));
        }
    }
}

/// The encoding of a pending literal run flushed as one Copy block.
pub open spec fn copy_encoding(pending: Seq<u8>) -> Seq<u8> {
    header_bytes(0, pending.len() as int) + pending
}

/// The rest of the compressed stream, from position `i` with the literal
/// run `pending` not yet flushed: the specification-level encoder. At each
/// position the selected candidate is emitted when its expansion is at
/// least its encoded size plus two; otherwise the input byte joins the
/// pending run, which is flushed when it fills a whole Copy block and
/// before every emitted block. The stream ends with the flushed leftovers
/// and the stop byte.
pub open spec fn compress_from(src: Seq<u8>, i: int, pending: Seq<u8>) -> Seq<u8>
    decreases src.len() - i,
{
    if i < 0 || i >= src.len() {
        if pending.len() > 0 {
            copy_encoding(pending) + seq![0xFFu8]
        } else {
            seq![0xFFu8]
        }
    } else {
        let best = best_cand(src, i);
        let bl = best.expand_len() as int;
        if bl >= best.spec_cost() + 2 && 1 <= bl && i + bl <= src.len() {
            (if pending.len() > 0 {
                copy_encoding(pending)
            } else {
                Seq::<u8>::empty()
            }) + best.encoding() + compress_from(src, i + bl, Seq::<u8>::empty())
        } else {
            let pending2 = pending.push(src[i]);
            if pending2.len() == MAX_LEN {
                copy_encoding(pending2) + compress_from(src, i + 1, Seq::<u8>::empty())
            } else {
                compress_from(src, i + 1, pending2)
            }
        }
    }
}

/// The exact byte stream the compressor produces for `src`.
pub open spec fn compress_spec(src: Seq<u8>) -> Seq<u8> {
    compress_from(src, 0, Seq::<u8>::empty())
}

/// Compresses the provided data.
///
/// The output is exactly the stream of the specification-level encoder: a
/// stop-terminated block stream that the decoder maps back to the input —
/// decoding consumes the whole output, ends on its final byte, the single
/// stop byte `0xFF`, and yields `src` again, for every input including the
/// empty one.
#[verifier::rlimit(100)]
pub fn compress(src: &[u8]) -> (r: Vec<u8>)
    ensures
        r@ == compress_spec(src@),
        decode_rest(r@, Seq::<u8>::empty()) == Ok::<(Seq<u8>, Seq<u8>), DecompressionError>(
            (src@, Seq::<u8>::empty()),
        ),
        decompress_spec(r@) == Ok::<Seq<u8>, DecompressionError>(src@),
        r@.len() >= 1,
        r@[r@.len() - 1] == 0xFF,
{
    let mut dst: Vec<u8> = Vec::new();
    let mut prev_copy: Vec<u8> = Vec::new();
    let mut i: usize = 0;
    proof {
        assert(src@.take(0) =~= Seq::<u8>::empty());
        assert(prev_copy@ =~= src@.subrange(0, 0));
        assert forall|rest: Seq<u8>| #[trigger]
            decode_rest(dst@ + rest, Seq::<u8>::empty()) == decode_rest(
                rest,
                src@.take(0),
            ) by {
            assert(dst@ + rest =~= rest);
        }
        assert(dst@ + compress_from(src@, 0, prev_copy@) =~= compress_from(
            src@,
            0,
            Seq::<u8>::empty(),
        ));
    }
    while i < src.len()
        invariant
            i <= src@.len(),
            prev_copy@.len() <= i,
            prev_copy@.len() < MAX_LEN,
            prev_copy@ == src@.subrange(i - prev_copy@.len(), i as int),
            forall|rest: Seq<u8>| #[trigger]
                decode_rest(dst@ + rest, Seq::<u8>::empty()) == decode_rest(
                    rest,
                    src@.take(i - prev_copy@.len()),
                ),
            compress_spec(src@) == dst@ + compress_from(src@, i as int, prev_copy@),
        decreases src@.len() - i,
    {
        let ghost i0 = i as int;
        let ghost p0 = prev_copy@;
        let ghost d0 = dst@;
        let best = find_best(src, i);
        let bl = best.len();
        let bc = best.cost();
        // A block is emitted only if it saves at least two bytes over
        // carrying its bytes as literals.
        if bl >= bc + 2 {
            proof {
                assert(compress_from(src@, i0, p0) == (if p0.len() > 0 {
                    copy_encoding(p0)
                } else {
                    Seq::<u8>::empty()
                }) + best.encoding() + compress_from(src@, i0 + bl, Seq::<u8>::empty()));
            }
            if prev_copy.len() > 0 {
                let ghost done = i - prev_copy@.len();
                let copy_cmd = Command::Copy(prev_copy);
                prev_copy = Vec::new();
                proof {
                    assert(cand_ok(copy_cmd, src@, done));
                    assert(copy_cmd.encoding() =~= copy_encoding(p0));
                }
                emit(&copy_cmd, &mut dst, Ghost(src@), Ghost(done));
                proof {
                    assert(prev_copy@ =~= src@.subrange(i as int, i as int));
                }
            }
            emit(&best, &mut dst, Ghost(src@), Ghost(i as int));
            i = i + bl;
            proof {
                assert(prev_copy@ =~= src@.subrange(i as int, i as int));
                assert(prev_copy@ =~= Seq::<u8>::empty());
                let flush = if p0.len() > 0 {
                    copy_encoding(p0)
                } else {
                    Seq::<u8>::empty()
                };
                let tail = compress_from(src@, i0 + bl, Seq::<u8>::empty());
                assert(compress_from(src@, i as int, prev_copy@) == tail);
                assert(dst@ =~= d0 + flush + best.encoding());
                assert(compress_from(src@, i0, p0) == flush + best.encoding() + tail);
                assert(d0 + (flush + best.encoding() + tail) =~= (d0 + flush + best.encoding())
                    + tail);
                assert(d0 + compress_from(src@, i0, p0) =~= dst@ + compress_from(
                    src@,
                    i as int,
                    prev_copy@,
                ));
            }
        } else {
            prev_copy.push(src[i]);
            i = i + 1;
            proof {
                assert(prev_copy@ =~= src@.subrange(i - prev_copy@.len(), i as int));
                assert(compress_from(src@, i0, p0) == (if p0.push(src@[i0]).len() == MAX_LEN {
                    copy_encoding(p0.push(src@[i0])) + compress_from(
                        src@,
                        i0 + 1,
                        Seq::<u8>::empty(),
                    )
                } else {
                    compress_from(src@, i0 + 1, p0.push(src@[i0]))
                }));
            }
            if prev_copy.len() == MAX_LEN {
                // A literal run never outgrows one Copy block.
                let ghost done = i - prev_copy@.len();
                let ghost p2 = prev_copy@;
                let copy_cmd = Command::Copy(prev_copy);
                prev_copy = Vec::new();
                proof {
                    assert(cand_ok(copy_cmd, src@, done));
                    assert(copy_cmd.encoding() =~= copy_encoding(p2));
                }
                emit(&copy_cmd, &mut dst, Ghost(src@), Ghost(done));
                proof {
                    assert(prev_copy@ =~= src@.subrange(i as int, i as int));
                    assert(d0 + compress_from(src@, i0, p0) =~= dst@ + compress_from(
                        src@,
                        i as int,
                        prev_copy@,
                    ));
                }
            }
        }
    }
    let ghost pend = prev_copy@;
    let ghost dpre = dst@;
    if prev_copy.len() > 0 {
        let ghost done = i - prev_copy@.len();
        let copy_cmd = Command::Copy(prev_copy);
        prev_copy = Vec::new();
        proof {
            assert(cand_ok(copy_cmd, src@, done));
            assert(copy_cmd.encoding() =~= copy_encoding(pend));
        }
        emit(&copy_cmd, &mut dst, Ghost(src@), Ghost(done));
    }
    let ghost pre = dst@;
    Command::Stop.write(&mut dst);
    proof {
        let stop: Seq<u8> = seq![0xFFu8];
        assert(src@.take(i as int) =~= src@);
        assert(decode_rest(pre + stop, Seq::<u8>::empty()) == decode_rest(stop, src@.take(
            i as int,
        )));
        assert(stop.skip(1) =~= Seq::<u8>::empty());
        assert(decode_rest(stop, src@) == Ok::<(Seq<u8>, Seq<u8>), DecompressionError>(
            (src@, stop.skip(1)),
        ));
        assert(dst@ =~= pre + stop);
        assert(dst@ =~= dpre + compress_from(src@, i as int, pend));
    }
    dst
}

} // verus!
