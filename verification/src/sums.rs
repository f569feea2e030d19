use vstd::prelude::*;

use vstd::arithmetic::div_mod::{
    lemma_add_mod_noop, lemma_fundamental_div_mod, lemma_fundamental_div_mod_converse,
};

use crate::wire::{i32_as_u32, push_u32_le, read_u32_le_at, u32_le_bytes, u32_of_le};

verus! {

// The per-file block-checksum preamble and the two checksums the generator
// emits over each basis block.

/// Block-checksum descriptor for one file. All four fields zero means
/// "no basis, send the whole file".
#[derive(Clone, Copy, Debug, PartialEq, Eq, Structural)]
pub struct SumHead {
    pub checksum_count: u32,
    pub block_len: u32,
    pub checksum_len: u32,
    pub remainder_len: u32,
}

impl SumHead {
    /// The descriptor that requests a whole-file transfer.
    pub fn zero() -> (r: SumHead)
        ensures
            r.checksum_count == 0 && r.block_len == 0 && r.checksum_len == 0 && r.remainder_len
                == 0,
    {
        SumHead { checksum_count: 0, block_len: 0, checksum_len: 0, remainder_len: 0 }
    }
}

pub open spec fn sum_head_bytes(h: SumHead) -> Seq<u8> {
    u32_le_bytes(h.checksum_count) + u32_le_bytes(h.block_len) + u32_le_bytes(h.checksum_len)
        + u32_le_bytes(h.remainder_len)
}

pub fn push_sum_head(out: &mut Vec<u8>, h: &SumHead)
    ensures
        final(out)@ == old(out)@ + sum_head_bytes(*h),
{
    push_u32_le(out, h.checksum_count);
    push_u32_le(out, h.block_len);
    push_u32_le(out, h.checksum_len);
    push_u32_le(out, h.remainder_len);
    proof {
        assert(out@ =~= old(out)@ + sum_head_bytes(*h));
    }
}

pub open spec fn spec_read_sum_head(s: Seq<u8>, pos: int) -> Option<(SumHead, int)> {
    if pos < 0 || pos + 16 > s.len() {
        None
    } else {
        Some((
            SumHead {
                checksum_count: u32_of_le(s[pos], s[pos + 1], s[pos + 2], s[pos + 3]),
                block_len: u32_of_le(s[pos + 4], s[pos + 5], s[pos + 6], s[pos + 7]),
                checksum_len: u32_of_le(s[pos + 8], s[pos + 9], s[pos + 10], s[pos + 11]),
                remainder_len: u32_of_le(s[pos + 12], s[pos + 13], s[pos + 14], s[pos + 15]),
            },
            pos + 16,
        ))
    }
}

pub fn read_sum_head_at(buf: &Vec<u8>, pos: usize) -> (r: Option<(SumHead, usize)>)
    ensures
        match r {
            Some((h, n)) => spec_read_sum_head(buf@, pos as int) == Some((h, n as int)),
            None => spec_read_sum_head(buf@, pos as int) is None,
        },
{
    let (checksum_count, p1) = match read_u32_le_at(buf, pos) {
        Some(v) => v,
        None => {
            return None;
        },
    };
    let (block_len, p2) = match read_u32_le_at(buf, p1) {
        Some(v) => v,
        None => {
            return None;
        },
    };
    let (checksum_len, p3) = match read_u32_le_at(buf, p2) {
        Some(v) => v,
        None => {
            return None;
        },
    };
    let (remainder_len, p4) = match read_u32_le_at(buf, p3) {
        Some(v) => v,
        None => {
            return None;
        },
    };
    Some((SumHead { checksum_count, block_len, checksum_len, remainder_len }, p4))
}

/// `b` is the least integer whose square reaches `n`.
pub open spec fn is_ceil_sqrt(b: int, n: int) -> bool {
    &&& b * b >= n
    &&& b > 0 ==> (b - 1) * (b - 1) < n
    &&& b >= 0
}

fn ceil_sqrt(n: u64) -> (r: u64)
    requires
        n <= 0x1000_0000_0000_0000,
    ensures
        is_ceil_sqrt(r as int, n as int),
        r <= 0x4000_0000,
{
    let mut lo: u64 = 0;
    let mut hi: u64 = 0x4000_0000;
    proof {
        assert(0x4000_0000u64 * 0x4000_0000u64 == 0x1000_0000_0000_0000) by (nonlinear_arith);
    }
    while lo < hi
        invariant
            lo <= hi <= 0x4000_0000,
            hi * hi >= n,
            lo > 0 ==> (lo - 1) * (lo - 1) < n,
        decreases hi - lo,
    {
        let mid: u64 = lo + (hi - lo) / 2;
        proof {
            assert(mid * mid <= 0x4000_0000u64 * 0x4000_0000u64) by (nonlinear_arith)
                requires
                    mid <= 0x4000_0000u64,
            ;
        }
        if mid * mid >= n {
            hi = mid;
        } else {
            lo = mid + 1;
        }
    }
    lo
}

/// The square-root block-size policy: block length near the square root of
/// the file length, rounded up to a multiple of 8 and clamped into
/// [700, 2^29]; count and remainder follow by division. The count field
/// forces the file-length bound.
pub fn sum_sizes_sqroot(len: u64) -> (r: SumHead)
    requires
        len <= 0x1000_0000_0000_0000,
    ensures
        r.checksum_len == 16,
        700 <= r.block_len <= 0x2000_0000,
        exists|b: int|
            is_ceil_sqrt(b, len as int) && r.block_len == clamp_block(
                #[trigger] round_up8(b),
            ),
        r.checksum_count == (len + r.block_len - 1) as u64 / r.block_len as u64,
        r.remainder_len == len as u64 % r.block_len as u64,
        len == 0 ==> r.checksum_count == 0,
        len > 0 ==> r.checksum_count > 0,
        r.remainder_len < r.block_len,
        r.remainder_len != 0 ==> (r.checksum_count - 1) * r.block_len + r.remainder_len == len,
        r.remainder_len == 0 ==> r.checksum_count * r.block_len == len,
{
    let b = ceil_sqrt(len);
    let rounded: u64 = ((b + 7) / 8) * 8;
    let bl: u64 = if rounded < 700 {
        700
    } else if rounded > 0x2000_0000 {
        0x2000_0000
    } else {
        rounded
    };
    proof {
        assert(round_up8(b as int) == rounded) by {
            lemma_fundamental_div_mod((b + 7) as int, 8);
        }
        assert(clamp_block(rounded as int) == bl);
    }
    let block_len: u32 = bl as u32;
    let count64: u64 = (len + bl - 1) / bl;
    let rem64: u64 = len % bl;
    proof {
        assert(bl * bl >= len || bl == 0x2000_0000) by {
            lemma_fundamental_div_mod((b + 7) as int, 8);
            vstd::arithmetic::div_mod::lemma_mod_bound((b + 7) as int, 8);
            assert(rounded >= b);
            if rounded <= 0x2000_0000 {
                assert(bl >= b);
                assert(bl * bl >= b * b) by (nonlinear_arith)
                    requires
                        bl >= b >= 0,
                ;
            }
        }
        lemma_fundamental_div_mod(len as int, bl as int);
        lemma_count_bounds(len as int, bl as int);
    }
    let checksum_count: u32 = count64 as u32;
    let remainder_len: u32 = rem64 as u32;
    let r = SumHead { checksum_count, block_len, checksum_len: 16, remainder_len };
    proof {
        lemma_sum_head_shape(len as int, bl as int);
    }
    r
}

pub open spec fn round_up8(b: int) -> int {
    ((b + 7) / 8) * 8
}

pub open spec fn clamp_block(x: int) -> int {
    if x < 700 {
        700
    } else if x > 0x2000_0000 {
        0x2000_0000
    } else {
        x
    }
}

/// With `q = ceil(len / bl)` and `rem = len % bl`: the count fits in
/// 32 bits because the block length is near the square root of the file
/// length, an empty file yields no blocks, and the remainder is a proper
/// remainder.
proof fn lemma_count_bounds(len: int, bl: int)
    requires
        0 <= len <= 0x1000_0000_0000_0000,
        700 <= bl <= 0x2000_0000,
        bl * bl >= len || bl == 0x2000_0000,
    ensures
        (len + bl - 1) / bl <= 0x8000_0000,
        (len + bl - 1) / bl >= 0,
        len % bl < bl,
        0 <= len % bl,
        len == 0 ==> (len + bl - 1) / bl == 0,
        len > 0 ==> (len + bl - 1) / bl > 0,
{
    lemma_fundamental_div_mod(len, bl);
    let q = len / bl;
    let rem = len % bl;
    assert(0 <= q) by (nonlinear_arith)
        requires
            len == bl * q + rem,
            0 <= len,
            0 <= rem < bl,
    ;
    if rem > 0 {
        assert(len + bl - 1 == (q + 1) * bl + (rem - 1)) by (nonlinear_arith)
            requires
                len == bl * q + rem,
        ;
        lemma_fundamental_div_mod_converse(len + bl - 1, bl, q + 1, rem - 1);
    } else {
        assert(len + bl - 1 == q * bl + (bl - 1)) by (nonlinear_arith)
            requires
                len == bl * q + rem,
                rem == 0,
        ;
        lemma_fundamental_div_mod_converse(len + bl - 1, bl, q, bl - 1);
        if len > 0 {
            assert(q != 0) by (nonlinear_arith)
                requires
                    len == bl * q,
                    len > 0,
            ;
        }
    }
    if bl * bl >= len {
        assert(q <= bl) by (nonlinear_arith)
            requires
                len == bl * q + rem,
                0 <= rem,
                bl * bl >= len,
                bl >= 700,
        ;
    }
    if bl == 0x2000_0000 {
        if rem > 0 {
            assert(q < 0x8000_0000) by (nonlinear_arith)
                requires
                    len == bl * q + rem,
                    0 < rem,
                    len <= 0x1000_0000_0000_0000,
                    bl == 0x2000_0000,
            ;
        } else {
            assert(q <= 0x8000_0000) by (nonlinear_arith)
                requires
                    len == bl * q,
                    len <= 0x1000_0000_0000_0000,
                    bl == 0x2000_0000,
            ;
        }
    }
}

/// The tiling identity behind the SumHead invariant.
proof fn lemma_sum_head_shape(len: int, bl: int)
    requires
        0 <= len <= 0x1000_0000_0000_0000,
        700 <= bl <= 0x2000_0000,
    ensures
        len % bl != 0 ==> ((len + bl - 1) / bl - 1) * bl + len % bl == len,
        len % bl == 0 ==> ((len + bl - 1) / bl) * bl == len,
{
    lemma_fundamental_div_mod(len, bl);
    let q = len / bl;
    let rem = len % bl;
    if rem > 0 {
        assert(len + bl - 1 == (q + 1) * bl + (rem - 1)) by (nonlinear_arith)
            requires
                len == bl * q + rem,
        ;
        lemma_fundamental_div_mod_converse(len + bl - 1, bl, q + 1, rem - 1);
        assert((q + 1 - 1) * bl + rem == len) by (nonlinear_arith)
            requires
                len == bl * q + rem,
        ;
    } else {
        assert(len + bl - 1 == q * bl + (bl - 1)) by (nonlinear_arith)
            requires
                len == bl * q + rem,
                rem == 0,
        ;
        lemma_fundamental_div_mod_converse(len + bl - 1, bl, q, bl - 1);
        assert(q * bl == len) by (nonlinear_arith)
            requires
                len == bl * q,
        ;
    }
}

// --- the rolling checksum ("checksum-1"). Two 16-bit accumulators: the sum
// --- of the bytes, and the sum of those running sums; packed low/high into
// --- one 32-bit word so the remote can slide it one byte at a time.

pub open spec fn rolling_pair(d: Seq<u8>) -> (int, int)
    decreases d.len(),
{
    if d.len() == 0 {
        (0, 0)
    } else {
        let p = rolling_pair(d.drop_last());
        (((p.0 + d.last()) % 0x10000), ((p.1 + p.0 + d.last()) % 0x10000))
    }
}

pub open spec fn spec_checksum1(d: Seq<u8>) -> u32 {
    (rolling_pair(d).0 + 0x10000 * rolling_pair(d).1) as u32
}

proof fn lemma_rolling_pair_bounds(d: Seq<u8>)
    ensures
        0 <= rolling_pair(d).0 < 0x10000,
        0 <= rolling_pair(d).1 < 0x10000,
    decreases d.len(),
{
    if d.len() > 0 {
        lemma_rolling_pair_bounds(d.drop_last());
    }
}

pub fn checksum_1(data: &Vec<u8>) -> (r: u32)
    ensures
        r == spec_checksum1(data@),
{
    let mut s1: u32 = 0;
    let mut s2: u32 = 0;
    let mut i: usize = 0;
    while i < data.len()
        invariant
            i <= data.len(),
            (s1 as int, s2 as int) == rolling_pair(data@.subrange(0, i as int)),
            s1 < 0x10000,
            s2 < 0x10000,
        decreases data.len() - i,
    {
        let ghost pre = data@.subrange(0, i as int);
        let ghost post = data@.subrange(0, i + 1);
        let b = data[i];
        let ns1 = (s1 + (b as u32)) % 0x10000;
        let ns2 = (s2 + ns1) % 0x10000;
        proof {
            assert(post.drop_last() =~= pre);
            assert(post.last() == b);
            lemma_add_mod_noop(s2 as int, (s1 + b) as int, 0x10000);
            assert((s2 + (s1 + b) % 0x10000) % 0x10000 == (s2 + s1 + b) % 0x10000);
        }
        s1 = ns1;
        s2 = ns2;
        i = i + 1;
    }
    proof {
        assert(data@.subrange(0, data@.len() as int) =~= data@);
        lemma_rolling_pair_bounds(data@);
    }
    s1 + 0x10000 * s2
}

// --- the strong checksum ("checksum-2"): MD4 over the four seed bytes
// --- followed by the block.

/// The MD4 digest of a byte sequence. The digest is a function of the input
/// alone; its definition lives in the md4 crate and is not restated here.
pub uninterp spec fn md4_of(data: Seq<u8>) -> Seq<u8>;

/// Relies on md4::Md4 (with the digest crate's Digest trait): the MD4
/// digest depends on the input bytes alone and is 16 bytes long.
#[verifier::external_body]
fn md4_digest(data: &Vec<u8>) -> (r: Vec<u8>)
    ensures
        r@ == md4_of(data@),
        r@.len() == 16,
{
    let mut h = <md4::Md4 as md4::Digest>::new();
    md4::Digest::update(&mut h, data.as_slice());
    md4::Digest::finalize(h).to_vec()
}

/// The input the whole-file and per-block strong checksums hash: the seed,
/// little-endian, then the payload.
pub open spec fn seeded(seed: i32, d: Seq<u8>) -> Seq<u8> {
    u32_le_bytes(i32_as_u32(seed)) + d
}

pub fn checksum_2(seed: i32, block: &Vec<u8>) -> (r: Vec<u8>)
    ensures
        r@ == md4_of(seeded(seed, block@)),
        r@.len() == 16,
{
    let mut buf: Vec<u8> = Vec::new();
    push_u32_le(&mut buf, crate::wire::i32_to_u32(seed));
    crate::wire::push_all(&mut buf, block);
    proof {
        assert(buf@ =~= seeded(seed, block@));
    }
    md4_digest(&buf)
}

} // verus!
