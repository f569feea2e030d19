use vstd::prelude::*;

verus! {

// Little-endian integer encodings shared by every layer of the protocol:
// plain 32-bit and 64-bit words, the signed 32-bit file indices and phase
// sentinels, and the variable-width "rsync long" form.

pub open spec fn u32_of_le(b0: u8, b1: u8, b2: u8, b3: u8) -> u32 {
    (b0 as u32) | ((b1 as u32) << 8) | ((b2 as u32) << 16) | ((b3 as u32) << 24)
}

pub open spec fn u32_le_bytes(v: u32) -> Seq<u8> {
    seq![
        (v & 0xff) as u8,
        ((v >> 8) & 0xff) as u8,
        ((v >> 16) & 0xff) as u8,
        ((v >> 24) & 0xff) as u8,
    ]
}

pub open spec fn u64_of_halves(lo: u32, hi: u32) -> u64 {
    (lo as u64) | ((hi as u64) << 32)
}

pub open spec fn u64_le_bytes(v: u64) -> Seq<u8> {
    u32_le_bytes((v & 0xffffffff) as u32) + u32_le_bytes(((v >> 32) & 0xffffffff) as u32)
}

/// The unsigned word carrying a signed 32-bit value in two's complement.
pub open spec fn i32_as_u32(v: i32) -> u32 {
    if v >= 0 {
        v as u32
    } else {
        (v + 0x1_0000_0000) as u32
    }
}

pub open spec fn u32_as_i32(u: u32) -> i32 {
    if u < 0x8000_0000 {
        u as i32
    } else {
        (u - 0x1_0000_0000) as i32
    }
}

pub proof fn lemma_u32_le_roundtrip(v: u32)
    ensures
        u32_of_le(u32_le_bytes(v)[0], u32_le_bytes(v)[1], u32_le_bytes(v)[2], u32_le_bytes(v)[3])
            == v,
{
    assert(((v & 0xff) as u8 as u32) | (((v >> 8) & 0xff) as u8 as u32) << 8
        | (((v >> 16) & 0xff) as u8 as u32) << 16 | (((v >> 24) & 0xff) as u8 as u32) << 24
        == v) by (bit_vector);
}

pub proof fn lemma_u64_le_roundtrip(v: u64)
    ensures
        u64_of_halves((v & 0xffffffff) as u32, ((v >> 32) & 0xffffffff) as u32) == v,
{
    assert((((v & 0xffffffff) as u32 as u64) | (((v >> 32) & 0xffffffff) as u32 as u64) << 32)
        == v) by (bit_vector);
}

pub proof fn lemma_i32_u32_roundtrip(v: i32)
    ensures
        u32_as_i32(i32_as_u32(v)) == v,
{
}

// --- executable readers: a buffer and a cursor, `None` when the buffer is
// --- too short to hold the whole value.

pub fn read_u8_at(buf: &Vec<u8>, pos: usize) -> (r: Option<(u8, usize)>)
    ensures
        pos < buf.len() ==> r == Some((buf[pos as int], (pos + 1) as usize)),
        pos >= buf.len() ==> r is None,
{
    if pos < buf.len() {
        Some((buf[pos], pos + 1))
    } else {
        None
    }
}

pub fn read_u32_le_at(buf: &Vec<u8>, pos: usize) -> (r: Option<(u32, usize)>)
    ensures
        pos + 4 <= buf.len() ==> r == Some((
            u32_of_le(buf[pos as int], buf[pos + 1], buf[pos + 2], buf[pos + 3]),
            (pos + 4) as usize,
        )),
        pos + 4 > buf.len() ==> r is None,
{
    if buf.len() >= 4 && pos <= buf.len() - 4 {
        let b0 = buf[pos];
        let b1 = buf[pos + 1];
        let b2 = buf[pos + 2];
        let b3 = buf[pos + 3];
        let v = (b0 as u32) | ((b1 as u32) << 8) | ((b2 as u32) << 16) | ((b3 as u32) << 24);
        Some((v, pos + 4))
    } else {
        None
    }
}

pub fn read_u64_le_at(buf: &Vec<u8>, pos: usize) -> (r: Option<(u64, usize)>)
    ensures
        pos + 8 <= buf.len() ==> (r matches Some(p) && p.1 == pos + 8 && p.0 == u64_of_halves(
            u32_of_le(buf[pos as int], buf[pos + 1], buf[pos + 2], buf[pos + 3]),
            u32_of_le(buf[pos + 4], buf[pos + 5], buf[pos + 6], buf[pos + 7]),
        )),
        pos + 8 > buf.len() ==> r is None,
{
    if buf.len() >= 8 && pos <= buf.len() - 8 {
        let lo = match read_u32_le_at(buf, pos) {
            Some(p) => p.0,
            None => 0,
        };
        let hi = match read_u32_le_at(buf, pos + 4) {
            Some(p) => p.0,
            None => 0,
        };
        let v = (lo as u64) | ((hi as u64) << 32);
        Some((v, pos + 8))
    } else {
        None
    }
}

pub fn read_i32_le_at(buf: &Vec<u8>, pos: usize) -> (r: Option<(i32, usize)>)
    ensures
        pos + 4 <= buf.len() ==> r == Some((
            u32_as_i32(u32_of_le(buf[pos as int], buf[pos + 1], buf[pos + 2], buf[pos + 3])),
            (pos + 4) as usize,
        )),
        pos + 4 > buf.len() ==> r is None,
{
    match read_u32_le_at(buf, pos) {
        Some((u, n)) => Some((u32_to_i32(u), n)),
        None => None,
    }
}

// --- executable writers: append the encoding to an output vector.

pub fn u32_to_i32(u: u32) -> (r: i32)
    ensures
        r == u32_as_i32(u),
{
    if u < 0x8000_0000 {
        u as i32
    } else {
        ((u as i64) - 0x1_0000_0000i64) as i32
    }
}

pub fn i32_to_u32(v: i32) -> (r: u32)
    ensures
        r == i32_as_u32(v),
{
    if v >= 0 {
        v as u32
    } else {
        ((v as i64) + 0x1_0000_0000i64) as u32
    }
}

pub fn push_u32_le(out: &mut Vec<u8>, v: u32)
    ensures
        final(out)@ == old(out)@ + u32_le_bytes(v),
{
    proof {
        assert(v & 0xff < 256 && (v >> 8) & 0xff < 256 && (v >> 16) & 0xff < 256 && (v >> 24)
            & 0xff < 256) by (bit_vector);
    }
    out.push((v & 0xff) as u8);
    out.push(((v >> 8) & 0xff) as u8);
    out.push(((v >> 16) & 0xff) as u8);
    out.push(((v >> 24) & 0xff) as u8);
    proof {
        assert(out@ =~= old(out)@ + u32_le_bytes(v));
    }
}

pub fn push_u64_le(out: &mut Vec<u8>, v: u64)
    ensures
        final(out)@ == old(out)@ + u64_le_bytes(v),
{
    proof {
        assert(v & 0xffffffff <= 0xffffffffu64 && (v >> 32) & 0xffffffff <= 0xffffffffu64)
            by (bit_vector);
    }
    push_u32_le(out, (v & 0xffffffff) as u32);
    push_u32_le(out, ((v >> 32) & 0xffffffff) as u32);
    proof {
        assert(out@ =~= old(out)@ + u64_le_bytes(v));
    }
}

pub fn push_i32_le(out: &mut Vec<u8>, v: i32)
    ensures
        final(out)@ == old(out)@ + u32_le_bytes(i32_as_u32(v)),
{
    let u = i32_to_u32(v);
    push_u32_le(out, u);
}

// --- the rsync-long form: a 32-bit word, with 0xFFFFFFFF as the escape
// --- announcing a full 64-bit little-endian value.

pub open spec fn rsync_long_bytes(v: u64) -> Seq<u8> {
    if v < 0xffffffff {
        u32_le_bytes(v as u32)
    } else {
        seq![0xffu8, 0xffu8, 0xffu8, 0xffu8] + u64_le_bytes(v)
    }
}

/// The decoded value and the cursor after it, `None` when the buffer is
/// too short for the form its first word announces.
pub open spec fn spec_read_rsync_long(s: Seq<u8>, pos: int) -> Option<(u64, int)> {
    if pos + 4 > s.len() || pos < 0 {
        None
    } else {
        let w = u32_of_le(s[pos], s[pos + 1], s[pos + 2], s[pos + 3]);
        if w != 0xffffffffu32 {
            Some(((w as u64), pos + 4))
        } else if pos + 12 > s.len() {
            None
        } else {
            Some((
                u64_of_halves(
                    u32_of_le(s[pos + 4], s[pos + 5], s[pos + 6], s[pos + 7]),
                    u32_of_le(s[pos + 8], s[pos + 9], s[pos + 10], s[pos + 11]),
                ),
                pos + 12,
            ))
        }
    }
}

pub fn read_rsync_long_at(buf: &Vec<u8>, pos: usize) -> (r: Option<(u64, usize)>)
    ensures
        match r {
            Some((v, n)) => spec_read_rsync_long(buf@, pos as int) == Some((v, n as int)),
            None => spec_read_rsync_long(buf@, pos as int) is None,
        },
{
    match read_u32_le_at(buf, pos) {
        None => None,
        Some((w, n)) => {
            if w != 0xffffffff {
                Some(((w as u64), n))
            } else {
                match read_u64_le_at(buf, n) {
                    None => None,
                    Some((v, n2)) => Some((v, n2)),
                }
            }
        },
    }
}

pub fn push_rsync_long(out: &mut Vec<u8>, v: u64)
    ensures
        final(out)@ == old(out)@ + rsync_long_bytes(v),
{
    if v < 0xffffffff {
        push_u32_le(out, v as u32);
    } else {
        out.push(0xff);
        out.push(0xff);
        out.push(0xff);
        out.push(0xff);
        push_u64_le(out, v);
        proof {
            assert(out@ =~= old(out)@ + rsync_long_bytes(v));
        }
    }
}

/// Law: an rsync-long value survives the round trip for every value the
/// encoding covers, and the short form is used exactly below `0xFFFFFFFF`.
pub proof fn lemma_rsync_long_roundtrip(v: u64, s: Seq<u8>, pos: int)
    requires
        v <= 0x7fff_ffff_ffff_ffff,
        0 <= pos,
        pos + rsync_long_bytes(v).len() <= s.len(),
        s.subrange(pos, pos + rsync_long_bytes(v).len() as int) == rsync_long_bytes(v),
    ensures
        spec_read_rsync_long(s, pos) == Some((v, pos + rsync_long_bytes(v).len() as int)),
        v < 0xffffffff <==> rsync_long_bytes(v).len() == 4,
        v >= 0xffffffff <==> rsync_long_bytes(v).len() == 12,
{
    let b = rsync_long_bytes(v);
    assert forall|i: int| 0 <= i < b.len() implies s[pos + i] == b[i] by {
        assert(s.subrange(pos, pos + b.len() as int)[i] == s[pos + i]);
    }
    if v < 0xffffffff {
        lemma_u32_le_roundtrip(v as u32);
        assert(v as u32 != 0xffffffffu32);
    } else {
        let lo = (v & 0xffffffff) as u32;
        let hi = ((v >> 32) & 0xffffffff) as u32;
        lemma_u32_le_roundtrip(lo);
        lemma_u32_le_roundtrip(hi);
        lemma_u64_le_roundtrip(v);
        assert(b[0] == 0xffu8 && b[1] == 0xffu8 && b[2] == 0xffu8 && b[3] == 0xffu8);
        assert(u32_of_le(0xff, 0xff, 0xff, 0xff) == 0xffffffffu32) by (bit_vector);
        assert(b.subrange(4, 8) =~= u32_le_bytes(lo));
        assert(b.subrange(8, 12) =~= u32_le_bytes(hi));
        assert(s[pos + 4] == u32_le_bytes(lo)[0] && s[pos + 5] == u32_le_bytes(lo)[1] && s[pos + 6]
            == u32_le_bytes(lo)[2] && s[pos + 7] == u32_le_bytes(lo)[3]);
        assert(s[pos + 8] == u32_le_bytes(hi)[0] && s[pos + 9] == u32_le_bytes(hi)[1] && s[pos
            + 10] == u32_le_bytes(hi)[2] && s[pos + 11] == u32_le_bytes(hi)[3]);
    }
}

// --- small vector helpers used by every encoder.

/// Appends a copy of `src` to `dst`.
pub fn push_all(dst: &mut Vec<u8>, src: &Vec<u8>)
    ensures
        final(dst)@ == old(dst)@ + src@,
{
    let mut i: usize = 0;
    while i < src.len()
        invariant
            i <= src.len(),
            dst@ == old(dst)@ + src@.subrange(0, i as int),
        decreases src.len() - i,
    {
        dst.push(src[i]);
        proof {
            assert(dst@ =~= old(dst)@ + src@.subrange(0, i + 1));
        }
        i = i + 1;
    }
    proof {
        assert(dst@ =~= old(dst)@ + src@);
    }
}

/// Copies `buf[a..b]` out into a fresh vector.
pub fn copy_range(buf: &Vec<u8>, a: usize, b: usize) -> (r: Vec<u8>)
    requires
        a <= b <= buf.len(),
    ensures
        r@ == buf@.subrange(a as int, b as int),
{
    let mut r: Vec<u8> = Vec::new();
    let mut i: usize = a;
    while i < b
        invariant
            a <= i <= b <= buf.len(),
            r@ == buf@.subrange(a as int, i as int),
        decreases b - i,
    {
        r.push(buf[i]);
        proof {
            assert(r@ =~= buf@.subrange(a as int, i + 1));
        }
        i = i + 1;
    }
    r
}

} // verus!
