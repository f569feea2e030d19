use vstd::prelude::*;

use crate::wire::{
    copy_range, i32_as_u32, push_all, push_u32_le, read_i32_le_at, u32_as_i32, u32_le_bytes,
    u32_of_le,
};

verus! {

// One element of the per-file delta stream. On the wire a token is a signed
// 32-bit word `t`: `t == 0` ends the file, `t > 0` announces `t` literal
// bytes, and `t < 0` names basis block `-t - 1`.

pub enum Token {
    Data(Vec<u8>),
    Copied(u32),
    Done,
}

/// The mathematical shape of a token, with the literal bytes as a sequence.
pub enum GToken {
    Data(Seq<u8>),
    Copied(u32),
    Done,
}

impl View for Token {
    type V = GToken;

    open spec fn view(&self) -> GToken {
        match self {
            Token::Data(b) => GToken::Data(b@),
            Token::Copied(k) => GToken::Copied(*k),
            Token::Done => GToken::Done,
        }
    }
}

/// The tokens the wire form can carry: literal runs of 1 to `2^31 - 1`
/// bytes, block numbers up to `2^31 - 1`.
pub open spec fn token_valid(t: GToken) -> bool {
    match t {
        GToken::Data(b) => 1 <= b.len() <= 0x7fffffff,
        GToken::Copied(k) => k <= 0x7fffffff,
        GToken::Done => true,
    }
}

pub open spec fn token_wire_bytes(t: GToken) -> Seq<u8> {
    match t {
        GToken::Done => u32_le_bytes(0),
        GToken::Data(b) => u32_le_bytes(b.len() as u32) + b,
        GToken::Copied(k) => u32_le_bytes((0xffffffff - k) as u32),
    }
}

/// The token starting at `pos`, and the cursor after it; `None` when the
/// buffer holds only part of it.
pub open spec fn spec_read_token(s: Seq<u8>, pos: int) -> Option<(GToken, int)> {
    if pos < 0 || pos + 4 > s.len() {
        None
    } else {
        let t = u32_as_i32(u32_of_le(s[pos], s[pos + 1], s[pos + 2], s[pos + 3]));
        if t == 0 {
            Some((GToken::Done, pos + 4))
        } else if t > 0 {
            if pos + 4 + t <= s.len() {
                Some((GToken::Data(s.subrange(pos + 4, pos + 4 + t)), pos + 4 + t))
            } else {
                None
            }
        } else {
            Some((GToken::Copied((-(t + 1)) as u32), pos + 4))
        }
    }
}

pub fn read_token_at(buf: &Vec<u8>, pos: usize) -> (r: Option<(Token, usize)>)
    ensures
        match r {
            Some((t, n)) => spec_read_token(buf@, pos as int) == Some((t@, n as int)),
            None => spec_read_token(buf@, pos as int) is None,
        },
{
    match read_i32_le_at(buf, pos) {
        None => None,
        Some((t, n)) => {
            if t == 0 {
                Some((Token::Done, n))
            } else if t > 0 {
                let len = t as usize;
                if len <= buf.len() && n <= buf.len() - len {
                    let b = copy_range(buf, n, n + len);
                    Some((Token::Data(b), n + len))
                } else {
                    None
                }
            } else {
                let k = if t == i32::MIN {
                    0x7fffffffu32
                } else {
                    ((-t) - 1) as u32
                };
                Some((Token::Copied(k), n))
            }
        },
    }
}

pub fn push_token(out: &mut Vec<u8>, t: &Token)
    requires
        token_valid(t@),
    ensures
        final(out)@ == old(out)@ + token_wire_bytes(t@),
{
    match t {
        Token::Done => {
            push_u32_le(out, 0);
        },
        Token::Data(b) => {
            push_u32_le(out, b.len() as u32);
            push_all(out, b);
            proof {
                assert(out@ =~= old(out)@ + token_wire_bytes(t@));
            }
        },
        Token::Copied(k) => {
            push_u32_le(out, 0xffffffffu32 - *k);
        },
    }
}

/// Law: token encoding and decoding are mutually inverse. A valid token
/// written at `pos` reads back as itself, wherever it stands in a larger
/// stream.
pub proof fn lemma_token_roundtrip(t: GToken, s: Seq<u8>, pos: int)
    requires
        token_valid(t),
        0 <= pos,
        pos + token_wire_bytes(t).len() <= s.len(),
        s.subrange(pos, pos + token_wire_bytes(t).len() as int) == token_wire_bytes(t),
    ensures
        spec_read_token(s, pos) == Some((t, pos + token_wire_bytes(t).len() as int)),
{
    let b = token_wire_bytes(t);
    assert forall|i: int| 0 <= i < b.len() implies s[pos + i] == b[i] by {
        assert(s.subrange(pos, pos + b.len() as int)[i] == s[pos + i]);
    }
    match t {
        GToken::Done => {
            crate::wire::lemma_u32_le_roundtrip(0);
        },
        GToken::Data(d) => {
            let w = d.len() as u32;
            crate::wire::lemma_u32_le_roundtrip(w);
            assert(b[0] == u32_le_bytes(w)[0] && b[1] == u32_le_bytes(w)[1] && b[2] == u32_le_bytes(
                w,
            )[2] && b[3] == u32_le_bytes(w)[3]);
            assert(u32_as_i32(w) == d.len());
            assert forall|j: int| 0 <= j < d.len() implies s[pos + 4 + j] == d[j] by {
                assert(s[pos + (4 + j)] == b[4 + j]);
            }
            assert(s.subrange(pos + 4, pos + 4 + d.len() as int) =~= d);
        },
        GToken::Copied(k) => {
            let w = (0xffffffff - k) as u32;
            crate::wire::lemma_u32_le_roundtrip(w);
            assert(u32_as_i32(w) == -(k + 1));
        },
    }
}

} // verus!
