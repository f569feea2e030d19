use vstd::prelude::*;

use crate::sums::{md4_of, seeded, SumHead};
use crate::token::{spec_read_token, read_token_at, GToken, Token};
use crate::wire::{copy_range, push_all};
use crate::RsyncError;

verus! {

// The receiver's per-file reconstruction: a stream of tokens mixing literal
// data with references to blocks of the local basis file, ended by the Done
// token and a trailing whole-file MD4 over the seed and the rebuilt bytes.

impl DeepView for Token {
    type V = GToken;

    open spec fn deep_view(&self) -> GToken {
        self.view()
    }
}

/// The basis byte range a `Copied(k)` token names: block `k` starts at
/// `k * block_len`; every block is `block_len` long but the last, which is
/// `remainder_len` long when the remainder is not zero.
pub open spec fn spec_block_range(h: SumHead, k: u32) -> (int, int) {
    let start = k * h.block_len;
    let blen: int = if k == h.checksum_count - 1 && h.remainder_len != 0 {
        h.remainder_len as int
    } else {
        h.block_len as int
    };
    (start, start + blen)
}

pub enum GApply {
    Built(Seq<u8>),
    Missing,
    Bad,
}

/// The bytes a token contributes to the rebuilt file, front to back:
/// literal data stands for itself, a block reference for the named slice of
/// the basis. `Missing` when a reference arrives without a basis, `Bad` on
/// a reference outside it or a stray terminator.
pub open spec fn spec_apply_tokens(toks: Seq<GToken>, h: SumHead, basis: Option<Seq<u8>>) -> GApply
    decreases toks.len(),
{
    if toks.len() == 0 {
        GApply::Built(Seq::empty())
    } else {
        let head: Option<Seq<u8>> = match toks[0] {
            GToken::Data(b) => Some(b),
            GToken::Done => None,
            GToken::Copied(k) => match basis {
                None => None,
                Some(bs) => {
                    let (a, b) = spec_block_range(h, k);
                    if k < h.checksum_count && b <= bs.len() {
                        Some(bs.subrange(a, b))
                    } else {
                        None
                    }
                },
            },
        };
        match head {
            None => if toks[0] is Copied && basis is None {
                GApply::Missing
            } else {
                GApply::Bad
            },
            Some(piece) => match spec_apply_tokens(toks.drop_first(), h, basis) {
                GApply::Built(rest) => GApply::Built(piece + rest),
                GApply::Missing => GApply::Missing,
                GApply::Bad => GApply::Bad,
            },
        }
    }
}

/// Rebuilds a file from its token stream: the result is, in order, the
/// concatenation of the token payloads.
pub fn apply_tokens(tokens: &Vec<Token>, h: &SumHead, basis: Option<&Vec<u8>>) -> (r: Result<
    Vec<u8>,
    RsyncError,
>)
    ensures
        match spec_apply_tokens(
            tokens.deep_view(),
            *h,
            match basis {
                Some(b) => Some(b@),
                None => None,
            },
        ) {
            GApply::Built(out) => r matches Ok(v) && v@ == out,
            GApply::Missing => r == Err::<Vec<u8>, RsyncError>(RsyncError::MissingBasis),
            GApply::Bad => r == Err::<Vec<u8>, RsyncError>(RsyncError::FilesystemError),
        },
{
    let ghost toks = tokens.deep_view();
    let ghost gbasis: Option<Seq<u8>> = match basis {
        Some(b) => Some(b@),
        None => None,
    };
    let mut out: Vec<u8> = Vec::new();
    let mut i: usize = 0;
    proof {
        assert(toks.skip(0) =~= toks);
    }
    while i < tokens.len()
        invariant
            i <= tokens.len(),
            toks == tokens.deep_view(),
            gbasis == (match basis {
                Some(b) => Some(b@),
                None => None::<Seq<u8>>,
            }),
            match spec_apply_tokens(toks.skip(i as int), *h, gbasis) {
                GApply::Built(rest) => spec_apply_tokens(toks, *h, gbasis) == GApply::Built(out@ + rest),
                GApply::Missing => spec_apply_tokens(toks, *h, gbasis) is Missing,
                GApply::Bad => spec_apply_tokens(toks, *h, gbasis) is Bad,
            },
        decreases tokens.len() - i,
    {
        let ghost out0 = out@;
        proof {
            assert(toks.skip(i as int)[0] == tokens.deep_view()[i as int]);
            assert(tokens.deep_view()[i as int] == tokens@[i as int].deep_view());
            assert(toks.skip(i as int).drop_first() =~= toks.skip(i + 1));
        }
        match &tokens[i] {
            Token::Data(b) => {
                let ghost piece = b@;
                push_all(&mut out, b);
                proof {
                    match spec_apply_tokens(toks.skip(i + 1), *h, gbasis) {
                        GApply::Built(rest) => {
                            assert(out@ + rest =~= out0 + (piece + rest));
                        },
                        _ => {},
                    }
                }
            },
            Token::Done => {
                return Err(RsyncError::FilesystemError);
            },
            Token::Copied(k) => {
                let bs = match basis {
                    Some(bs) => bs,
                    None => {
                        return Err(RsyncError::MissingBasis);
                    },
                };
                let k = *k;
                if k >= h.checksum_count {
                    return Err(RsyncError::FilesystemError);
                }
                proof {
                    assert((k as u64) * (h.block_len as u64) <= 0xffffffffu64 * 0xffffffffu64)
                        by (nonlinear_arith)
                        requires
                            k as u64 <= 0xffffffffu64,
                            h.block_len as u64 <= 0xffffffffu64,
                    ;
                }
                let start: u64 = (k as u64) * (h.block_len as u64);
                let blen: u64 = if k == h.checksum_count - 1 && h.remainder_len != 0 {
                    h.remainder_len as u64
                } else {
                    h.block_len as u64
                };
                if start > bs.len() as u64 || blen > bs.len() as u64 - start {
                    return Err(RsyncError::FilesystemError);
                }
                let ghost piece = bs@.subrange(start as int, start as int + blen as int);
                proof {
                    assert(start as int == k * h.block_len);
                    assert(spec_block_range(*h, k) == (start as int, start as int + blen as int));
                }
                let p = copy_range(bs, start as usize, (start + blen) as usize);
                push_all(&mut out, &p);
                proof {
                    match spec_apply_tokens(toks.skip(i + 1), *h, gbasis) {
                        GApply::Built(rest) => {
                            assert(out@ + rest =~= out0 + (piece + rest));
                        },
                        _ => {},
                    }
                }
            },
        }
        i = i + 1;
    }
    proof {
        assert(toks.skip(toks.len() as int) =~= Seq::<GToken>::empty());
        match spec_apply_tokens(toks, *h, gbasis) {
            GApply::Built(o) => {
                assert(out@ + Seq::<u8>::empty() =~= out@);
            },
            _ => {},
        }
    }
    Ok(out)
}

// --- parsing the token stream up to and including the Done terminator.

pub enum TokensParse {
    Done(Seq<GToken>, int),
    Incomplete,
}

/// The tokens before the terminator, and the cursor just past it.
pub open spec fn spec_read_tokens(s: Seq<u8>, pos: int) -> TokensParse
    decreases s.len() - pos,
{
    match spec_read_token(s, pos) {
        None => TokensParse::Incomplete,
        Some((t, n)) => if n <= pos || n > s.len() {
            TokensParse::Incomplete
        } else {
            match t {
                GToken::Done => TokensParse::Done(Seq::empty(), n),
                _ => match spec_read_tokens(s, n) {
                    TokensParse::Done(rest, m) => TokensParse::Done(seq![t] + rest, m),
                    TokensParse::Incomplete => TokensParse::Incomplete,
                },
            }
        },
    }
}

/// Reads tokens until the terminator.
pub fn read_tokens_at(buf: &Vec<u8>, pos: usize) -> (r: Option<(Vec<Token>, usize)>)
    ensures
        match r {
            Some((v, n)) => spec_read_tokens(buf@, pos as int) == TokensParse::Done(
                v.deep_view(),
                n as int,
            ) && n <= buf@.len(),
            None => spec_read_tokens(buf@, pos as int) is Incomplete,
        },
{
    let ghost orig = spec_read_tokens(buf@, pos as int);
    let mut toks: Vec<Token> = Vec::new();
    let mut cur = pos;
    proof {
        assert(toks.deep_view() =~= Seq::<GToken>::empty());
    }
    loop
        invariant
            orig == spec_read_tokens(buf@, pos as int),
            match spec_read_tokens(buf@, cur as int) {
                TokensParse::Done(rest, m) => orig == TokensParse::Done(
                    toks.deep_view() + rest,
                    m,
                ),
                TokensParse::Incomplete => orig is Incomplete,
            },
        decreases buf@.len() - cur + 1,
    {
        let ghost toks0 = toks.deep_view();
        match read_token_at(buf, cur) {
            None => {
                return None;
            },
            Some((t, n)) => {
                if n <= cur || n > buf.len() {
                    return None;
                }
                match t {
                    Token::Done => {
                        proof {
                            assert(toks.deep_view() + Seq::<GToken>::empty() =~= toks.deep_view());
                        }
                        return Some((toks, n));
                    },
                    _ => {
                        let ghost gt = t@;
                        toks.push(t);
                        proof {
                            assert(toks.deep_view() =~= toks0.push(gt)) by {
                                assert forall|k: int|
                                    0 <= k < toks.deep_view().len() implies #[trigger] toks.deep_view()[k]
                                    == toks0.push(gt)[k] by {
                                    assert(toks.deep_view()[k] == toks@[k].deep_view());
                                }
                            }
                            match spec_read_tokens(buf@, n as int) {
                                TokensParse::Done(rest, m) => {
                                    assert(toks0.push(gt) + rest =~= toks0 + (seq![gt] + rest));
                                },
                                TokensParse::Incomplete => {},
                            }
                        }
                        cur = n;
                    },
                }
            },
        }
    }
}

/// Compares two byte strings.
pub fn bytes_eq(a: &Vec<u8>, b: &Vec<u8>) -> (r: bool)
    ensures
        r == (a@ == b@),
{
    if a.len() != b.len() {
        proof {
            assert(a@ != b@);
        }
        return false;
    }
    let mut i: usize = 0;
    while i < a.len()
        invariant
            i <= a.len(),
            a@.len() == b@.len(),
            forall|j: int| 0 <= j < i ==> a@[j] == b@[j],
        decreases a.len() - i,
    {
        if a[i] != b[i] {
            return false;
        }
        i = i + 1;
    }
    proof {
        assert(a@ =~= b@);
    }
    true
}

pub enum FileRecv {
    Done(Vec<u8>, usize),
    Incomplete,
    Fail(RsyncError),
}

pub enum GFileRecv {
    Done(Seq<u8>, int),
    Incomplete,
    Fail(RsyncError),
}

/// One file's worth of the receiver: tokens to the terminator, the rebuilt
/// bytes, and the trailing 16-byte whole-file MD4 over seed and content.
pub open spec fn spec_recv_file(
    s: Seq<u8>,
    pos: int,
    h: SumHead,
    basis: Option<Seq<u8>>,
    seed: i32,
) -> GFileRecv {
    match spec_read_tokens(s, pos) {
        TokensParse::Incomplete => GFileRecv::Incomplete,
        TokensParse::Done(toks, n) => match spec_apply_tokens(toks, h, basis) {
            GApply::Missing => GFileRecv::Fail(RsyncError::MissingBasis),
            GApply::Bad => GFileRecv::Fail(RsyncError::FilesystemError),
            GApply::Built(out) => if n + 16 > s.len() {
                GFileRecv::Incomplete
            } else if s.subrange(n, n + 16) == md4_of(seeded(seed, out)) {
                GFileRecv::Done(out, n + 16)
            } else {
                GFileRecv::Fail(RsyncError::ChecksumMismatch)
            },
        },
    }
}

/// Receives one file: reads tokens until the terminator, rebuilds the
/// content, reads the remote digest, and verifies it. On success the result
/// is exactly the concatenation of the token payloads, and the remote
/// digest equals the MD4 of the seed and those bytes; a wrong digest is
/// exactly `ChecksumMismatch`, a block reference without a basis exactly
/// `MissingBasis`.
pub fn recv_file(buf: &Vec<u8>, pos: usize, h: &SumHead, basis: Option<&Vec<u8>>, seed: i32) -> (r:
    FileRecv)
    ensures
        ({
            let gbasis = match basis {
                Some(b) => Some(b@),
                None => None::<Seq<u8>>,
            };
            match r {
                FileRecv::Done(v, n) => spec_recv_file(buf@, pos as int, *h, gbasis, seed)
                    == GFileRecv::Done(v@, n as int) && (spec_read_tokens(buf@, pos as int)
                    matches TokensParse::Done(toks, m) && n == m + 16 && n <= buf@.len()
                    && spec_apply_tokens(toks, *h, gbasis) == GApply::Built(v@) && buf@.subrange(
                    m,
                    m + 16,
                ) == md4_of(seeded(seed, v@))),
                FileRecv::Incomplete => spec_recv_file(buf@, pos as int, *h, gbasis, seed)
                    is Incomplete,
                FileRecv::Fail(e) => spec_recv_file(buf@, pos as int, *h, gbasis, seed)
                    == GFileRecv::Fail(e),
            }
        }),
{
    let (toks, n) = match read_tokens_at(buf, pos) {
        Some(p) => p,
        None => {
            return FileRecv::Incomplete;
        },
    };
    let out = match apply_tokens(&toks, h, basis) {
        Ok(out) => out,
        Err(e) => {
            return FileRecv::Fail(e);
        },
    };
    if buf.len() < 16 || n > buf.len() - 16 {
        return FileRecv::Incomplete;
    }
    let remote = copy_range(buf, n, n + 16);
    let local = crate::sums::checksum_2(seed, &out);
    if bytes_eq(&local, &remote) {
        FileRecv::Done(out, n + 16)
    } else {
        FileRecv::Fail(RsyncError::ChecksumMismatch)
    }
}

pub enum IndexAction {
    NextPhase,
    Finished,
    File(usize),
    Bad,
}

/// The receiver's reaction to one file index from the wire: `-1` ends a
/// phase (the second ends the session), a dense index names the next file,
/// anything else is malformed.
pub fn decide_index(idx: i32, phase: u32, n_files: usize) -> (r: IndexAction)
    ensures
        idx == -1 && phase == 0 ==> r is NextPhase,
        idx == -1 && phase > 0 ==> r is Finished,
        idx >= 0 && (idx as int) < n_files ==> (r matches IndexAction::File(u) && u == idx),
        idx != -1 && (idx < 0 || idx as int >= n_files) ==> r is Bad,
{
    if idx == -1 {
        if phase == 0 {
            IndexAction::NextPhase
        } else {
            IndexAction::Finished
        }
    } else if idx >= 0 && (idx as usize) < n_files {
        IndexAction::File(idx as usize)
    } else {
        IndexAction::Bad
    }
}

} // verus!
