use vstd::prelude::*;

use crate::file_list::{is_dir, is_regular, spec_is_dir, spec_is_regular, FileEntry};
use crate::sums::{
    checksum_1, checksum_2, md4_of, push_sum_head, seeded, spec_checksum1, sum_head_bytes,
    sum_sizes_sqroot, SumHead,
};
use crate::wire::{copy_range, i32_as_u32, push_all, push_i32_le, u32_le_bytes};

verus! {

// The generator walks the sorted file list and, for each entry, decides
// what to ask of the sender and emits the request bytes. It never reads
// from the connection.

/// What a stat of the destination path showed.
pub struct LocalMeta {
    pub is_regular: bool,
    pub size: u64,
    /// Seconds since the Unix epoch, whole-second resolution.
    pub mtime: u64,
}

pub enum GenAction {
    /// The entry is a directory: create it locally, send nothing.
    CreateDir,
    /// Nothing to send: a non-regular entry, or an up-to-date file.
    Skip,
    /// Ask for a delta against the readable local basis.
    SendSums,
    /// Ask for the whole file.
    SendWhole,
}

/// The per-entry policy: directories are created locally; non-regular
/// entries are skipped; a regular file whose destination matches in size
/// and whole-second modify time is skipped; otherwise the transfer is
/// incremental exactly when the destination could be opened for reading.
pub fn plan_entry(entry: &FileEntry, local: Option<LocalMeta>, openable: bool) -> (r: GenAction)
    ensures
        spec_is_dir(entry.mode) ==> r is CreateDir,
        !spec_is_dir(entry.mode) && !spec_is_regular(entry.mode) ==> r is Skip,
        spec_is_regular(entry.mode) && !spec_is_dir(entry.mode) ==> match local {
            Some(m) => {
                if m.is_regular && m.size == entry.len && m.mtime == entry.modify_time as u64 {
                    r is Skip
                } else if openable {
                    r is SendSums
                } else {
                    r is SendWhole
                }
            },
            None => if openable {
                r is SendSums
            } else {
                r is SendWhole
            },
        },
{
    if is_dir(entry.mode) {
        return GenAction::CreateDir;
    }
    if !is_regular(entry.mode) {
        return GenAction::Skip;
    }
    match local {
        Some(m) => {
            if m.is_regular && m.size == entry.len && crate::mod_time_eq(
                m.mtime,
                entry.modify_time as u64,
            ) {
                return GenAction::Skip;
            }
        },
        None => {},
    }
    if openable {
        GenAction::SendSums
    } else {
        GenAction::SendWhole
    }
}

/// The block checksums from block `k` on: for each block, the 32-bit
/// rolling checksum, then the 16-byte seeded MD4 of the block.
pub open spec fn spec_sums_from(seed: i32, h: SumHead, basis: Seq<u8>, k: int) -> Seq<u8>
    decreases h.checksum_count - k,
{
    if k < 0 || k >= h.checksum_count || h.block_len == 0 {
        Seq::empty()
    } else {
        let start = k * h.block_len;
        let end = if start + h.block_len <= basis.len() {
            start + h.block_len
        } else {
            basis.len() as int
        };
        if start > end {
            Seq::empty()
        } else {
            let block = basis.subrange(start, end);
            u32_le_bytes(spec_checksum1(block)) + md4_of(seeded(seed, block)) + spec_sums_from(
                seed,
                h,
                basis,
                k + 1,
            )
        }
    }
}

/// The full incremental request for one file: the sum head, then the block
/// checksums over the local basis.
pub fn generate_sums(seed: i32, basis: &Vec<u8>) -> (r: (SumHead, Vec<u8>))
    requires
        basis@.len() <= 0x1000_0000_0000_0000,
    ensures
        r.0.checksum_len == 16,
        r.0.remainder_len == basis@.len() as int % r.0.block_len as int,
        r.0.checksum_count == (basis@.len() + r.0.block_len - 1) as int / r.0.block_len as int,
        700 <= r.0.block_len <= 0x2000_0000,
        r.0.remainder_len != 0 ==> (r.0.checksum_count - 1) * r.0.block_len + r.0.remainder_len
            == basis@.len(),
        r.0.remainder_len == 0 ==> r.0.checksum_count * r.0.block_len == basis@.len(),
        r.1@ == sum_head_bytes(r.0) + spec_sums_from(seed, r.0, basis@, 0),
{
    let h = sum_sizes_sqroot(basis.len() as u64);
    let mut out: Vec<u8> = Vec::new();
    push_sum_head(&mut out, &h);
    let ghost head_bytes = out@;
    let mut k: u32 = 0;
    proof {
        assert(out@ =~= head_bytes + Seq::<u8>::empty());
    }
    while k < h.checksum_count
        invariant
            k <= h.checksum_count,
            700 <= h.block_len <= 0x2000_0000,
            basis@.len() <= 0x1000_0000_0000_0000,
            h.remainder_len != 0 ==> (h.checksum_count - 1) * h.block_len + h.remainder_len
                == basis@.len(),
            h.remainder_len == 0 ==> h.checksum_count * h.block_len == basis@.len(),
            head_bytes + spec_sums_from(seed, h, basis@, 0) == out@ + spec_sums_from(
                seed,
                h,
                basis@,
                k as int,
            ),
        decreases h.checksum_count - k,
    {
        let ghost out0 = out@;
        proof {
            assert((k as int) * (h.block_len as int) + h.block_len <= (h.checksum_count as int)
                * (h.block_len as int)) by (nonlinear_arith)
                requires
                    k < h.checksum_count,
                    h.block_len >= 1,
            ;
            if h.remainder_len != 0 {
                assert((h.checksum_count - 1) as int * (h.block_len as int) + h.block_len as int
                    <= basis@.len() + h.block_len);
            }
            assert((k as int) * (h.block_len as int) >= 0) by (nonlinear_arith)
                requires
                    k >= 0,
                    h.block_len >= 0,
            ;
            if h.remainder_len != 0 {
                assert((k as int) * (h.block_len as int) < basis@.len()) by (nonlinear_arith)
                    requires
                        k < h.checksum_count,
                        h.block_len >= 1,
                        (h.checksum_count - 1) * h.block_len + h.remainder_len == basis@.len(),
                        0 < h.remainder_len,
                ;
            } else {
                assert((k as int) * (h.block_len as int) < basis@.len() || h.checksum_count == 0)
                    by (nonlinear_arith)
                    requires
                        k < h.checksum_count,
                        h.block_len >= 1,
                        h.checksum_count * h.block_len == basis@.len(),
                ;
            }
        }
        let start64: u64 = (k as u64) * (h.block_len as u64);
        let start: usize = start64 as usize;
        let end: usize = if start64 + (h.block_len as u64) <= basis.len() as u64 {
            (start64 + h.block_len as u64) as usize
        } else {
            basis.len()
        };
        let block = copy_range(basis, start, end);
        let s1 = checksum_1(&block);
        let s2 = checksum_2(seed, &block);
        crate::wire::push_u32_le(&mut out, s1);
        push_all(&mut out, &s2);
        proof {
            assert(spec_sums_from(seed, h, basis@, k as int) == (u32_le_bytes(spec_checksum1(
                block@,
            )) + md4_of(seeded(seed, block@))) + spec_sums_from(seed, h, basis@, k + 1)) by {
                assert(block@ =~= basis@.subrange(start as int, end as int));
            }
            assert(out@ =~= out0 + (u32_le_bytes(spec_checksum1(block@)) + md4_of(
                seeded(seed, block@),
            )));
            assert(out@ + spec_sums_from(seed, h, basis@, k + 1) =~= out0 + spec_sums_from(
                seed,
                h,
                basis@,
                k as int,
            ));
        }
        k = k + 1;
    }
    proof {
        assert(out@ + Seq::<u8>::empty() =~= out@);
    }
    (h, out)
}

/// The request line for a whole-file transfer: the entry's index, then the
/// all-zero sum head.
pub fn request_whole(idx: i32) -> (r: Vec<u8>)
    ensures
        r@ == u32_le_bytes(i32_as_u32(idx)) + sum_head_bytes(
            SumHead { checksum_count: 0, block_len: 0, checksum_len: 0, remainder_len: 0 },
        ),
{
    let mut out: Vec<u8> = Vec::new();
    push_i32_le(&mut out, idx);
    let z = SumHead::zero();
    push_sum_head(&mut out, &z);
    proof {
        assert(out@ =~= u32_le_bytes(i32_as_u32(idx)) + sum_head_bytes(z));
    }
    out
}

/// The request for an incremental transfer: the entry's index, the sum
/// head over the basis, and the block checksums.
pub fn request_incremental(idx: i32, seed: i32, basis: &Vec<u8>) -> (r: (SumHead, Vec<u8>))
    requires
        basis@.len() <= 0x1000_0000_0000_0000,
    ensures
        r.1@ == u32_le_bytes(i32_as_u32(idx)) + sum_head_bytes(r.0) + spec_sums_from(
            seed,
            r.0,
            basis@,
            0,
        ),
        r.0.checksum_len == 16,
{
    let mut out: Vec<u8> = Vec::new();
    push_i32_le(&mut out, idx);
    let (h, sums) = generate_sums(seed, basis);
    push_all(&mut out, &sums);
    proof {
        assert(out@ =~= u32_le_bytes(i32_as_u32(idx)) + sum_head_bytes(h) + spec_sums_from(
            seed,
            h,
            basis@,
            0,
        ));
    }
    (h, out)
}

/// The phase sentinel the generator writes twice, and the receiver's final
/// response: the index `-1`.
pub fn phase_sentinel() -> (r: Vec<u8>)
    ensures
        r@ == u32_le_bytes(0xffffffffu32),
{
    let mut out: Vec<u8> = Vec::new();
    push_i32_le(&mut out, -1i32);
    proof {
        assert(out@ =~= u32_le_bytes(0xffffffffu32));
    }
    out
}

} // verus!
