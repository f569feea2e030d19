use vstd::prelude::*;

use crate::wire::{read_u32_le_at, read_u8_at, u32_of_le};

verus! {

// With uid or gid preservation enabled the sender follows the file list
// with two id-to-name tables. This client never enables them, but a peer
// speaking for one must drain the records: `(u32 id, u8 name length, that
// many name bytes)` until a zero id, twice (users, then groups).

/// The cursor past one id table starting at `pos`; `None` when the buffer
/// ends inside it.
pub open spec fn spec_skip_id_table(s: Seq<u8>, pos: int) -> Option<int>
    decreases s.len() - pos,
{
    if pos < 0 || pos + 4 > s.len() {
        None
    } else if u32_of_le(s[pos], s[pos + 1], s[pos + 2], s[pos + 3]) == 0 {
        Some(pos + 4)
    } else if pos + 5 > s.len() {
        None
    } else {
        let nl = s[pos + 4] as int;
        if pos + 5 + nl > s.len() {
            None
        } else {
            spec_skip_id_table(s, pos + 5 + nl)
        }
    }
}

/// Skips one id table.
pub fn skip_id_table(buf: &Vec<u8>, pos: usize) -> (r: Option<usize>)
    ensures
        match r {
            Some(n) => spec_skip_id_table(buf@, pos as int) == Some(n as int) && n <= buf@.len(),
            None => spec_skip_id_table(buf@, pos as int) is None,
        },
{
    let mut cur = pos;
    loop
        invariant
            spec_skip_id_table(buf@, pos as int) == spec_skip_id_table(buf@, cur as int),
        decreases buf@.len() - cur + 1,
    {
        let (id, n) = match read_u32_le_at(buf, cur) {
            Some(p) => p,
            None => {
                return None;
            },
        };
        if id == 0 {
            return Some(n);
        }
        let (nl, n2) = match read_u8_at(buf, n) {
            Some(p) => p,
            None => {
                return None;
            },
        };
        if buf.len() < nl as usize || n2 > buf.len() - nl as usize {
            return None;
        }
        cur = n2 + nl as usize;
    }
}

/// Skips the uid table, then the gid table; the cursor past both.
pub fn consume_uid_mapping(buf: &Vec<u8>, pos: usize) -> (r: Option<usize>)
    ensures
        match r {
            Some(n) => (match spec_skip_id_table(buf@, pos as int) {
                Some(m) => spec_skip_id_table(buf@, m) == Some(n as int),
                None => false,
            }),
            None => (match spec_skip_id_table(buf@, pos as int) {
                Some(m) => spec_skip_id_table(buf@, m) is None,
                None => true,
            }),
        },
{
    match skip_id_table(buf, pos) {
        Some(m) => skip_id_table(buf, m),
        None => None,
    }
}

} // verus!
