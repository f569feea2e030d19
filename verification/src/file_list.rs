use vstd::prelude::*;

use crate::wire::{copy_range, push_all, read_u32_le_at, read_u8_at, spec_read_rsync_long, u32_of_le};
use crate::RsyncError;

verus! {

// The received file list: one entry per remote tree node, decoded from the
// run-length-compressed wire records, then sorted by raw name bytes,
// de-duplicated, and given dense indices.

/// One remote tree node.
pub struct FileEntry {
    /// Raw POSIX path bytes, at most 4096 of them.
    pub name: Vec<u8>,
    /// Byte length; regular files only, 0 for others.
    pub len: u64,
    /// Seconds since the Unix epoch, as the 32-bit wire field.
    pub modify_time: u32,
    /// POSIX mode bits.
    pub mode: u32,
    /// Present exactly when `mode` is a symlink.
    pub link_target: Option<Vec<u8>>,
    /// Dense index assigned after sort and dedup.
    pub idx: i32,
}

/// The mathematical shape of an entry.
pub struct GEntry {
    pub name: Seq<u8>,
    pub len: u64,
    pub modify_time: u32,
    pub mode: u32,
    pub link_target: Option<Seq<u8>>,
    pub idx: int,
}

impl View for FileEntry {
    type V = GEntry;

    open spec fn view(&self) -> GEntry {
        GEntry {
            name: self.name@,
            len: self.len,
            modify_time: self.modify_time,
            mode: self.mode,
            link_target: match self.link_target {
                Some(ref t) => Some(t@),
                None => None,
            },
            idx: self.idx as int,
        }
    }
}

impl DeepView for FileEntry {
    type V = GEntry;

    open spec fn deep_view(&self) -> GEntry {
        self.view()
    }
}

/// Equal but for the index assigned later.
pub open spec fn same_except_idx(a: GEntry, b: GEntry) -> bool {
    a.name == b.name && a.len == b.len && a.modify_time == b.modify_time && a.mode == b.mode
        && a.link_target == b.link_target
}

// --- lexicographic byte order on names.

pub open spec fn lex_less(a: Seq<u8>, b: Seq<u8>) -> bool
    decreases a.len(),
{
    if a.len() == 0 {
        b.len() > 0
    } else if b.len() == 0 {
        false
    } else if a[0] < b[0] {
        true
    } else if b[0] < a[0] {
        false
    } else {
        lex_less(a.drop_first(), b.drop_first())
    }
}

/// When two names agree on their first `i` bytes, the order is decided by
/// what stands at position `i`.
proof fn lemma_lex_prefix(a: Seq<u8>, b: Seq<u8>, i: int)
    requires
        0 <= i <= a.len(),
        i <= b.len(),
        a.subrange(0, i) == b.subrange(0, i),
    ensures
        i == a.len() && i < b.len() ==> lex_less(a, b),
        i == b.len() && i < a.len() ==> lex_less(b, a),
        i == a.len() && i == b.len() ==> a == b,
        i < a.len() && i < b.len() && a[i] < b[i] ==> lex_less(a, b),
        i < a.len() && i < b.len() && b[i] < a[i] ==> lex_less(b, a),
    decreases i,
{
    if i == 0 {
        if a.len() == 0 && b.len() == 0 {
            assert(a =~= b);
        }
    } else {
        assert(a[0] == b[0]) by {
            assert(a.subrange(0, i)[0] == a[0] && b.subrange(0, i)[0] == b[0]);
        }
        let a1 = a.drop_first();
        let b1 = b.drop_first();
        assert(a1.subrange(0, i - 1) =~= b1.subrange(0, i - 1)) by {
            assert forall|j: int| 0 <= j < i - 1 implies #[trigger] a1.subrange(0, i - 1)[j]
                == b1.subrange(0, i - 1)[j] by {
                assert(a1.subrange(0, i - 1)[j] == a[j + 1]);
                assert(b1.subrange(0, i - 1)[j] == b[j + 1]);
                assert(a[j + 1] == a.subrange(0, i)[j + 1]);
                assert(b[j + 1] == b.subrange(0, i)[j + 1]);
            }
        }
        lemma_lex_prefix(a1, b1, i - 1);
        if i == a.len() && i == b.len() {
            assert forall|j: int| 0 <= j < a.len() implies a[j] == b[j] by {
                if j > 0 {
                    assert(a1[j - 1] == b1[j - 1]);
                }
            }
            assert(a =~= b);
        }
        assert(i < a.len() ==> a1[i - 1] == a[i]);
        assert(i < b.len() ==> b1[i - 1] == b[i]);
    }
}

/// Exactly one of `a < b`, `a == b`, `b < a` holds.
proof fn lemma_lex_total(a: Seq<u8>, b: Seq<u8>)
    ensures
        lex_less(a, b) || lex_less(b, a) || a == b,
        lex_less(a, b) ==> !lex_less(b, a) && a != b,
        lex_less(b, a) ==> !lex_less(a, b) && a != b,
    decreases a.len(),
{
    if a.len() == 0 {
        if b.len() == 0 {
            assert(a =~= b);
        }
    } else if b.len() == 0 {
    } else if a[0] == b[0] {
        lemma_lex_total(a.drop_first(), b.drop_first());
        if a.drop_first() == b.drop_first() {
            assert forall|j: int| 0 <= j < a.len() implies a[j] == b[j] by {
                if j > 0 {
                    assert(a.drop_first()[j - 1] == b.drop_first()[j - 1]);
                }
            }
            assert(a =~= b);
        }
        if a == b {
            assert(a.drop_first() =~= b.drop_first());
        }
    } else {
        if a == b {
            assert(a[0] == b[0]);
        }
    }
}

/// The order is transitive.
proof fn lemma_lex_trans(a: Seq<u8>, b: Seq<u8>, c: Seq<u8>)
    requires
        lex_less(a, b),
        lex_less(b, c),
    ensures
        lex_less(a, c),
    decreases a.len(),
{
    if a.len() == 0 {
    } else {
        if a[0] == b[0] && b[0] == c[0] {
            lemma_lex_trans(a.drop_first(), b.drop_first(), c.drop_first());
        }
    }
}

pub enum NameOrd {
    Less,
    Equal,
    Greater,
}

/// Compares two names in lexicographic byte order.
pub fn cmp_names(a: &Vec<u8>, b: &Vec<u8>) -> (r: NameOrd)
    ensures
        (r is Less) == lex_less(a@, b@),
        (r is Equal) == (a@ == b@),
        (r is Greater) == lex_less(b@, a@),
{
    let mut i: usize = 0;
    loop
        invariant
            i <= a.len(),
            i <= b.len(),
            a@.subrange(0, i as int) == b@.subrange(0, i as int),
        decreases a.len() - i,
    {
        proof {
            lemma_lex_total(a@, b@);
            lemma_lex_prefix(a@, b@, i as int);
        }
        if i == a.len() && i == b.len() {
            return NameOrd::Equal;
        }
        if i == a.len() {
            return NameOrd::Less;
        }
        if i == b.len() {
            return NameOrd::Greater;
        }
        if a[i] < b[i] {
            return NameOrd::Less;
        }
        if b[i] < a[i] {
            return NameOrd::Greater;
        }
        proof {
            assert(a@.subrange(0, i + 1) =~= b@.subrange(0, i + 1)) by {
                assert(forall|j: int|
                    0 <= j < i ==> a@.subrange(0, i + 1)[j] == a@.subrange(0, i as int)[j]
                        && b@.subrange(0, i + 1)[j] == b@.subrange(0, i as int)[j]);
            }
        }
        i = i + 1;
    }
}

// --- sort, dedup, index assignment.

/// Strictly ascending by name byte order.
pub open spec fn strictly_sorted(s: Seq<GEntry>) -> bool {
    forall|i: int, j: int|
        0 <= i < j < s.len() ==> lex_less(#[trigger] s[i].name, #[trigger] s[j].name)
}

/// `g` is the first of the first `t` entries of `raw` that carries its name.
pub open spec fn first_occurrence_upto(g: GEntry, raw: Seq<GEntry>, t: int) -> bool {
    exists|k: int|
        0 <= k < t && k < raw.len() && same_except_idx(g, #[trigger] raw[k]) && (forall|k2: int|
            0 <= k2 < k ==> (#[trigger] raw[k2]).name != g.name)
}

/// `g` is the first entry of `raw` that carries its name.
pub open spec fn first_occurrence(g: GEntry, raw: Seq<GEntry>) -> bool {
    first_occurrence_upto(g, raw, raw.len() as int)
}

/// The outcome of sorting and de-duplicating `raw` and indexing the result:
/// strictly ascending names, dense indices equal to positions, every kept
/// entry the first of its name in `raw`, and every decoded name kept.
pub open spec fn sorted_dedup_of(out: Seq<GEntry>, raw: Seq<GEntry>) -> bool {
    &&& strictly_sorted(out)
    &&& forall|i: int| 0 <= i < out.len() ==> (#[trigger] out[i]).idx == i
    &&& forall|i: int| 0 <= i < out.len() ==> first_occurrence(#[trigger] out[i], raw)
    &&& forall|k: int|
        0 <= k < raw.len() ==> exists|i: int|
            0 <= i < out.len() && (#[trigger] out[i]).name == (#[trigger] raw[k]).name
}

/// Inserting `e` at the first position whose name is not below it keeps
/// the list strictly sorted.
proof fn lemma_insert_sorted(out0: Seq<GEntry>, e: GEntry, j: int)
    requires
        0 <= j <= out0.len(),
        strictly_sorted(out0),
        forall|i: int| 0 <= i < j ==> lex_less((#[trigger] out0[i]).name, e.name),
        j < out0.len() ==> lex_less(e.name, out0[j].name),
    ensures
        strictly_sorted(out0.insert(j, e)),
{
    let outn = out0.insert(j, e);
    assert forall|x: int, y: int| 0 <= x < y < outn.len() implies lex_less(
        (#[trigger] outn[x]).name,
        (#[trigger] outn[y]).name,
    ) by {
        if y < j {
            assert(outn[x] == out0[x] && outn[y] == out0[y]);
        } else if x < j && y == j {
            assert(outn[x] == out0[x] && outn[y] == e);
        } else if x < j && y > j {
            assert(outn[x] == out0[x] && outn[y] == out0[y - 1]);
            if y - 1 > j {
                assert(lex_less(out0[x].name, out0[y - 1].name));
            }
        } else if x == j {
            assert(outn[x] == e && outn[y] == out0[y - 1]);
            if y - 1 > j {
                lemma_lex_trans(e.name, out0[j].name, out0[y - 1].name);
            }
        } else {
            assert(outn[x] == out0[x - 1] && outn[y] == out0[y - 1]);
        }
    }
}

/// The same insertion keeps every kept entry the first decoded occurrence
/// of its name, and keeps every decoded name covered.
/// When every name decoded so far is kept in the sorted list, and the next
/// entry's name fits strictly between the scanned prefix and what follows,
/// no earlier decoded entry carries that name.
#[verifier::rlimit(100)]
proof fn lemma_no_earlier_name(out0: Seq<GEntry>, raw: Seq<GEntry>, t: int, j: int)
    requires
        0 <= t < raw.len(),
        0 <= j <= out0.len(),
        strictly_sorted(out0),
        forall|i: int| 0 <= i < j ==> lex_less((#[trigger] out0[i]).name, raw[t].name),
        j < out0.len() ==> lex_less(raw[t].name, out0[j].name),
        forall|k: int|
            0 <= k < t ==> exists|i: int|
                0 <= i < out0.len() && (#[trigger] out0[i]).name == (#[trigger] raw[k]).name,
    ensures
        forall|k2: int| 0 <= k2 < t ==> (#[trigger] raw[k2]).name != raw[t].name,
{
    let e = raw[t];
    assert forall|k2: int| 0 <= k2 < t implies (#[trigger] raw[k2]).name != e.name by {
        if raw[k2].name == e.name {
            let i0 = choose|i: int|
                0 <= i < out0.len() && (#[trigger] out0[i]).name == raw[k2].name;
            if i0 < j {
                lemma_lex_total(out0[i0].name, e.name);
            } else if i0 == j {
                lemma_lex_total(out0[j].name, e.name);
            } else {
                assert(lex_less(out0[j].name, out0[i0].name));
                lemma_lex_trans(e.name, out0[j].name, out0[i0].name);
                lemma_lex_total(out0[i0].name, e.name);
            }
        }
    }
}

/// The insertion keeps every kept entry the first decoded occurrence of
/// its name, and keeps every decoded name covered.
#[verifier::rlimit(100)]
proof fn lemma_insert_occurrence(out0: Seq<GEntry>, raw: Seq<GEntry>, t: int, j: int)
    requires
        0 <= t < raw.len(),
        0 <= j <= out0.len(),
        forall|k2: int| 0 <= k2 < t ==> (#[trigger] raw[k2]).name != raw[t].name,
        forall|i: int|
            0 <= i < out0.len() ==> first_occurrence_upto(#[trigger] out0[i], raw, t),
        forall|k: int|
            0 <= k < t ==> exists|i: int|
                0 <= i < out0.len() && (#[trigger] out0[i]).name == (#[trigger] raw[k]).name,
    ensures
        forall|i: int|
            0 <= i < out0.insert(j, raw[t]).len() ==> first_occurrence_upto(
                #[trigger] out0.insert(j, raw[t])[i],
                raw,
                t + 1,
            ),
        forall|k: int|
            0 <= k < t + 1 ==> exists|i: int|
                0 <= i < out0.insert(j, raw[t]).len() && (#[trigger] out0.insert(j, raw[t])[i]).name
                    == (#[trigger] raw[k]).name,
{
    let e = raw[t];
    let outn = out0.insert(j, e);
    assert(same_except_idx(e, raw[t]));
    assert(first_occurrence_upto(e, raw, t + 1));
    lemma_first_occ_extend(out0, raw, t);
    assert forall|i: int| 0 <= i < outn.len() implies first_occurrence_upto(
        #[trigger] outn[i],
        raw,
        t + 1,
    ) by {
        if i < j {
            assert(outn[i] == out0[i]);
        } else if i == j {
            assert(outn[i] == e);
        } else {
            assert(outn[i] == out0[i - 1]);
        }
    }
    assert forall|k: int| 0 <= k < t + 1 implies exists|i: int|
        0 <= i < outn.len() && (#[trigger] outn[i]).name == (#[trigger] raw[k]).name by {
        if k < t {
            let i0 = choose|i: int|
                0 <= i < out0.len() && (#[trigger] out0[i]).name == raw[k].name;
            if i0 < j {
                assert(outn[i0].name == raw[k].name);
            } else {
                assert(outn[i0 + 1].name == raw[k].name);
            }
        } else {
            assert(outn[j].name == raw[k].name);
        }
    }
}

/// A first occurrence within the first `t` decoded entries is one within
/// the first `t + 1` as well.
proof fn lemma_first_occ_extend(out0: Seq<GEntry>, raw: Seq<GEntry>, t: int)
    requires
        0 <= t < raw.len(),
        forall|i: int|
            0 <= i < out0.len() ==> first_occurrence_upto(#[trigger] out0[i], raw, t),
    ensures
        forall|i: int|
            0 <= i < out0.len() ==> first_occurrence_upto(#[trigger] out0[i], raw, t + 1),
{
}

/// Sorts the decoded list by name, removes duplicate names keeping the
/// first decoded entry of each, and assigns `idx = 0..N-1` in that order.
#[verifier::rlimit(100)]
#[verifier::spinoff_prover]
pub fn sort_dedup_index(list: Vec<FileEntry>) -> (r: Vec<FileEntry>)
    requires
        list@.len() <= 0x7fff_ffff,
    ensures
        sorted_dedup_of(r.deep_view(), list.deep_view()),
        r@.len() <= list@.len(),
{
    let ghost raw = list.deep_view();
    let mut rest = list;
    let mut out: Vec<FileEntry> = Vec::new();
    let ghost t: int = 0;
    proof {
        assert(forall|j: int|
            0 <= j < rest@.len() ==> #[trigger] rest.deep_view()[j] == rest@[j].deep_view());
    }
    while rest.len() > 0
        invariant
            t == raw.len() - rest.len(),
            0 <= t <= raw.len(),
            raw.len() <= 0x7fff_ffff,
            forall|j: int| 0 <= j < rest@.len() ==> #[trigger] rest@[j].deep_view() == raw[t + j],
            strictly_sorted(out.deep_view()),
            out@.len() <= t,
            forall|i: int|
                0 <= i < out@.len() ==> first_occurrence_upto(
                    #[trigger] out.deep_view()[i],
                    raw,
                    t,
                ),
            forall|k: int|
                0 <= k < t ==> exists|i: int|
                    0 <= i < out@.len() && (#[trigger] out.deep_view()[i]).name == (
                    #[trigger] raw[k]).name,
        decreases rest.len(),
    {
        let ghost restv0 = rest@;
        let ghost outd0 = out.deep_view();
        let e = rest.remove(0);
        proof {
            assert(e == restv0[0]);
            assert(e.deep_view() == raw[t]);
            assert(forall|j: int|
                0 <= j < rest@.len() ==> #[trigger] rest@[j] == restv0[j + 1]);
        }
        // find the first position whose name is not below e's
        let mut j: usize = 0;
        loop
            invariant_except_break
                j <= out.len(),
                out.deep_view() == outd0,
                forall|i: int|
                    0 <= i < j ==> lex_less((#[trigger] outd0[i]).name, e.deep_view().name),
            ensures
                j <= out.len(),
                out.deep_view() == outd0,
                forall|i: int|
                    0 <= i < j ==> lex_less((#[trigger] outd0[i]).name, e.deep_view().name),
                j < out.len() ==> !lex_less(outd0[j as int].name, e.deep_view().name),
            decreases out.len() - j,
        {
            if j == out.len() {
                break;
            }
            proof {
                assert(out.deep_view()[j as int] == out@[j as int].deep_view());
            }
            match cmp_names(&out[j].name, &e.name) {
                NameOrd::Less => {
                    j = j + 1;
                },
                NameOrd::Equal => {
                    proof {
                        lemma_lex_total(out@[j as int].name@, e.name@);
                    }
                    break;
                },
                NameOrd::Greater => {
                    proof {
                        lemma_lex_total(out@[j as int].name@, e.name@);
                    }
                    break;
                },
            }
        }
        let mut dup = false;
        if j < out.len() {
            proof {
                assert(out.deep_view()[j as int] == out@[j as int].deep_view());
            }
            match cmp_names(&out[j].name, &e.name) {
                NameOrd::Equal => {
                    dup = true;
                },
                _ => {},
            }
        }
        if dup {
            proof {
                lemma_first_occ_extend(outd0, raw, t);
                assert forall|k: int| 0 <= k < t + 1 implies exists|i: int|
                    0 <= i < out@.len() && (#[trigger] out.deep_view()[i]).name == (
                #[trigger] raw[k]).name by {
                    if k == t {
                        assert(out.deep_view()[j as int].name == raw[t].name);
                    }
                }
            }
        } else {
            proof {
                if j < out@.len() {
                    lemma_lex_total(outd0[j as int].name, raw[t].name);
                    assert(lex_less(raw[t].name, outd0[j as int].name));
                }
            }
            out.insert(j, e);
            proof {
                assert(out.deep_view() =~= outd0.insert(j as int, raw[t])) by {
                    assert forall|k: int| 0 <= k < out@.len() implies #[trigger] out.deep_view()[k]
                        == outd0.insert(j as int, raw[t])[k] by {
                        assert(out.deep_view()[k] == out@[k].deep_view());
                        if k < j {
                            assert(out@[k].deep_view() == outd0[k]);
                        } else if k == j {
                            assert(out@[k] == e);
                        } else {
                            assert(out@[k].deep_view() == outd0[k - 1]);
                        }
                    }
                }
                lemma_insert_sorted(outd0, raw[t], j as int);
                lemma_no_earlier_name(outd0, raw, t, j as int);
                lemma_insert_occurrence(outd0, raw, t, j as int);
            }
        }
        proof {
            t = t + 1;
        }
    }
    // assign dense indices
    let mut i: usize = 0;
    let ghost fixed = out.deep_view();
    while i < out.len()
        invariant
            i <= out@.len(),
            out@.len() == fixed.len(),
            fixed.len() <= 0x7fff_ffff,
            forall|k: int|
                0 <= k < out@.len() ==> same_except_idx(#[trigger] out.deep_view()[k], fixed[k]),
            forall|k: int| 0 <= k < i ==> (#[trigger] out.deep_view()[k]).idx == k,
            forall|k: int| i <= k < out@.len() ==> #[trigger] out.deep_view()[k] == fixed[k],
        decreases out@.len() - i,
    {
        let ghost outv0 = out@;
        let ghost outd0 = out.deep_view();
        let v: i32 = i as i32;
        let entry = &mut out[i];
        entry.idx = v;
        proof {
            assert forall|k: int| 0 <= k < out@.len() && k != i implies #[trigger] out.deep_view()[k]
                == outd0[k] by {
                assert(out@[k] == outv0[k]);
                assert(out.deep_view()[k] == out@[k].deep_view());
                assert(outd0[k] == outv0[k].deep_view());
            }
            assert(out.deep_view()[i as int] == out@[i as int].deep_view());
            assert(outd0[i as int] == outv0[i as int].deep_view());
            assert(out@[i as int].idx == v);
            assert(out@[i as int].name == outv0[i as int].name && out@[i as int].len == outv0[i as int].len
                && out@[i as int].modify_time == outv0[i as int].modify_time && out@[i as int].mode
                == outv0[i as int].mode && out@[i as int].link_target == outv0[i as int].link_target);
            assert(same_except_idx(out.deep_view()[i as int], outd0[i as int]));
            assert(same_except_idx(outd0[i as int], fixed[i as int]));
        }
        i = i + 1;
    }
    proof {
        let outd = out.deep_view();
        assert forall|x: int, y: int| 0 <= x < y < outd.len() implies lex_less(
            (#[trigger] outd[x]).name,
            (#[trigger] outd[y]).name,
        ) by {
            assert(outd[x].name == fixed[x].name && outd[y].name == fixed[y].name);
            assert(lex_less(fixed[x].name, fixed[y].name));
        }
        assert forall|k: int| 0 <= k < outd.len() implies first_occurrence(
            #[trigger] outd[k],
            raw,
        ) by {
            assert(first_occurrence_upto(fixed[k], raw, raw.len() as int));
            let k0 = choose|k0: int|
                0 <= k0 < raw.len() && same_except_idx(fixed[k], #[trigger] raw[k0]) && (forall|
                    k2: int,
                |
                    0 <= k2 < k0 ==> (#[trigger] raw[k2]).name != fixed[k].name);
            assert(same_except_idx(outd[k], raw[k0]));
        }
        assert forall|k: int| 0 <= k < raw.len() implies exists|i2: int|
            0 <= i2 < outd.len() && (#[trigger] outd[i2]).name == (#[trigger] raw[k]).name by {
            let i0 = choose|i2: int|
                0 <= i2 < fixed.len() && (#[trigger] fixed[i2]).name == raw[k].name;
            assert(outd[i0].name == raw[k].name);
        }
    }
    out
}

// --- mode classification (POSIX file-type bits).

pub open spec fn spec_is_dir(mode: u32) -> bool {
    mode & 0xf000 == 0x4000
}

pub open spec fn spec_is_regular(mode: u32) -> bool {
    mode & 0xf000 == 0x8000
}

pub open spec fn spec_is_symlink(mode: u32) -> bool {
    mode & 0xf000 == 0xa000
}

pub fn is_dir(mode: u32) -> (r: bool)
    ensures
        r == spec_is_dir(mode),
{
    mode & 0xf000 == 0x4000
}

pub fn is_regular(mode: u32) -> (r: bool)
    ensures
        r == spec_is_regular(mode),
{
    mode & 0xf000 == 0x8000
}

pub fn is_symlink(mode: u32) -> (r: bool)
    ensures
        r == spec_is_symlink(mode),
{
    mode & 0xf000 == 0xa000
}

// --- decoding one entry record. The flag byte has already been read; the
// --- fields follow in the order fixed by protocol 27 with the options this
// --- client sends (no uid, gid or rdev fields).

pub enum EntryParse {
    Done(GEntry, int),
    Incomplete,
    Fail(RsyncError),
}

pub enum EntryStep {
    Done(FileEntry, usize),
    Incomplete,
    Fail(RsyncError),
}

/// The record starting at `pos`, decoded against the previous entry's name
/// bytes `pname` and, when inheritance asks for them, the previous entry's
/// modify time and mode in `prev`.
pub open spec fn spec_parse_entry(
    s: Seq<u8>,
    pos: int,
    flags: u8,
    pname: Seq<u8>,
    prev: Option<(u32, u32)>,
) -> EntryParse {
    let same_name = flags & 0x20 != 0;
    let long_name = flags & 0x40 != 0;
    let same_time = flags & 0x80 != 0;
    let same_mode = flags & 0x02 != 0;
    if pos < 0 {
        EntryParse::Fail(RsyncError::InternalInvariant)
    } else if same_name && pos + 1 > s.len() {
        EntryParse::Incomplete
    } else {
        let inherit: int = if same_name { s[pos] as int } else { 0 };
        let p1 = if same_name { pos + 1 } else { pos };
        if (long_name && p1 + 4 > s.len()) || (!long_name && p1 + 1 > s.len()) {
            EntryParse::Incomplete
        } else {
            let suffix: int = if long_name {
                u32_of_le(s[p1], s[p1 + 1], s[p1 + 2], s[p1 + 3]) as int
            } else {
                s[p1] as int
            };
            let p2 = if long_name { p1 + 4 } else { p1 + 1 };
            if inherit + suffix > 4096 {
                EntryParse::Fail(RsyncError::PathTooLong)
            } else if inherit > pname.len() {
                EntryParse::Fail(RsyncError::ProtocolError)
            } else if p2 + suffix > s.len() {
                EntryParse::Incomplete
            } else {
                let name = pname.subrange(0, inherit) + s.subrange(p2, p2 + suffix);
                match spec_read_rsync_long(s, p2 + suffix) {
                    None => EntryParse::Incomplete,
                    Some((flen, p4)) => spec_parse_entry_tail(
                        s,
                        p4,
                        same_time,
                        same_mode,
                        name,
                        flen,
                        prev,
                    ),
                }
            }
        }
    }
}

/// The trailing fields of a record: modify time, mode, and for a symlink
/// the link target.
pub open spec fn spec_parse_entry_tail(
    s: Seq<u8>,
    p4: int,
    same_time: bool,
    same_mode: bool,
    name: Seq<u8>,
    flen: u64,
    prev: Option<(u32, u32)>,
) -> EntryParse {
    if (same_time || same_mode) && prev is None {
        EntryParse::Fail(RsyncError::ProtocolError)
    } else if !same_time && p4 + 4 > s.len() {
        EntryParse::Incomplete
    } else {
        let mtime = match prev {
            Some(pv) => if same_time {
                pv.0
            } else {
                u32_of_le(s[p4], s[p4 + 1], s[p4 + 2], s[p4 + 3])
            },
            None => u32_of_le(s[p4], s[p4 + 1], s[p4 + 2], s[p4 + 3]),
        };
        let p5 = if same_time {
            p4
        } else {
            p4 + 4
        };
        if !same_mode && p5 + 4 > s.len() {
            EntryParse::Incomplete
        } else {
            let mode = match prev {
                Some(pv) => if same_mode {
                    pv.1
                } else {
                    u32_of_le(s[p5], s[p5 + 1], s[p5 + 2], s[p5 + 3])
                },
                None => u32_of_le(s[p5], s[p5 + 1], s[p5 + 2], s[p5 + 3]),
            };
            let p6 = if same_mode {
                p5
            } else {
                p5 + 4
            };
            if !spec_is_symlink(mode) {
                EntryParse::Done(
                    GEntry {
                        name,
                        len: flen,
                        modify_time: mtime,
                        mode,
                        link_target: None,
                        idx: 0x7fffffff,
                    },
                    p6,
                )
            } else if p6 + 4 > s.len() {
                EntryParse::Incomplete
            } else {
                let ltl = u32_of_le(s[p6], s[p6 + 1], s[p6 + 2], s[p6 + 3]) as int;
                if p6 + 4 + ltl > s.len() {
                    EntryParse::Incomplete
                } else {
                    EntryParse::Done(
                        GEntry {
                            name,
                            len: flen,
                            modify_time: mtime,
                            mode,
                            link_target: Some(s.subrange(p6 + 4, p6 + 4 + ltl)),
                            idx: 0x7fffffff,
                        },
                        p6 + 4 + ltl,
                    )
                }
            }
        }
    }
}

/// Decodes one entry record.
#[verifier::rlimit(100)]
#[verifier::spinoff_prover]
pub fn parse_file_entry(
    buf: &Vec<u8>,
    pos: usize,
    flags: u8,
    pname: &Vec<u8>,
    prev: Option<(u32, u32)>,
) -> (r: EntryStep)
    ensures
        match r {
            EntryStep::Done(e, n) => spec_parse_entry(buf@, pos as int, flags, pname@, prev)
                == EntryParse::Done(e@, n as int) && pos < n <= buf@.len(),
            EntryStep::Incomplete => spec_parse_entry(buf@, pos as int, flags, pname@, prev)
                is Incomplete,
            EntryStep::Fail(e) => spec_parse_entry(buf@, pos as int, flags, pname@, prev)
                == EntryParse::Fail(e),
        },
{
    let same_name = flags & 0x20 != 0;
    let long_name = flags & 0x40 != 0;
    let same_time = flags & 0x80 != 0;
    let same_mode = flags & 0x02 != 0;
    let mut p = pos;
    let inherit: u8 = if same_name {
        match read_u8_at(buf, p) {
            Some((b, n)) => {
                p = n;
                b
            },
            None => {
                return EntryStep::Incomplete;
            },
        }
    } else {
        0
    };
    let suffix: u32 = if long_name {
        match read_u32_le_at(buf, p) {
            Some((v, n)) => {
                p = n;
                v
            },
            None => {
                return EntryStep::Incomplete;
            },
        }
    } else {
        match read_u8_at(buf, p) {
            Some((b, n)) => {
                p = n;
                b as u32
            },
            None => {
                return EntryStep::Incomplete;
            },
        }
    };
    if suffix > 4096 || (inherit as u32) + suffix > 4096 {
        return EntryStep::Fail(RsyncError::PathTooLong);
    }
    if (inherit as usize) > pname.len() {
        return EntryStep::Fail(RsyncError::ProtocolError);
    }
    if buf.len() < suffix as usize || p > buf.len() - suffix as usize {
        return EntryStep::Incomplete;
    }
    let mut name = copy_range(pname, 0, inherit as usize);
    let suffix_bytes = copy_range(buf, p, p + suffix as usize);
    push_all(&mut name, &suffix_bytes);
    p = p + suffix as usize;
    let ghost gname = name@;
    let flen: u64 = match crate::wire::read_rsync_long_at(buf, p) {
        Some((v, n)) => {
            p = n;
            v
        },
        None => {
            return EntryStep::Incomplete;
        },
    };
    if (same_time || same_mode) && matches!(prev, None) {
        return EntryStep::Fail(RsyncError::ProtocolError);
    }
    let prev_vals: (u32, u32) = match prev {
        Some(pv) => pv,
        None => (0, 0),
    };
    let mtime: u32 = if same_time {
        prev_vals.0
    } else {
        match read_u32_le_at(buf, p) {
            Some((v, n)) => {
                p = n;
                v
            },
            None => {
                return EntryStep::Incomplete;
            },
        }
    };
    let mode: u32 = if same_mode {
        prev_vals.1
    } else {
        match read_u32_le_at(buf, p) {
            Some((v, n)) => {
                p = n;
                v
            },
            None => {
                return EntryStep::Incomplete;
            },
        }
    };
    let link_target: Option<Vec<u8>> = if is_symlink(mode) {
        let ltl: u32 = match read_u32_le_at(buf, p) {
            Some((v, n)) => {
                p = n;
                v
            },
            None => {
                return EntryStep::Incomplete;
            },
        };
        if buf.len() < ltl as usize || p > buf.len() - ltl as usize {
            return EntryStep::Incomplete;
        }
        let lt = copy_range(buf, p, p + ltl as usize);
        p = p + ltl as usize;
        Some(lt)
    } else {
        None
    };
    let e = FileEntry { name, len: flen, modify_time: mtime, mode, link_target, idx: 0x7fffffff };
    proof {
        assert(e@.name =~= gname);
    }
    EntryStep::Done(e, p)
}

// --- the list loop: records until a zero flag byte, then sort, dedup,
// --- index.

pub enum ListParse {
    Done(Seq<GEntry>, int),
    Incomplete,
    Fail(RsyncError),
}

pub enum ListStep {
    Done(Vec<FileEntry>, usize),
    Incomplete,
    Fail(RsyncError),
}

/// The raw decoded list from `pos` on: a flag byte per record, a zero flag
/// byte ending the list. Inherited fields come from the record before.
pub open spec fn spec_parse_list(
    s: Seq<u8>,
    pos: int,
    pname: Seq<u8>,
    prev: Option<(u32, u32)>,
) -> ListParse
    decreases s.len() - pos,
{
    if pos < 0 || pos + 1 > s.len() {
        ListParse::Incomplete
    } else if s[pos] == 0 {
        ListParse::Done(Seq::empty(), pos + 1)
    } else {
        match spec_parse_entry(s, pos + 1, s[pos], pname, prev) {
            EntryParse::Incomplete => ListParse::Incomplete,
            EntryParse::Fail(e) => ListParse::Fail(e),
            EntryParse::Done(e, n) => if n <= pos || n > s.len() {
                ListParse::Fail(RsyncError::InternalInvariant)
            } else {
                match spec_parse_list(s, n, e.name, Some((e.modify_time, e.mode))) {
                    ListParse::Done(rest, m) => ListParse::Done(seq![e] + rest, m),
                    ListParse::Incomplete => ListParse::Incomplete,
                    ListParse::Fail(e2) => ListParse::Fail(e2),
                }
            },
        }
    }
}

/// Decodes the raw file list, in wire order.
pub fn parse_file_list(buf: &Vec<u8>, pos: usize) -> (r: ListStep)
    ensures
        match r {
            ListStep::Done(v, n) => spec_parse_list(buf@, pos as int, Seq::empty(), None)
                == ListParse::Done(v.deep_view(), n as int) && n <= buf@.len(),
            ListStep::Incomplete => spec_parse_list(buf@, pos as int, Seq::empty(), None)
                is Incomplete,
            ListStep::Fail(e) => spec_parse_list(buf@, pos as int, Seq::empty(), None)
                == ListParse::Fail(e),
        },
{
    let ghost orig = spec_parse_list(buf@, pos as int, Seq::<u8>::empty(), None);
    let mut entries: Vec<FileEntry> = Vec::new();
    let mut scratch: Vec<u8> = Vec::new();
    let mut prev: Option<(u32, u32)> = None;
    let mut cur = pos;
    proof {
        assert(entries.deep_view() =~= Seq::<GEntry>::empty());
        assert(scratch@ =~= Seq::<u8>::empty());
    }
    loop
        invariant
            cur <= buf@.len() || cur == pos,
            orig == spec_parse_list(buf@, pos as int, Seq::<u8>::empty(), None),
            match spec_parse_list(buf@, cur as int, scratch@, prev) {
                ListParse::Done(rest, m) => orig == ListParse::Done(
                    entries.deep_view() + rest,
                    m,
                ),
                ListParse::Incomplete => orig is Incomplete,
                ListParse::Fail(e) => orig == ListParse::Fail(e),
            },
        decreases buf@.len() - cur + 1,
    {
        if cur >= buf.len() {
            return ListStep::Incomplete;
        }
        let flag = buf[cur];
        if flag == 0 {
            proof {
                assert(entries.deep_view() + Seq::<GEntry>::empty() =~= entries.deep_view());
            }
            return ListStep::Done(entries, cur + 1);
        }
        let ghost entries0 = entries.deep_view();
        match parse_file_entry(buf, cur + 1, flag, &scratch, prev) {
            EntryStep::Incomplete => {
                return ListStep::Incomplete;
            },
            EntryStep::Fail(e) => {
                return ListStep::Fail(e);
            },
            EntryStep::Done(e, n) => {
                let ghost ge = e@;
                scratch = copy_range(&e.name, 0, e.name.len());
                prev = Some((e.modify_time, e.mode));
                entries.push(e);
                proof {
                    assert(entries.deep_view() =~= entries0.push(ge)) by {
                        assert forall|k: int|
                            0 <= k < entries.deep_view().len() implies #[trigger] entries.deep_view()[k]
                            == entries0.push(ge)[k] by {
                            assert(entries.deep_view()[k] == entries@[k].deep_view());
                        }
                    }
                    assert(scratch@ =~= ge.name);
                    match spec_parse_list(buf@, n as int, ge.name, Some(
                        (ge.modify_time, ge.mode),
                    )) {
                        ListParse::Done(rest, m) => {
                            assert(entries0.push(ge) + rest =~= entries0 + (seq![ge] + rest));
                        },
                        ListParse::Incomplete => {},
                        ListParse::Fail(e2) => {},
                    }
                }
                cur = n;
            },
        }
    }
}

/// Receives the whole file list: decodes the records, sorts by name,
/// removes duplicate names keeping the first decoded entry, and assigns
/// dense indices.
pub fn recv_file_list(buf: &Vec<u8>, pos: usize) -> (r: ListStep)
    ensures
        match r {
            ListStep::Done(v, n) => (spec_parse_list(buf@, pos as int, Seq::empty(), None)
                matches ListParse::Done(raw, m) && m == n && raw.len() <= 0x7fff_ffff
                && sorted_dedup_of(v.deep_view(), raw)),
            ListStep::Incomplete => spec_parse_list(buf@, pos as int, Seq::empty(), None)
                is Incomplete,
            ListStep::Fail(e) => (spec_parse_list(buf@, pos as int, Seq::empty(), None)
                == ListParse::Fail(e)) || (spec_parse_list(buf@, pos as int, Seq::empty(), None)
                matches ListParse::Done(raw, m) && raw.len() > 0x7fff_ffff && e
                    matches RsyncError::ProtocolError),
        },
{
    match parse_file_list(buf, pos) {
        ListStep::Done(v, n) => {
            if v.len() > 0x7fff_ffff {
                return ListStep::Fail(RsyncError::ProtocolError);
            }
            let sorted = sort_dedup_index(v);
            ListStep::Done(sorted, n)
        },
        ListStep::Incomplete => ListStep::Incomplete,
        ListStep::Fail(e) => ListStep::Fail(e),
    }
}

/// The name that an unnamed byte sequence shows as, with invalid UTF-8
/// replaced.
pub uninterp spec fn utf8_lossy_of(b: Seq<u8>) -> Seq<char>;

impl FileEntry {
    /// Relies on String::from_utf8_lossy: the result is a function of the
    /// input bytes alone, and valid UTF-8 comes through unchanged.
    #[verifier::external_body]
    pub fn name_lossy(&self) -> (r: String)
        ensures
            r@ == utf8_lossy_of(self.name@),
    {
        String::from_utf8_lossy(&self.name).into_owned()
    }
}

} // verus!
