//! The linked-list patcher: patches kept in a slot table, each patched field linked to
//! the patches above and below it that touch the same field.
use crate::geometry::{
    block_changed, field_bits, field_changed, field_len, field_len_from, lemma_contiguous,
    lemma_eq_by_blocks, lemma_field_range, lemma_field_start_le, lemma_masks_disjoint,
    lemma_union_at_block, lemma_union_within, union_where, wf_geometry, FieldBlock,
};
use crate::geometry::changed_bits_upto;
use crate::model::{
    empty_patch, lemma_identity_patch_empty, lemma_restore_facts, zero_diff,
    RowPatcher,
    absorbed, has_id, hidden_between, index_of_id, new_patch, restored, restored_live, revealed,
    stack_wf, PatchView,
};
use vstd::prelude::*;

verus! {

/// Index of a slot of the slot table; `0xFFFF` stands for no slot.
#[derive(Debug, Clone, Copy, PartialEq, Eq, Structural)]
pub struct RowDiffId(pub u16);

/// The value that stands for no slot.
pub const NO_SLOT: u16 = 0xFFFF;

/// The stack holds at most 65535 patches, and every id is below `NO_SLOT`.
pub open spec fn within_slots(s: Seq<PatchView>) -> bool {
    &&& s.len() <= NO_SLOT
    &&& forall|k: int| 0 <= k < s.len() ==> (#[trigger] s[k]).id < NO_SLOT
}

/// More than the number of fields any patch can touch.
spec fn all_fields() -> int {
    0x10000
}

impl RowDiffId {
    /// The id that stands for no slot.
    pub fn none() -> (r: Self)
        ensures
            r.0 == NO_SLOT,
    {
        RowDiffId(NO_SLOT)
    }

    /// The slot index, if the id names a slot.
    pub fn as_index(self) -> (r: Option<usize>)
        ensures
            r == if self.0 == NO_SLOT {
                None
            } else {
                Some(self.0 as usize)
            },
    {
        if self.0 == NO_SLOT {
            None
        } else {
            Some(self.0 as usize)
        }
    }
}

/// A patched field: its slot, and its index among the slot's patched fields.
#[derive(Debug, Clone, Copy, PartialEq, Eq, Structural)]
pub struct PatchedFieldRef {
    pub diff: RowDiffId,
    pub index: u16,
}

impl PatchedFieldRef {
    /// The reference names no patched field.
    pub fn is_null(self) -> (r: bool)
        ensures
            r == (self.diff.0 == NO_SLOT),
    {
        self.diff.0 == NO_SLOT
    }

    pub fn new(diff: RowDiffId, index: u16) -> (r: Self)
        ensures
            r.diff == diff,
            r.index == index,
    {
        PatchedFieldRef { diff, index }
    }
}

/// One field touched by a patch.
#[derive(Debug, Clone, Copy)]
struct PatchedField {
    /// The field, as the index of its first block.
    field_start: u16,
    /// Where the field's words start in the patch's `block_diffs`.
    diff_start: usize,
    /// The same field in the nearest patch above this one.
    prev: PatchedFieldRef,
    /// The same field in the nearest patch below this one.
    next: PatchedFieldRef,
}

/// One slot: a patch's words, the fields it touched, and the free-list link.
struct RowDiff {
    /// XOR of the changes, word by word, for each touched field's blocks in turn.
    block_diffs: Vec<u32>,
    patched_fields: Vec<PatchedField>,
    next_free_slot: RowDiffId,
}

spec fn same_ref(a: PatchedFieldRef, b: PatchedFieldRef) -> bool {
    (a.diff.0 == NO_SLOT && b.diff.0 == NO_SLOT) || a == b
}

spec fn touched(rd: RowDiff, f: int) -> bool {
    exists|i: int| 0 <= i < rd.patched_fields@.len() && rd.patched_fields@[i].field_start == f
}

spec fn idx_of(rd: RowDiff, f: int) -> int {
    choose|i: int| 0 <= i < rd.patched_fields@.len() && rd.patched_fields@[i].field_start == f
}

/// The stored word of block `j` in slot `rd`.
spec fn entry(g: Seq<FieldBlock>, rd: RowDiff, j: int) -> u32 {
    let f = g[j].field_start as int;
    rd.block_diffs@[rd.patched_fields@[idx_of(rd, f)].diff_start + (j - f)]
}

spec fn slot_view(g: Seq<FieldBlock>, rd: RowDiff, s: int, n: nat) -> PatchView {
    PatchView {
        id: s as usize,
        mask: Seq::new(
            n,
            |w: int|
                union_where(
                    g,
                    w,
                    g.len() as int,
                    |j: int| touched(rd, g[j].field_start as int),
                    |j: int| g[j].mask,
                ),
        ),
        diff: Seq::new(
            n,
            |w: int|
                union_where(
                    g,
                    w,
                    g.len() as int,
                    |j: int| touched(rd, g[j].field_start as int),
                    |j: int| entry(g, rd, j) & g[j].mask,
                ),
        ),
    }
}

/// The first position from `q` on, below `len`, that `t` holds at; -1 if none.
spec fn first_from(t: spec_fn(int) -> bool, len: int, q: int) -> int
    decreases len - q,
{
    if q >= len {
        -1
    } else if t(q) {
        q
    } else {
        first_from(t, len, q + 1)
    }
}

/// The last position up to `q` that `t` holds at; -1 if none.
spec fn last_upto(t: spec_fn(int) -> bool, q: int) -> int
    decreases q + 1,
{
    if q < 0 {
        -1
    } else if t(q) {
        q
    } else {
        last_upto(t, q - 1)
    }
}

proof fn lemma_first_agree(t1: spec_fn(int) -> bool, t2: spec_fn(int) -> bool, len: int, q: int)
    requires
        forall|x: int| q <= x < len ==> #[trigger] t1(x) == t2(x),
    ensures
        first_from(t1, len, q) == first_from(t2, len, q),
    decreases len - q,
{
    if q < len {
        lemma_first_agree(t1, t2, len, q + 1);
    }
}

proof fn lemma_last_agree(t1: spec_fn(int) -> bool, t2: spec_fn(int) -> bool, q: int)
    requires
        forall|x: int| 0 <= x <= q ==> #[trigger] t1(x) == t2(x),
    ensures
        last_upto(t1, q) == last_upto(t2, q),
    decreases q + 1,
{
    if q >= 0 {
        lemma_last_agree(t1, t2, q - 1);
    }
}

proof fn lemma_first_range(t: spec_fn(int) -> bool, len: int, q: int)
    requires
        0 <= q,
    ensures
        first_from(t, len, q) == -1 || (q <= first_from(t, len, q) < len && t(first_from(t, len, q))),
        first_from(t, len, q) == -1 ==> forall|x: int| q <= x < len ==> !#[trigger] t(x),
        first_from(t, len, q) != -1 ==> forall|x: int| q <= x < first_from(t, len, q) ==> !#[trigger] t(x),
    decreases len - q,
{
    if q < len {
        lemma_first_range(t, len, q + 1);
        if first_from(t, len, q) == -1 {
            assert forall|x: int| q <= x < len implies !#[trigger] t(x) by {
                if x == q {
                    assert(!t(q));
                }
            }
        }
    }
}

proof fn lemma_last_range(t: spec_fn(int) -> bool, q: int)
    ensures
        last_upto(t, q) == -1 || (0 <= last_upto(t, q) <= q && t(last_upto(t, q))),
        last_upto(t, q) == -1 ==> forall|x: int| 0 <= x <= q ==> !#[trigger] t(x),
        last_upto(t, q) != -1 ==> forall|x: int| last_upto(t, q) < x <= q ==> !#[trigger] t(x),
    decreases q + 1,
{
    if q >= 0 {
        lemma_last_range(t, q - 1);
        if last_upto(t, q) == -1 {
            assert forall|x: int| 0 <= x <= q implies !#[trigger] t(x) by {
                if x == q {
                    assert(!t(q));
                }
            }
        }
    }
}

/// The first position from `q` on is `r` when `t` holds at `r` and nowhere between.
proof fn lemma_first_is(t: spec_fn(int) -> bool, len: int, q: int, r: int)
    requires
        0 <= q <= r < len,
        t(r),
        forall|x: int| q <= x < r ==> !#[trigger] t(x),
    ensures
        first_from(t, len, q) == r,
    decreases r - q,
{
    if q < r {
        lemma_first_is(t, len, q + 1, r);
    }
}

proof fn lemma_first_none(t: spec_fn(int) -> bool, len: int, q: int)
    requires
        forall|x: int| q <= x < len ==> !#[trigger] t(x),
    ensures
        first_from(t, len, q) == -1,
    decreases len - q,
{
    if q < len {
        lemma_first_none(t, len, q + 1);
    }
}

proof fn lemma_last_is(t: spec_fn(int) -> bool, q: int, r: int)
    requires
        0 <= r <= q,
        t(r),
        forall|x: int| r < x <= q ==> !#[trigger] t(x),
    ensures
        last_upto(t, q) == r,
    decreases q - r,
{
    if q > r {
        lemma_last_is(t, q - 1, r);
    }
}

proof fn lemma_last_none(t: spec_fn(int) -> bool, q: int)
    requires
        forall|x: int| 0 <= x <= q ==> !#[trigger] t(x),
    ensures
        last_upto(t, q) == -1,
    decreases q + 1,
{
    if q >= 0 {
        lemma_last_none(t, q - 1);
    }
}

/// Some position strictly between `i` and `k` satisfies `t`.
spec fn any_between(t: spec_fn(int) -> bool, i: int, k: int) -> bool {
    exists|x: int| i < x < k && #[trigger] t(x)
}

/// The diff slot of an edit, before it is linked: the fields that changed, in order, each
/// with the XOR of its blocks.
spec fn diff_built(g: Seq<FieldBlock>, before: Seq<u32>, after: Seq<u32>, rd: RowDiff) -> bool {
    &&& forall|a: int, b: int|
        0 <= a < b < rd.patched_fields@.len() ==> #[trigger] rd.patched_fields@[a].field_start
            < #[trigger] rd.patched_fields@[b].field_start
    &&& forall|i: int|
        0 <= i < rd.patched_fields@.len() ==> {
            let pf = #[trigger] rd.patched_fields@[i];
            &&& (pf.field_start as int) < g.len()
            &&& g[pf.field_start as int].field_start == pf.field_start
            &&& pf.diff_start + field_len(g, pf.field_start as int) <= rd.block_diffs@.len()
            &&& pf.prev.diff.0 == NO_SLOT
            &&& pf.next.diff.0 == NO_SLOT
            &&& forall|x: int|
                0 <= x < field_len(g, pf.field_start as int) ==> {
                    let j = pf.field_start + x;
                    #[trigger] rd.block_diffs@[pf.diff_start + x] == (before[g[j].offset as int]
                        ^ after[g[j].offset as int]) & g[j].mask
                }
        }
    &&& forall|f: int| #[trigger] touched(rd, f) <==> field_changed(g, before, after, f)
    &&& rd.patched_fields@.len() <= g.len()
    &&& ranges_apart(g, rd)
    &&& rd.patched_fields@.len() == 0 ==> rd.block_diffs@.len() == 0
}

/// The stored words of distinct fields of a slot do not overlap.
spec fn ranges_apart(g: Seq<FieldBlock>, rd: RowDiff) -> bool {
    forall|a: int, b: int|
        0 <= a < b < rd.patched_fields@.len() ==> (#[trigger] rd.patched_fields@[a]).diff_start
            + field_len(g, rd.patched_fields@[a].field_start as int) <= (
        #[trigger] rd.patched_fields@[b]).diff_start
}

/// Appends field `f` to `rd`: a new patched field, and the XOR of each of its blocks.
/// Returns the index of the block after the field.
fn push_field(
    g: &Vec<FieldBlock>,
    n: usize,
    before: &[u32],
    after: &[u32],
    rd: &mut RowDiff,
    f: usize,
    null: PatchedFieldRef,
) -> (e: usize)
    requires
        wf_geometry(g@, n as nat),
        before@.len() == n,
        after@.len() == n,
        f < g@.len(),
        g@[f as int].field_start == f,
    ensures
        e == f + field_len(g@, f as int),
        e <= g@.len(),
        old(rd).block_diffs@.len() <= usize::MAX,
        final(rd).next_free_slot == old(rd).next_free_slot,
        final(rd).patched_fields@ == old(rd).patched_fields@.push(
            PatchedField { field_start: f as u16, diff_start: old(rd).block_diffs@.len() as usize, prev: null, next: null },
        ),
        final(rd).block_diffs@.len() == old(rd).block_diffs@.len() + field_len(g@, f as int),
        forall|x: int| 0 <= x < old(rd).block_diffs@.len() ==> #[trigger] final(rd).block_diffs@[x] == old(rd).block_diffs@[x],
        forall|x: int|
            0 <= x < field_len(g@, f as int) ==> {
                let j = f + x;
                #[trigger] final(rd).block_diffs@[old(rd).block_diffs@.len() + x] == (before@[g@[j].offset as int]
                    ^ after@[g@[j].offset as int]) & g@[j].mask
            },
{
    let glen = g.len();
    let diff_start = rd.block_diffs.len();
    let ghost bd0 = rd.block_diffs@;
    rd.patched_fields.push(PatchedField { field_start: f as u16, diff_start, prev: null, next: null });
    proof {
        lemma_field_range(g@, n as nat, f as int, f as int);
    }
    let mut k: usize = f;
    while k < glen && g[k].field_start as usize == f
        invariant
            glen == g@.len(),
            before@.len() == n,
            after@.len() == n,
            forall|j: int| 0 <= j < glen ==> (#[trigger] g@[j].offset as nat) < n,
            f <= k <= glen,
            g@[f as int].field_start == f,
            rd.next_free_slot == old(rd).next_free_slot,
            rd.patched_fields@ == old(rd).patched_fields@.push(
                PatchedField { field_start: f as u16, diff_start: bd0.len() as usize, prev: null, next: null },
            ),
            bd0 == old(rd).block_diffs@,
            rd.block_diffs@.len() == diff_start + (k - f),
            diff_start == bd0.len(),
            forall|x: int| 0 <= x < bd0.len() ==> #[trigger] rd.block_diffs@[x] == bd0[x],
            field_len(g@, f as int) == (k - f) + field_len_from(g@, f as int, k as int),
            forall|x: int|
                0 <= x < k - f ==> {
                    let j = f + x;
                    #[trigger] rd.block_diffs@[diff_start + x] == (before@[g@[j].offset as int]
                        ^ after@[g@[j].offset as int]) & g@[j].mask
                },
        decreases glen - k,
    {
        let ok = g[k].offset as usize;
        rd.block_diffs.push((before[ok] ^ after[ok]) & g[k].mask);
        k += 1;
    }
    k
}

/// Records the fields that differ between `before` and `after`.
fn build_diff(g: &Vec<FieldBlock>, n: usize, before: &[u32], after: &[u32]) -> (rd: RowDiff)
    requires
        wf_geometry(g@, n as nat),
        before@.len() == n,
        after@.len() == n,
    ensures
        diff_built(g@, before@, after@, rd),
        rd.next_free_slot.0 == NO_SLOT,
{
    let null = PatchedFieldRef::new(RowDiffId::none(), 0);
    let mut rd = RowDiff { block_diffs: Vec::new(), patched_fields: Vec::new(), next_free_slot: RowDiffId::none() };
    let glen = g.len();
    let mut i: usize = 0;
    while i < glen
        invariant
            wf_geometry(g@, n as nat),
            glen == g@.len(),
            before@.len() == n,
            after@.len() == n,
            null.diff.0 == NO_SLOT,
            rd.next_free_slot.0 == NO_SLOT,
            i <= glen,
            rd.patched_fields@.len() <= i,
            ranges_apart(g@, rd),
            rd.patched_fields@.len() == 0 ==> rd.block_diffs@.len() == 0,
            forall|a: int, b: int|
                0 <= a < b < rd.patched_fields@.len() ==> #[trigger] rd.patched_fields@[a].field_start
                    < #[trigger] rd.patched_fields@[b].field_start,
            forall|t: int|
                0 <= t < rd.patched_fields@.len() ==> {
                    let pf = #[trigger] rd.patched_fields@[t];
                    &&& (pf.field_start as int) < glen
                    &&& g@[pf.field_start as int].field_start == pf.field_start
                    &&& pf.field_start + field_len(g@, pf.field_start as int) <= i
                    &&& pf.diff_start + field_len(g@, pf.field_start as int) <= rd.block_diffs@.len()
                    &&& pf.prev.diff.0 == NO_SLOT
                    &&& pf.next.diff.0 == NO_SLOT
                    &&& forall|x: int|
                        0 <= x < field_len(g@, pf.field_start as int) ==> {
                            let j = pf.field_start + x;
                            #[trigger] rd.block_diffs@[pf.diff_start + x] == (before@[g@[j].offset as int]
                                ^ after@[g@[j].offset as int]) & g@[j].mask
                        }
                },
            forall|f: int|
                #[trigger] touched(rd, f) <==> exists|j: int|
                    0 <= j < i && g@[j].field_start == f && block_changed(g@, before@, after@, j),
        decreases glen - i,
    {
        let fb = g[i];
        let o = fb.offset as usize;
        if (before[o] ^ after[o]) & fb.mask == 0 {
            proof {
                assert(!block_changed(g@, before@, after@, i as int));
                assert forall|f: int| #[trigger] touched(rd, f) <==> exists|j: int|
                    0 <= j < i + 1 && g@[j].field_start == f && block_changed(g@, before@, after@, j) by {
                    if exists|j: int| 0 <= j < i + 1 && g@[j].field_start == f && block_changed(g@, before@, after@, j) {
                        let j = choose|j: int| 0 <= j < i + 1 && g@[j].field_start == f && block_changed(g@, before@, after@, j);
                        assert(j < i);
                    }
                }
            }
            i += 1;
        } else {
            let f = fb.field_start as usize;
            let ghost rd0 = rd;
            proof {
                lemma_field_start_le(g@, n as nat, i as int);
                lemma_contiguous(g@, n as nat, i as int, f as int);
                lemma_field_range(g@, n as nat, f as int, i as int);
                assert(block_changed(g@, before@, after@, i as int));
                if touched(rd, f as int) {
                    let t = choose|t: int| 0 <= t < rd.patched_fields@.len() && rd.patched_fields@[t].field_start == f;
                    assert(rd.patched_fields@[t].field_start + field_len(g@, f as int) <= i);
                }
                assert forall|t: int| 0 <= t < rd.patched_fields@.len() implies #[trigger] rd.patched_fields@[t].field_start
                    < f by {
                    let h = rd.patched_fields@[t].field_start as int;
                    if h >= f {
                        lemma_field_range(g@, n as nat, h, h);
                        lemma_contiguous(g@, n as nat, i as int, h);
                        assert(touched(rd, h));
                    }
                }
            }
            let e = push_field(g, n, before, after, &mut rd, f, null);
            proof {
                let pl = rd0.patched_fields@.len() as int;
                assert forall|a: int, b: int|
                    0 <= a < b < rd.patched_fields@.len() implies (#[trigger] rd.patched_fields@[a]).diff_start
                        + field_len(g@, rd.patched_fields@[a].field_start as int) <= (
                    #[trigger] rd.patched_fields@[b]).diff_start by {
                    assert(rd.patched_fields@[a] == rd0.patched_fields@[a]);
                    if b < pl {
                        assert(rd.patched_fields@[b] == rd0.patched_fields@[b]);
                    }
                }
                assert forall|h: int| #[trigger] touched(rd, h) <==> exists|j: int|
                    0 <= j < e && g@[j].field_start == h && block_changed(g@, before@, after@, j) by {
                    if h == f {
                        assert(rd.patched_fields@[pl].field_start == h);
                        assert(g@[i as int].field_start == h);
                    } else {
                        if touched(rd, h) {
                            let t = choose|t: int| 0 <= t < rd.patched_fields@.len() && rd.patched_fields@[t].field_start == h;
                            assert(t != pl);
                            assert(rd0.patched_fields@[t].field_start == h);
                            assert(touched(rd0, h));
                        }
                        if exists|j: int| 0 <= j < e && g@[j].field_start == h && block_changed(g@, before@, after@, j) {
                            let j = choose|j: int| 0 <= j < e && g@[j].field_start == h && block_changed(g@, before@, after@, j);
                            if j >= i {
                                lemma_field_range(g@, n as nat, f as int, j);
                            }
                            assert(touched(rd0, h));
                            let t = choose|t: int| 0 <= t < rd0.patched_fields@.len() && rd0.patched_fields@[t].field_start == h;
                            assert(rd.patched_fields@[t].field_start == h);
                        }
                    }
                }
                assert forall|t: int| 0 <= t < rd.patched_fields@.len() implies {
                    let pf = #[trigger] rd.patched_fields@[t];
                    &&& (pf.field_start as int) < glen
                    &&& g@[pf.field_start as int].field_start == pf.field_start
                    &&& pf.field_start + field_len(g@, pf.field_start as int) <= e
                    &&& pf.diff_start + field_len(g@, pf.field_start as int) <= rd.block_diffs@.len()
                    &&& pf.prev.diff.0 == NO_SLOT
                    &&& pf.next.diff.0 == NO_SLOT
                    &&& forall|x: int|
                        0 <= x < field_len(g@, pf.field_start as int) ==> {
                            let j = pf.field_start + x;
                            #[trigger] rd.block_diffs@[pf.diff_start + x] == (before@[g@[j].offset as int]
                                ^ after@[g@[j].offset as int]) & g@[j].mask
                        }
                } by {
                    if t == pl {
                        let pf = rd.patched_fields@[t];
                        assert(pf.field_start as int == f);
                        assert(pf.diff_start == rd0.block_diffs@.len());
                        assert forall|x: int| 0 <= x < field_len(g@, pf.field_start as int) implies {
                            let j = pf.field_start + x;
                            #[trigger] rd.block_diffs@[pf.diff_start + x] == (before@[g@[j].offset as int]
                                ^ after@[g@[j].offset as int]) & g@[j].mask
                        } by {
                            assert(rd.block_diffs@[rd0.block_diffs@.len() + x] == (before@[g@[f + x].offset as int]
                                ^ after@[g@[f + x].offset as int]) & g@[f + x].mask);
                        }
                    } else {
                        let pf = rd0.patched_fields@[t];
                        assert(rd.patched_fields@[t] == pf);
                        assert forall|x: int| 0 <= x < field_len(g@, pf.field_start as int) implies {
                            let j = pf.field_start + x;
                            #[trigger] rd.block_diffs@[pf.diff_start + x] == (before@[g@[j].offset as int]
                                ^ after@[g@[j].offset as int]) & g@[j].mask
                        } by {
                            assert(rd.block_diffs@[pf.diff_start + x] == rd0.block_diffs@[pf.diff_start + x]);
                        }
                    }
                }
            }
            i = e;
        }
    }
    rd
}

proof fn lemma_built_entry(g: Seq<FieldBlock>, n: nat, before: Seq<u32>, after: Seq<u32>, rd: RowDiff, j: int)
    requires
        wf_geometry(g, n),
        diff_built(g, before, after, rd),
        0 <= j < g.len(),
        touched(rd, g[j].field_start as int),
    ensures
        entry(g, rd, j) == (before[g[j].offset as int] ^ after[g[j].offset as int]) & g[j].mask,
{
    let f = g[j].field_start as int;
    let t = idx_of(rd, f);
    let pf = rd.patched_fields@[t];
    assert(pf.field_start == f);
    lemma_field_range(g, n, f, j);
    let x = j - f;
    assert(rd.block_diffs@[pf.diff_start + x] == (before[g[f + x].offset as int] ^ after[g[f
        + x].offset as int]) & g[f + x].mask);
}

proof fn lemma_built_unions(g: Seq<FieldBlock>, n: nat, before: Seq<u32>, after: Seq<u32>, rd: RowDiff, w: int, k: int)
    requires
        wf_geometry(g, n),
        diff_built(g, before, after, rd),
        0 <= k <= g.len(),
        0 <= w < before.len(),
        before.len() == after.len(),
        forall|j: int| 0 <= j < g.len() ==> (#[trigger] g[j].offset as nat) < before.len(),
    ensures
        union_where(g, w, k, |j: int| touched(rd, g[j].field_start as int), |j: int| g[j].mask)
            == changed_bits_upto(g, before, after, w, k),
        union_where(g, w, k, |j: int| touched(rd, g[j].field_start as int), |j: int| entry(g, rd, j) & g[j].mask)
            == (before[w] ^ after[w]) & changed_bits_upto(g, before, after, w, k),
    decreases k,
{
    let x = before[w] ^ after[w];
    if k == 0 {
        crate::bits::lemma_word(x);
    } else {
        lemma_built_unions(g, n, before, after, rd, w, k - 1);
        let j = k - 1;
        let c = changed_bits_upto(g, before, after, w, k - 1);
        let u = union_where(g, w, k - 1, |j: int| touched(rd, g[j].field_start as int), |j: int| entry(g, rd, j) & g[j].mask);
        if g[j].offset == w && touched(rd, g[j].field_start as int) {
            lemma_built_entry(g, n, before, after, rd, j);
            let m = g[j].mask;
            assert(u == x & c ==> u | ((x & m) & m) == x & (c | m)) by (bit_vector);
        }
    }
}

proof fn lemma_built_view(g: Seq<FieldBlock>, n: nat, before: Seq<u32>, after: Seq<u32>, rd: RowDiff, s: int)
    requires
        wf_geometry(g, n),
        diff_built(g, before, after, rd),
        before.len() == n,
        after.len() == n,
    ensures
        slot_view(g, rd, s, n) == new_patch(g, before, after, s as usize),
{
    let v = slot_view(g, rd, s, n);
    let p = new_patch(g, before, after, s as usize);
    assert forall|w: int| 0 <= w < n implies v.mask[w] == p.mask[w] && v.diff[w] == p.diff[w] by {
        lemma_built_unions(g, n, before, after, rd, w, g.len() as int);
    }
    assert(v.mask =~= p.mask);
    assert(v.diff =~= p.diff);
}

/// Two slots differ at most in their links.
spec fn same_fields(a: RowDiff, b: RowDiff) -> bool {
    &&& a.block_diffs@ == b.block_diffs@
    &&& a.patched_fields@.len() == b.patched_fields@.len()
    &&& forall|i: int|
        0 <= i < a.patched_fields@.len() ==> (#[trigger] a.patched_fields@[i]).field_start
            == b.patched_fields@[i].field_start && a.patched_fields@[i].diff_start
            == b.patched_fields@[i].diff_start
}

spec fn ascending(rd: RowDiff) -> bool {
    forall|a: int, b: int|
        0 <= a < b < rd.patched_fields@.len() ==> #[trigger] rd.patched_fields@[a].field_start
            < #[trigger] rd.patched_fields@[b].field_start
}

proof fn lemma_idx_unique(rd: RowDiff, f: int, i: int)
    requires
        ascending(rd),
        0 <= i < rd.patched_fields@.len(),
        rd.patched_fields@[i].field_start == f,
    ensures
        touched(rd, f),
        idx_of(rd, f) == i,
{
    let c = idx_of(rd, f);
    if c != i {
        if c < i {
            assert(rd.patched_fields@[c].field_start < rd.patched_fields@[i].field_start);
        } else {
            assert(rd.patched_fields@[i].field_start < rd.patched_fields@[c].field_start);
        }
    }
}

proof fn lemma_same_fields(g: Seq<FieldBlock>, a: RowDiff, b: RowDiff, s: int, n: nat)
    requires
        same_fields(a, b),
        ascending(a),
    ensures
        ascending(b),
        forall|f: int| #[trigger] touched(b, f) == touched(a, f),
        forall|f: int| touched(a, f) ==> #[trigger] idx_of(b, f) == idx_of(a, f),
        forall|j: int| 0 <= j < g.len() && touched(a, g[j].field_start as int) ==> #[trigger] entry(g, b, j) == entry(g, a, j),
        slot_view(g, b, s, n) == slot_view(g, a, s, n),
{
    assert forall|x: int, y: int| 0 <= x < y < b.patched_fields@.len() implies #[trigger] b.patched_fields@[x].field_start
        < #[trigger] b.patched_fields@[y].field_start by {
        assert(a.patched_fields@[x].field_start < a.patched_fields@[y].field_start);
    }
    assert forall|f: int| #[trigger] touched(b, f) == touched(a, f) by {
        if touched(a, f) {
            let i = idx_of(a, f);
            assert(b.patched_fields@[i].field_start == f);
        }
        if touched(b, f) {
            let i = idx_of(b, f);
            assert(a.patched_fields@[i].field_start == f);
        }
    }
    assert forall|f: int| touched(a, f) implies #[trigger] idx_of(b, f) == idx_of(a, f) by {
        let i = idx_of(a, f);
        assert(b.patched_fields@[i].field_start == f);
        lemma_idx_unique(b, f, i);
    }
    let va = slot_view(g, a, s, n);
    let vb = slot_view(g, b, s, n);
    assert forall|w: int| 0 <= w < n implies va.diff[w] == vb.diff[w] && va.mask[w] == vb.mask[w] by {
        lemma_union_congruent(g, w, g.len() as int, a, b);
    }
    assert(va.mask =~= vb.mask);
    assert(va.diff =~= vb.diff);
}

proof fn lemma_union_congruent(g: Seq<FieldBlock>, w: int, k: int, a: RowDiff, b: RowDiff)
    requires
        forall|f: int| #[trigger] touched(b, f) == touched(a, f),
        forall|j: int| 0 <= j < g.len() && touched(a, g[j].field_start as int) ==> #[trigger] entry(g, b, j) == entry(g, a, j),
        0 <= k <= g.len(),
    ensures
        union_where(g, w, k, |j: int| touched(a, g[j].field_start as int), |j: int| entry(g, a, j) & g[j].mask)
            == union_where(g, w, k, |j: int| touched(b, g[j].field_start as int), |j: int| entry(g, b, j) & g[j].mask),
        union_where(g, w, k, |j: int| touched(a, g[j].field_start as int), |j: int| g[j].mask)
            == union_where(g, w, k, |j: int| touched(b, g[j].field_start as int), |j: int| g[j].mask),
    decreases k,
{
    if k > 0 {
        lemma_union_congruent(g, w, k - 1, a, b);
    }
}

/// A live slot is well formed: its fields ascend, each names a field of the geometry,
/// and each stored word lies in its block's mask.
spec fn slot_ok(g: Seq<FieldBlock>, rd: RowDiff) -> bool {
    &&& ascending(rd)
    &&& ranges_apart(g, rd)
    &&& rd.patched_fields@.len() <= g.len()
    &&& rd.patched_fields@.len() == 0 ==> rd.block_diffs@.len() == 0
    &&& forall|i: int|
        0 <= i < rd.patched_fields@.len() ==> {
            let pf = #[trigger] rd.patched_fields@[i];
            &&& (pf.field_start as int) < g.len()
            &&& g[pf.field_start as int].field_start == pf.field_start
            &&& pf.diff_start + field_len(g, pf.field_start as int) <= rd.block_diffs@.len()
        }
    &&& forall|j: int|
        0 <= j < g.len() && touched(rd, g[j].field_start as int) ==> #[trigger] entry(g, rd, j)
            & !g[j].mask == 0
}


proof fn lemma_slot_ok_transfer(g: Seq<FieldBlock>, a: RowDiff, b: RowDiff)
    requires
        slot_ok(g, a),
        same_fields(b, a),
    ensures
        slot_ok(g, b),
{
    lemma_same_fields(g, a, b, 0, 0);
    assert(same_fields(a, b)) by {
        assert forall|i: int| 0 <= i < a.patched_fields@.len() implies (#[trigger] a.patched_fields@[i]).field_start
            == b.patched_fields@[i].field_start && a.patched_fields@[i].diff_start
            == b.patched_fields@[i].diff_start by {
            assert(b.patched_fields@[i].field_start == a.patched_fields@[i].field_start);
        }
    }
    lemma_same_fields(g, a, b, 0, 0);
    assert forall|i: int| 0 <= i < b.patched_fields@.len() implies {
        let pf = #[trigger] b.patched_fields@[i];
        &&& (pf.field_start as int) < g.len()
        &&& g[pf.field_start as int].field_start == pf.field_start
        &&& pf.diff_start + field_len(g, pf.field_start as int) <= b.block_diffs@.len()
    } by {
        let pa = a.patched_fields@[i];
        assert((pa.field_start as int) < g.len());
    }
    assert forall|x: int, y: int|
        0 <= x < y < b.patched_fields@.len() implies (#[trigger] b.patched_fields@[x]).diff_start
            + field_len(g, b.patched_fields@[x].field_start as int) <= (
        #[trigger] b.patched_fields@[y]).diff_start by {
        assert(ranges_apart(g, a));
        assert(a.patched_fields@[x].diff_start + field_len(g, a.patched_fields@[x].field_start as int)
            <= a.patched_fields@[y].diff_start);
    }
}

/// Seen through the mask of block `j0` of word `w`, a slot's view is the block's mask and
/// stored word when the slot touches the block's field, and nothing otherwise; both lie in
/// the word's field bits.
proof fn lemma_view_at_block(g: Seq<FieldBlock>, n: nat, rd: RowDiff, s: int, w: int, j0: int)
    requires
        wf_geometry(g, n),
        slot_ok(g, rd),
        0 <= j0 < g.len(),
        g[j0].offset == w,
        0 <= w < n,
    ensures
        slot_view(g, rd, s, n).mask[w] & g[j0].mask == if touched(rd, g[j0].field_start as int) {
            g[j0].mask
        } else {
            0
        },
        slot_view(g, rd, s, n).diff[w] & g[j0].mask == if touched(rd, g[j0].field_start as int) {
            entry(g, rd, j0)
        } else {
            0
        },
        slot_view(g, rd, s, n).mask[w] & !field_bits(g, w) == 0,
        slot_view(g, rd, s, n).diff[w] & !field_bits(g, w) == 0,
{
    let sel = |j: int| touched(rd, g[j].field_start as int);
    let vm = |j: int| g[j].mask;
    let vd = |j: int| entry(g, rd, j) & g[j].mask;
    assert forall|j: int| 0 <= j < g.len() implies #[trigger] vm(j) & !g[j].mask == 0 by {
        let m = g[j].mask;
        crate::bits::lemma_word(m);
    }
    assert forall|j: int| 0 <= j < g.len() implies #[trigger] vd(j) & !g[j].mask == 0 by {
        let m = g[j].mask;
        let e = entry(g, rd, j);
        crate::bits::lemma_pair(e, m);
    }
    lemma_union_at_block(g, n, w, g.len() as int, sel, vm, j0);
    lemma_union_at_block(g, n, w, g.len() as int, sel, vd, j0);
    lemma_union_within(g, w, g.len() as int, sel, vm);
    lemma_union_within(g, w, g.len() as int, sel, vd);
    if touched(rd, g[j0].field_start as int) {
        let e = entry(g, rd, j0);
        let m = g[j0].mask;
        assert(e & !m == 0);
        crate::bits::lemma_pair(e, m);
    }
}

/// Seen through a mask `m0` that each patch between `i` and `k` covers wholly or not at all,
/// the bits those patches hide are `m0` when one of them covers it, and nothing otherwise.
proof fn lemma_hidden_at_block(s: Seq<PatchView>, i: int, k: int, w: int, m0: u32, tp: spec_fn(int) -> bool)
    requires
        i < k,
        forall|l: int| i < l < k ==> #[trigger] s[l].mask[w] & m0 == if tp(l) {
            m0
        } else {
            0
        },
    ensures
        hidden_between(s, i, k, w) & m0 == if any_between(tp, i, k) {
            m0
        } else {
            0
        },
    decreases k - i,
{
    if k <= i + 1 {
        crate::bits::lemma_word(m0);
    } else {
        lemma_hidden_at_block(s, i, k - 1, w, m0, tp);
        let h = hidden_between(s, i, k - 1, w);
        let m = s[k - 1].mask[w];
        assert((h | m) & m0 == (h & m0) | (m & m0)) by (bit_vector);
        crate::bits::lemma_word(m0);
        crate::bits::lemma_word(0);
        if tp(k - 1) {
            assert(any_between(tp, i, k));
        }
        if any_between(tp, i, k) && !tp(k - 1) {
            let x = choose|x: int| i < x < k && #[trigger] tp(x);
            assert(any_between(tp, i, k - 1));
        }
        if any_between(tp, i, k - 1) {
            let x = choose|x: int| i < x < k - 1 && #[trigger] tp(x);
            assert(any_between(tp, i, k));
        }
    }
}

/// Adding block `j1` to a union's selection XORs its value into the union of its word.
proof fn lemma_union_add(
    g: Seq<FieldBlock>,
    n: nat,
    w: int,
    k: int,
    sel1: spec_fn(int) -> bool,
    sel2: spec_fn(int) -> bool,
    val: spec_fn(int) -> u32,
    j1: int,
)
    requires
        wf_geometry(g, n),
        0 <= k <= g.len(),
        0 <= j1 < g.len(),
        !sel1(j1),
        forall|j: int| 0 <= j < g.len() ==> #[trigger] sel2(j) == (sel1(j) || j == j1),
        forall|j: int| 0 <= j < g.len() ==> #[trigger] val(j) & !g[j].mask == 0,
    ensures
        union_where(g, w, k, sel2, val) == union_where(g, w, k, sel1, val) ^ if j1 < k && g[j1].offset == w {
            val(j1)
        } else {
            0
        },
    decreases k,
{
    let u1 = union_where(g, w, k, sel1, val);
    if k == 0 {
        crate::bits::lemma_word(0);
    } else {
        lemma_union_add(g, n, w, k - 1, sel1, sel2, val, j1);
        let a = union_where(g, w, k - 1, sel1, val);
        let j = k - 1;
        if g[j1].offset == w {
            lemma_union_at_block(g, n, w, k - 1, sel1, val, j1);
            let d = val(j1);
            let m1 = g[j1].mask;
            assert(d & !m1 == 0);
            if j == j1 {
                assert(a & m1 == 0 && d & !m1 == 0 ==> a | d == a ^ d) by (bit_vector);
                crate::bits::lemma_word(a);
            } else if j1 < j {
                if g[j].offset == w && sel1(j) {
                    let v = val(j);
                    let m = g[j].mask;
                    assert(v & !m == 0);
                    lemma_masks_disjoint(g, n, j, j1);
                    assert(v & !m == 0 && m & m1 == 0 && d & !m1 == 0 && a & m1 == 0 ==> (a ^ d) | v == (a | v) ^ d)
                        by (bit_vector);
                }
            } else {
                crate::bits::lemma_word(a);
                if g[j].offset == w && sel1(j) {
                    let v = val(j);
                    crate::bits::lemma_pair(a, v);
                }
            }
        } else {
            crate::bits::lemma_word(a);
            let v = val(j);
            crate::bits::lemma_pair(a, v);
        }
    }
}

/// Block `j` of the patch `rdp` being restored has been handed on: its field comes before
/// field index `t` of the patch, or is field `t` and the block comes before block `x`.
spec fn done_blk(g: Seq<FieldBlock>, rdp: RowDiff, t: int, x: int, j: int) -> bool {
    &&& touched(rdp, g[j].field_start as int)
    &&& (idx_of(rdp, g[j].field_start as int) < t || (idx_of(rdp, g[j].field_start as int) == t && j < x))
}

proof fn lemma_union_sel_eq(
    g: Seq<FieldBlock>,
    w: int,
    k: int,
    sel1: spec_fn(int) -> bool,
    sel2: spec_fn(int) -> bool,
    val: spec_fn(int) -> u32,
)
    requires
        0 <= k <= g.len(),
        forall|j: int| 0 <= j < g.len() ==> #[trigger] sel2(j) == sel1(j),
    ensures
        union_where(g, w, k, sel2, val) == union_where(g, w, k, sel1, val),
    decreases k,
{
    if k > 0 {
        lemma_union_sel_eq(g, w, k - 1, sel1, sel2, val);
    }
}

/// Position `x` of the shorter sequence, once position `p` is deleted, in the longer one.
spec fn widen(x: int, p: int) -> int {
    if x < p {
        x
    } else {
        x + 1
    }
}

/// Position `x` of the longer sequence in the shorter one, once position `p` is deleted.
spec fn narrow(x: int, p: int) -> int {
    if x < 0 {
        -1
    } else if x < p {
        x
    } else {
        x - 1
    }
}

/// Deleting position `p`, where `t` does not hold, shifts the searches' results.
proof fn lemma_shift(t: spec_fn(int) -> bool, t2: spec_fn(int) -> bool, len: int, p: int, q2: int)
    requires
        0 <= p < len,
        !t(p),
        forall|x: int| 0 <= x < len - 1 ==> #[trigger] t2(x) == t(widen(x, p)),
        0 <= q2 < len - 1,
    ensures
        first_from(t2, len - 1, q2 + 1) == narrow(first_from(t, len, widen(q2, p) + 1), p),
        last_upto(t2, q2 - 1) == narrow(last_upto(t, widen(q2, p) - 1), p),
{
    let q = widen(q2, p);
    lemma_first_range(t, len, q + 1);
    let r = first_from(t, len, q + 1);
    if r == -1 {
        assert forall|x: int| q2 + 1 <= x < len - 1 implies !#[trigger] t2(x) by {
            assert(!t(widen(x, p)));
        }
        lemma_first_none(t2, len - 1, q2 + 1);
    } else {
        assert(r != p);
        let r2 = narrow(r, p);
        assert(t2(r2));
        assert forall|x: int| q2 + 1 <= x < r2 implies !#[trigger] t2(x) by {
            assert(!t(widen(x, p)));
        }
        lemma_first_is(t2, len - 1, q2 + 1, r2);
    }
    lemma_last_range(t, q - 1);
    let l = last_upto(t, q - 1);
    if l == -1 {
        assert forall|x: int| 0 <= x <= q2 - 1 implies !#[trigger] t2(x) by {
            assert(!t(widen(x, p)));
        }
        lemma_last_none(t2, q2 - 1);
    } else {
        assert(l != p);
        let l2 = narrow(l, p);
        assert(t2(l2));
        assert forall|x: int| l2 < x <= q2 - 1 implies !#[trigger] t2(x) by {
            assert(!t(widen(x, p)));
        }
        lemma_last_is(t2, q2 - 1, l2);
    }
}

proof fn lemma_shift_last(t: spec_fn(int) -> bool, t2: spec_fn(int) -> bool, len: int, p: int)
    requires
        0 <= p < len,
        !t(p),
        forall|x: int| 0 <= x < len - 1 ==> #[trigger] t2(x) == t(widen(x, p)),
    ensures
        last_upto(t2, len - 2) == narrow(last_upto(t, len - 1), p),
{
    lemma_last_range(t, len - 1);
    let l = last_upto(t, len - 1);
    if l == -1 {
        assert forall|x: int| 0 <= x <= len - 2 implies !#[trigger] t2(x) by {
            assert(!t(widen(x, p)));
        }
        lemma_last_none(t2, len - 2);
    } else {
        assert(l != p);
        let l2 = narrow(l, p);
        assert(t2(l2));
        assert forall|x: int| l2 < x <= len - 2 implies !#[trigger] t2(x) by {
            assert(!t(widen(x, p)));
        }
        lemma_last_is(t2, len - 2, l2);
    }
}

proof fn lemma_absorb_bits(a: u32, d: u32, mm: u32, hh: u32, m0: u32)
    ensures
        (a ^ (d & mm & !hh)) & m0 == (a & m0) ^ ((d & m0) & (mm & m0) & !(hh & m0)),
{
    assert((a ^ (d & mm & !hh)) & m0 == (a & m0) ^ ((d & m0) & (mm & m0) & !(hh & m0))) by (bit_vector);
}

proof fn lemma_view_within(g: Seq<FieldBlock>, rd: RowDiff, s: int, n: nat, w: int)
    requires
        0 <= w < n,
    ensures
        slot_view(g, rd, s, n).mask[w] & !field_bits(g, w) == 0,
        slot_view(g, rd, s, n).diff[w] & !field_bits(g, w) == 0,
{
    let sel = |j: int| touched(rd, g[j].field_start as int);
    let vm = |j: int| g[j].mask;
    let vd = |j: int| entry(g, rd, j) & g[j].mask;
    assert forall|j: int| 0 <= j < g.len() implies #[trigger] vm(j) & !g[j].mask == 0 by {
        let m = g[j].mask;
        crate::bits::lemma_word(m);
    }
    assert forall|j: int| 0 <= j < g.len() implies #[trigger] vd(j) & !g[j].mask == 0 by {
        let m = g[j].mask;
        let e = entry(g, rd, j);
        crate::bits::lemma_pair(e, m);
    }
    lemma_union_within(g, w, g.len() as int, sel, vm);
    lemma_union_within(g, w, g.len() as int, sel, vd);
}

/// The word arithmetic behind a restore, for one block of one slot.
proof fn lemma_block_math(
    g: Seq<FieldBlock>,
    n: nat,
    sv: Seq<PatchView>,
    p: int,
    q: int,
    w: int,
    j0: int,
    rq: RowDiff,
    oq: RowDiff,
    rp: RowDiff,
    sq: int,
    sp: int,
    tq: spec_fn(int) -> bool,
    cond: bool,
)
    requires
        wf_geometry(g, n),
        0 <= p < sv.len(),
        0 <= q < sv.len(),
        q != p,
        slot_ok(g, rq),
        slot_ok(g, oq),
        slot_ok(g, rp),
        0 <= w < n,
        0 <= j0 < g.len(),
        g[j0].offset == w,
        sv[q] == slot_view(g, oq, sq, n),
        sv[p] == slot_view(g, rp, sp, n),
        forall|f: int| #[trigger] touched(rq, f) == touched(oq, f),
        touched(oq, g[j0].field_start as int) ==> entry(g, rq, j0) == entry(g, oq, j0) ^ if cond {
            entry(g, rp, j0)
        } else {
            0
        },
        q < p ==> !cond,
        cond ==> touched(rp, g[j0].field_start as int),
        q > p ==> forall|l: int| p < l < q ==> #[trigger] sv[l].mask[w] & g[j0].mask == if tq(l) {
            g[j0].mask
        } else {
            0
        },
        q > p && touched(oq, g[j0].field_start as int) ==> cond == (touched(rp, g[j0].field_start as int)
            && !any_between(tq, p, q)),
    ensures
        ({
            let v = slot_view(g, rq, sq, n);
            let target = if q < p {
                sv[q]
            } else {
                absorbed(sv, p, q)
            };
            let m0 = g[j0].mask;
            &&& v.mask[w] & m0 == target.mask[w] & m0
            &&& v.diff[w] & m0 == target.diff[w] & m0
        }),
{
    let f0 = g[j0].field_start as int;
    let m0 = g[j0].mask;
    lemma_view_at_block(g, n, rq, sq, w, j0);
    lemma_view_at_block(g, n, oq, sq, w, j0);
    lemma_view_at_block(g, n, rp, sp, w, j0);
    let eq = entry(g, oq, j0);
    let ep = entry(g, rp, j0);
    let tq0 = touched(oq, f0);
    let tp0 = touched(rp, f0);
    if tp0 {
        assert(ep & !m0 == 0);
    }
    crate::bits::lemma_word(eq);
    crate::bits::lemma_word(0);
    crate::bits::lemma_pair(ep, m0);
    if q > p {
        lemma_hidden_at_block(sv, p, q, w, m0, tq);
        let hh = hidden_between(sv, p, q, w);
        let a = sv[q].diff[w];
        let d = sv[p].diff[w];
        let mm = sv[q].mask[w];
        lemma_absorb_bits(a, d, mm, hh, m0);
        let any = any_between(tq, p, q);
        let x = (d & m0) & (mm & m0) & !(hh & m0);
        assert(absorbed(sv, p, q).diff[w] & m0 == (a & m0) ^ x);
        if !tq0 {
            crate::bits::lemma_pair(d & m0, hh & m0);
            assert(x == 0);
        } else if !tp0 {
            crate::bits::lemma_pair(eq, m0);
            assert(x == 0 & m0 & !(hh & m0));
            if any {
                assert(x == 0 & m0 & !m0);
            } else {
                assert(x == 0 & m0 & !0u32);
            }
        } else if any {
            assert(x == ep & m0 & !m0);
        } else {
            assert(x == ep & m0 & !0u32);
        }
    }
}

proof fn lemma_union_none(g: Seq<FieldBlock>, w: int, k: int, sel: spec_fn(int) -> bool, val: spec_fn(int) -> u32)
    requires
        0 <= k <= g.len(),
        forall|j: int| 0 <= j < g.len() ==> !#[trigger] sel(j),
    ensures
        union_where(g, w, k, sel, val) == 0,
    decreases k,
{
    if k > 0 {
        lemma_union_none(g, w, k - 1, sel, val);
    }
}

proof fn lemma_diff_in_mask(g: Seq<FieldBlock>, rd: RowDiff, w: int, k: int)
    requires
        0 <= k <= g.len(),
    ensures
        union_where(g, w, k, |j: int| touched(rd, g[j].field_start as int), |j: int| entry(g, rd, j) & g[j].mask)
            & !union_where(g, w, k, |j: int| touched(rd, g[j].field_start as int), |j: int| g[j].mask) == 0,
    decreases k,
{
    if k == 0 {
        crate::bits::lemma_word(0);
    } else {
        lemma_diff_in_mask(g, rd, w, k - 1);
        let u1 = union_where(g, w, k - 1, |j: int| touched(rd, g[j].field_start as int), |j: int| entry(g, rd, j) & g[j].mask);
        let u2 = union_where(g, w, k - 1, |j: int| touched(rd, g[j].field_start as int), |j: int| g[j].mask);
        let m = g[k - 1].mask;
        let e = entry(g, rd, k - 1);
        crate::bits::lemma_pair(e, m);
        crate::bits::lemma_union_in(u1, u2, e & m, m);
    }
}

/// Row patcher that links each patched field to the same field in the patches above and
/// below it, so that restoring costs time in the patch's own size, not the stack's depth.
pub struct LinkedListPatcher {
    diffs: Vec<RowDiff>,
    field_blocks: Vec<FieldBlock>,
    patched_field_heads: Vec<PatchedFieldRef>,
    free_list_head: RowDiffId,
    n_words: usize,
    /// The slots of the live patches, oldest first.
    order: Ghost<Seq<int>>,
    /// The free slots, in free-list order.
    free: Ghost<Seq<int>>,
}

impl LinkedListPatcher {
    spec fn rd_at(&self, p: int) -> RowDiff {
        self.diffs@[self.order@[p]]
    }

    /// Patch position `p` touches field `f`.
    spec fn touches(&self, p: int, f: int) -> bool {
        touched(self.rd_at(p), f)
    }

    spec fn ref_of(&self, q: int, f: int) -> PatchedFieldRef {
        PatchedFieldRef {
            diff: RowDiffId(if q < 0 {
                NO_SLOT
            } else {
                self.order@[q] as u16
            }),
            index: if q < 0 {
                0
            } else {
                idx_of(self.rd_at(q), f) as u16
            },
        }
    }

    /// Field `f` of position `p` is linked: it is touched there, and it is neither one of
    /// the fields of the top patch from index `tk` on (not linked yet) nor one of the fields
    /// of position `rp` before index `rk` (unlinked already).
    spec fn lk(&self, tk: int, rp: int, rk: int, p: int, f: int) -> bool {
        &&& self.touches(p, f)
        &&& !(p == self.order@.len() - 1 && idx_of(self.rd_at(p), f) >= tk)
        &&& !(p == rp && idx_of(self.rd_at(p), f) < rk)
    }

    spec fn lt(&self, tk: int, rp: int, rk: int, f: int) -> spec_fn(int) -> bool {
        |q: int| self.lk(tk, rp, rk, q, f)
    }

    /// The links agree, field by field, with the positions where the field is linked.
    spec fn chains_ok(&self, tk: int, rp: int, rk: int) -> bool {
        let len = self.order@.len() as int;
        &&& forall|p: int, i: int|
            0 <= p < len && 0 <= i < self.rd_at(p).patched_fields@.len() && self.lk(
                tk,
                rp,
                rk,
                p,
                self.rd_at(p).patched_fields@[i].field_start as int,
            ) ==> {
                let pf = #[trigger] self.rd_at(p).patched_fields@[i];
                let f = pf.field_start as int;
                &&& same_ref(pf.prev, self.ref_of(first_from(self.lt(tk, rp, rk, f), len, p + 1), f))
                &&& same_ref(pf.next, self.ref_of(last_upto(self.lt(tk, rp, rk, f), p - 1), f))
            }
        &&& forall|f: int|
            0 <= f < self.field_blocks@.len() ==> same_ref(
                #[trigger] self.patched_field_heads@[f],
                self.ref_of(last_upto(self.lt(tk, rp, rk, f), len - 1), f),
            )
    }

    /// The patcher's internal invariant.
    pub closed spec fn wf(&self) -> bool {
        &&& self.wf_core()
        &&& self.chains_ok(all_fields(), -1, 0)
    }

    /// Everything but the links.
    spec fn wf_core(&self) -> bool {
        let g = self.field_blocks@;
        let order = self.order@;
        let free = self.free@;
        &&& wf_geometry(g, self.n_words as nat)
        &&& self.patched_field_heads@.len() == g.len()
        &&& self.diffs@.len() <= NO_SLOT
        &&& self.diffs@.len() == order.len() + free.len()
        &&& forall|a: int, b: int| 0 <= a < b < order.len() ==> #[trigger] order[a] != #[trigger] order[b]
        &&& forall|a: int, b: int| 0 <= a < b < free.len() ==> #[trigger] free[a] != #[trigger] free[b]
        &&& forall|a: int, b: int|
            0 <= a < order.len() && 0 <= b < free.len() ==> #[trigger] order[a] != #[trigger] free[b]
        &&& forall|a: int| 0 <= a < order.len() ==> 0 <= #[trigger] order[a] < self.diffs@.len()
        &&& forall|a: int| 0 <= a < free.len() ==> 0 <= #[trigger] free[a] < self.diffs@.len()
        &&& self.free_list_head.0 == if free.len() > 0 {
            free[0] as u16
        } else {
            NO_SLOT
        }
        &&& forall|a: int|
            0 <= a < free.len() ==> (#[trigger] self.diffs@[free[a]]).next_free_slot.0 == if a + 1
                < free.len() {
                free[a + 1] as u16
            } else {
                NO_SLOT
            }
        &&& forall|p: int| 0 <= p < order.len() ==> slot_ok(self.field_blocks@, #[trigger] self.rd_at(p))
    }
}

impl LinkedListPatcher {
    /// The geometry the patcher was built with.
    pub closed spec fn geometry(&self) -> Seq<FieldBlock> {
        self.field_blocks@
    }

    /// The number of 32-bit words in a row.
    pub closed spec fn n_words(&self) -> nat {
        self.n_words as nat
    }

    /// The number of words stored in slot `id`.
    pub closed spec fn stored_words(&self, id: usize) -> nat {
        self.diffs@[id as int].block_diffs@.len()
    }

    /// The number of words stored for the live patch with id `id`: none exactly when the
    /// patch owns no bit.
    pub fn block_count(&self, id: usize) -> (r: usize)
        requires
            self.wf(),
            has_id(self@, id),
        ensures
            r == self.stored_words(id),
            r == 0 <==> forall|w: int| 0 <= w < self.n_words() ==> self@[index_of_id(self@, id)].mask[w] == 0,
    {
        proof {
            let k = index_of_id(self@, id);
            assert(self.order@[k] < self.diffs@.len());
            assert(self@[k].id == id);
            assert(self.order@[k] == id);
            let g = self.field_blocks@;
            let n = self.n_words as nat;
            let rd = self.rd_at(k);
            assert(slot_ok(g, rd));
            let v = slot_view(g, rd, self.order@[k], n);
            assert(self@[k] == v);
            assert(rd == self.diffs@[id as int]);
            if rd.patched_fields@.len() == 0 {
                assert(rd.block_diffs@.len() == 0);
                let sel = |j: int| touched(rd, g[j].field_start as int);
                assert forall|j: int| 0 <= j < g.len() implies !#[trigger] sel(j) by {}
                assert forall|w: int| 0 <= w < n implies v.mask[w] == 0 by {
                    lemma_union_none(g, w, g.len() as int, sel, |j: int| g[j].mask);
                }
            } else {
                let pf = rd.patched_fields@[0];
                let f = pf.field_start as int;
                lemma_field_range(g, n, f, f);
                assert(pf.diff_start + field_len(g, f) <= rd.block_diffs@.len());
                assert(rd.block_diffs@.len() > 0);
                assert(touched(rd, f));
                let w = g[f].offset as int;
                lemma_view_at_block(g, n, rd, self.order@[k], w, f);
                assert(g[f].mask != 0);
                crate::bits::lemma_word(g[f].mask);
                assert(v.mask[w] != 0);
            }
        }
        self.diffs[id].block_diffs.len()
    }

    /// Creates a patcher for rows of `row_size` bytes laid out by `field_blocks`.
    pub fn new(field_blocks: &[FieldBlock], row_size: usize) -> (r: Self)
        requires
            wf_geometry(field_blocks@, (row_size / 4) as nat),
        ensures
            r.wf(),
            stack_wf(r@, r.geometry(), r.n_words()),
            within_slots(r@),
            r@ == Seq::<PatchView>::empty(),
            r.geometry() == field_blocks@,
            r.n_words() == row_size / 4,
    {
        let null = PatchedFieldRef::new(RowDiffId::none(), 0);
        let mut blocks: Vec<FieldBlock> = Vec::new();
        let mut heads: Vec<PatchedFieldRef> = Vec::new();
        let mut i: usize = 0;
        while i < field_blocks.len()
            invariant
                i <= field_blocks@.len(),
                blocks@ == field_blocks@.take(i as int),
                heads@.len() == i,
                null.diff.0 == NO_SLOT,
                forall|k: int| 0 <= k < i ==> (#[trigger] heads@[k]).diff.0 == NO_SLOT,
            decreases field_blocks@.len() - i,
        {
            blocks.push(field_blocks[i]);
            heads.push(null);
            i += 1;
            proof {
                assert(blocks@ =~= field_blocks@.take(i as int));
            }
        }
        proof {
            assert(blocks@ =~= field_blocks@);
        }
        let r = LinkedListPatcher {
            diffs: Vec::new(),
            field_blocks: blocks,
            patched_field_heads: heads,
            free_list_head: RowDiffId::none(),
            n_words: row_size / 4,
            order: Ghost(Seq::empty()),
            free: Ghost(Seq::empty()),
        };
        proof {
            assert(r@ =~= Seq::<PatchView>::empty());
            assert(stack_wf(r@, r.geometry(), r.n_words()));
            assert forall|f: int| 0 <= f < r.field_blocks@.len() implies same_ref(
                #[trigger] r.patched_field_heads@[f],
                r.ref_of(last_upto(r.lt(all_fields(), -1, 0, f), -1), f),
            ) by {}
        }
        r
    }
}

impl LinkedListPatcher {
    /// Links field `k` of the top patch, in slot `slot`, above the patch that was the
    /// field's topmost.
    fn link_one(&mut self, slot: usize, k: usize)
        requires
            old(self).wf_core(),
            old(self).order@.len() >= 1,
            slot == old(self).order@[old(self).order@.len() - 1],
            k < old(self).diffs@[slot as int].patched_fields@.len(),
            old(self).chains_ok(k as int, -1, 0),
            forall|i: int|
                k <= i < old(self).diffs@[slot as int].patched_fields@.len() ==> (#[trigger] old(self).diffs@[slot as int].patched_fields@[i]).prev.diff.0 == NO_SLOT,
        ensures
            final(self).wf_core(),
            final(self).chains_ok(k + 1, -1, 0),
            forall|i: int|
                k + 1 <= i < final(self).diffs@[slot as int].patched_fields@.len() ==> (#[trigger] final(self).diffs@[slot as int].patched_fields@[i]).prev.diff.0 == NO_SLOT,
            final(self).order == old(self).order,
            final(self).free == old(self).free,
            final(self).field_blocks == old(self).field_blocks,
            final(self).n_words == old(self).n_words,
            final(self).diffs@.len() == old(self).diffs@.len(),
            forall|x: int| 0 <= x < old(self).diffs@.len() ==> same_fields(#[trigger] final(self).diffs@[x], old(self).diffs@[x]),
            forall|x: int| 0 <= x < old(self).diffs@.len() ==> #[trigger] final(self).diffs@[x].next_free_slot == old(self).diffs@[x].next_free_slot,
    {
        let ghost o = *self;
        let ghost len = self.order@.len() as int;
        let ghost top = len - 1;
        let f = self.diffs[slot].patched_fields[k].field_start as usize;
        let ghost tk = o.lt(k as int, -1, 0, f as int);
        proof {
            assert(slot_ok(o.field_blocks@, o.rd_at(top)));
            lemma_idx_unique(o.rd_at(top), f as int, k as int);
            assert(!tk(top));
        }
        let head = self.patched_field_heads[f];
        let ghost l = last_upto(tk, len - 1);
        proof {
            lemma_last_range(tk, len - 1);
            assert(slot_ok(o.field_blocks@, o.rd_at(top)));
            assert((f as int) < o.field_blocks@.len());
            assert(same_ref(head, o.ref_of(l, f as int)));
            if l != -1 {
                assert(o.order@[l] < o.diffs@.len());
                assert(o.order@[l] != o.order@[top]);
                assert(slot_ok(o.field_blocks@, o.rd_at(l)));
                assert(o.touches(l, f as int));
                assert(head == o.ref_of(l, f as int));
            } else {
                assert(head.diff.0 == NO_SLOT);
            }
        }
        let me = PatchedFieldRef::new(RowDiffId(slot as u16), k as u16);
        self.diffs[slot].patched_fields[k].next = head;
        if !head.is_null() {
            self.diffs[head.diff.0 as usize].patched_fields[head.index as usize].prev = me;
        }
        self.patched_field_heads[f] = me;
        proof {
            self.lemma_link_one(o, slot as int, k as int, f as int);
        }
    }

    proof fn lemma_link_one(&self, o: Self, slot: int, k: int, f: int)
        requires
            o.wf_core(),
            o.order@.len() >= 1,
            slot == o.order@[o.order@.len() - 1],
            0 <= k < o.diffs@[slot].patched_fields@.len(),
            o.chains_ok(k, -1, 0),
            forall|i: int|
                k <= i < o.diffs@[slot].patched_fields@.len() ==> (#[trigger] o.diffs@[slot].patched_fields@[i]).prev.diff.0
                    == NO_SLOT,
            f == o.diffs@[slot].patched_fields@[k].field_start,
            self.order == o.order,
            self.free == o.free,
            self.field_blocks == o.field_blocks,
            self.n_words == o.n_words,
            self.free_list_head == o.free_list_head,
            self.diffs@.len() == o.diffs@.len(),
            self.patched_field_heads@ == o.patched_field_heads@.update(
                f,
                PatchedFieldRef { diff: RowDiffId(slot as u16), index: k as u16 },
            ),
            ({
                let len = o.order@.len() as int;
                let l = last_upto(o.lt(k, -1, 0, f), len - 1);
                let top_pfs = o.diffs@[slot].patched_fields@.update(
                    k,
                    PatchedField { next: o.patched_field_heads@[f], ..o.diffs@[slot].patched_fields@[k] },
                );
                &&& self.diffs@[slot].patched_fields@ == top_pfs
                &&& self.diffs@[slot].block_diffs@ == o.diffs@[slot].block_diffs@
                &&& self.diffs@[slot].next_free_slot == o.diffs@[slot].next_free_slot
                &&& forall|x: int|
                    0 <= x < o.diffs@.len() && x != slot && (l == -1 || x != o.order@[l])
                        ==> #[trigger] self.diffs@[x] == o.diffs@[x]
                &&& l != -1 ==> {
                    let ls = o.order@[l];
                    let li = idx_of(o.rd_at(l), f);
                    &&& self.diffs@[ls].block_diffs@ == o.diffs@[ls].block_diffs@
                    &&& self.diffs@[ls].next_free_slot == o.diffs@[ls].next_free_slot
                    &&& self.diffs@[ls].patched_fields@ == o.diffs@[ls].patched_fields@.update(
                        li,
                        PatchedField {
                            prev: PatchedFieldRef { diff: RowDiffId(slot as u16), index: k as u16 },
                            ..o.diffs@[ls].patched_fields@[li]
                        },
                    )
                }
            }),
        ensures
            self.wf_core(),
            self.chains_ok(k + 1, -1, 0),
            forall|i: int|
                k + 1 <= i < self.diffs@[slot].patched_fields@.len() ==> (#[trigger] self.diffs@[slot].patched_fields@[i]).prev.diff.0
                    == NO_SLOT,
            forall|x: int| 0 <= x < o.diffs@.len() ==> same_fields(#[trigger] self.diffs@[x], o.diffs@[x]),
            forall|x: int| 0 <= x < o.diffs@.len() ==> #[trigger] self.diffs@[x].next_free_slot == o.diffs@[x].next_free_slot,
    {
        let len = o.order@.len() as int;
        let top = len - 1;
        let g = o.field_blocks@;
        let l = last_upto(o.lt(k, -1, 0, f), len - 1);
        lemma_last_range(o.lt(k, -1, 0, f), len - 1);
        if l != -1 {
            assert(o.lk(k, -1, 0, l, f));
            assert(o.touches(l, f));
        }
        assert forall|x: int| 0 <= x < o.diffs@.len() implies same_fields(#[trigger] self.diffs@[x], o.diffs@[x]) by {
            if x == slot {
                let a = self.diffs@[x];
                let b = o.diffs@[x];
                assert forall|i: int| 0 <= i < a.patched_fields@.len() implies (#[trigger] a.patched_fields@[i]).field_start
                    == b.patched_fields@[i].field_start && a.patched_fields@[i].diff_start
                    == b.patched_fields@[i].diff_start by {}
            } else if l != -1 && x == o.order@[l] {
                let a = self.diffs@[x];
                let b = o.diffs@[x];
                let li = idx_of(o.rd_at(l), f);
                assert(o.rd_at(l) == b);
                assert(a.patched_fields@ == b.patched_fields@.update(
                    li,
                    PatchedField {
                        prev: PatchedFieldRef { diff: RowDiffId(slot as u16), index: k as u16 },
                        ..b.patched_fields@[li]
                    },
                ));
                assert forall|i: int| 0 <= i < a.patched_fields@.len() implies (#[trigger] a.patched_fields@[i]).field_start
                    == b.patched_fields@[i].field_start && a.patched_fields@[i].diff_start
                    == b.patched_fields@[i].diff_start by {
                    if i == li {
                        assert(a.patched_fields@[i].field_start == b.patched_fields@[li].field_start);
                    }
                }
            }
        }
        assert forall|q: int| 0 <= q < len implies #[trigger] slot_ok(o.field_blocks@, o.rd_at(q)) && slot_ok(self.field_blocks@, self.rd_at(q))
            && (forall|h: int| #[trigger] touched(self.rd_at(q), h) == touched(o.rd_at(q), h))
            && (forall|h: int| touched(o.rd_at(q), h) ==> #[trigger] idx_of(self.rd_at(q), h) == idx_of(o.rd_at(q), h)) by {
            assert(slot_ok(o.field_blocks@, o.rd_at(q)));
            assert(same_fields(self.diffs@[o.order@[q]], o.diffs@[o.order@[q]]));
            lemma_slot_ok_transfer(g, o.rd_at(q), self.rd_at(q));
            lemma_same_fields(g, o.rd_at(q), self.rd_at(q), 0, 0);
            assert(same_fields(self.rd_at(q), o.rd_at(q)));
            lemma_same_fields(g, self.rd_at(q), o.rd_at(q), 0, 0);
        }
        let order = self.order@;
        let free = self.free@;
        assert(self.patched_field_heads@.len() == g.len());
        assert(self.free_list_head.0 == if free.len() > 0 {
            free[0] as u16
        } else {
            NO_SLOT
        });
        assert forall|a: int| 0 <= a < free.len() implies (#[trigger] self.diffs@[free[a]]).next_free_slot.0 == if a + 1
                < free.len() {
                free[a + 1] as u16
            } else {
                NO_SLOT
            } by {
            assert(o.diffs@[free[a]].next_free_slot.0 == if a + 1 < free.len() {
                free[a + 1] as u16
            } else {
                NO_SLOT
            });
        }
        assert forall|p: int| 0 <= p < order.len() implies slot_ok(self.field_blocks@, #[trigger] self.rd_at(p)) by {
            assert(slot_ok(o.field_blocks@, o.rd_at(p)));
            assert(same_fields(self.diffs@[o.order@[p]], o.diffs@[o.order@[p]]));
            lemma_slot_ok_transfer(g, o.rd_at(p), self.rd_at(p));
        }
        assert(self.wf_core());
        // The links.
        let rt = o.rd_at(top);
        assert(slot_ok(g, rt));
        lemma_idx_unique(rt, f, k);
        let to = |h: int| o.lt(k, -1, 0, h);
        let tn = |h: int| self.lt(k + 1, -1, 0, h);
        assert forall|q: int, h: int| 0 <= q < len implies #[trigger] self.lk(k + 1, -1, 0, q, h) == (o.lk(k, -1, 0, q, h)
            || (q == top && h == f)) && (o.touches(q, h) ==> self.ref_of(q, h) == o.ref_of(q, h)) by {
            assert(slot_ok(g, o.rd_at(q)));
            if o.touches(q, h) && q == top {
                if h != f {
                    let i = idx_of(rt, h);
                    lemma_idx_unique(rt, h, i);
                }
            }
        }
        assert(self.lk(k + 1, -1, 0, top, f));
        let ls = if l != -1 { o.order@[l] } else { -1 };
        let li = if l != -1 { idx_of(o.rd_at(l), f) } else { -1 };
        assert forall|p: int, i: int|
            0 <= p < len && 0 <= i < self.rd_at(p).patched_fields@.len() && self.lk(
                k + 1,
                -1,
                0,
                p,
                self.rd_at(p).patched_fields@[i].field_start as int,
            ) implies {
                let pf = #[trigger] self.rd_at(p).patched_fields@[i];
                let h = pf.field_start as int;
                &&& same_ref(pf.prev, self.ref_of(first_from(self.lt(k + 1, -1, 0, h), len, p + 1), h))
                &&& same_ref(pf.next, self.ref_of(last_upto(self.lt(k + 1, -1, 0, h), p - 1), h))
            } by {
            let npf = self.rd_at(p).patched_fields@[i];
            let opf = o.rd_at(p).patched_fields@[i];
            let h = npf.field_start as int;
            assert(same_fields(self.diffs@[o.order@[p]], o.diffs@[o.order@[p]]));
            assert(opf.field_start == npf.field_start);
            let tnh = self.lt(k + 1, -1, 0, h);
            let toh = o.lt(k, -1, 0, h);
            assert forall|q: int| 0 <= q < len && (h != f || q != top) implies #[trigger] tnh(q) == toh(q) by {
                assert(self.lk(k + 1, -1, 0, q, h) == (o.lk(k, -1, 0, q, h) || (q == top && h == f)));
            }
            assert(slot_ok(g, o.rd_at(p)));
            lemma_idx_unique(o.rd_at(p), h, i);
            lemma_first_range(toh, len, p + 1);
            lemma_last_range(toh, p - 1);
            lemma_first_range(tnh, len, p + 1);
            lemma_last_range(tnh, p - 1);
            let fo = first_from(toh, len, p + 1);
            let lo = last_upto(toh, p - 1);
            if lo != -1 {
                assert(o.lk(k, -1, 0, lo, h));
                assert(self.ref_of(lo, h) == o.ref_of(lo, h));
            }
            if h != f {
                assert(o.lk(k, -1, 0, p, h));
                if o.order@[p] == slot {
                    assert(p == top);
                    assert(i != k);
                } else if ls != -1 && o.order@[p] == ls {
                    assert(p == l);
                    assert(i != li);
                }
                assert(npf == opf);
                lemma_first_agree(tnh, toh, len, p + 1);
                lemma_last_agree(tnh, toh, p - 1);
                if fo != -1 {
                    assert(o.lk(k, -1, 0, fo, h));
                    assert(self.ref_of(fo, h) == o.ref_of(fo, h));
                }
            } else if p == top {
                assert(i == k);
                lemma_first_none(tnh, len, p + 1);
                lemma_last_agree(tnh, toh, p - 1);
                assert(last_upto(to(f), len - 1) == last_upto(toh, top - 1));
                assert(npf.next == o.patched_field_heads@[f]);
            } else {
                assert(o.lk(k, -1, 0, p, h));
                lemma_last_agree(tnh, toh, p - 1);
                if p == l {
                    assert(i == li);
                    assert forall|x: int| p + 1 <= x < top implies !#[trigger] tnh(x) by {
                        assert(tnh(x) == toh(x));
                    }
                    lemma_first_is(tnh, len, p + 1, top);
                    assert(self.rd_at(top).patched_fields@.len() == rt.patched_fields@.len());
                    lemma_idx_unique(self.rd_at(top), f, k);
                } else {
                    assert(toh(p));
                    assert(to(f)(p));
                    assert(p < l);
                    assert(o.order@[p] != slot);
                    assert(o.order@[p] != ls);
                    assert(npf == opf);
                    assert(fo != -1 && fo <= l);
                    assert forall|x: int| p + 1 <= x <= fo implies #[trigger] tnh(x) == toh(x) by {}
                    lemma_first_is(tnh, len, p + 1, fo);
                    assert(o.lk(k, -1, 0, fo, h));
                    assert(self.ref_of(fo, h) == o.ref_of(fo, h));
                }
            }
        }
        assert forall|h: int| 0 <= h < g.len() implies same_ref(
            #[trigger] self.patched_field_heads@[h],
            self.ref_of(last_upto(self.lt(k + 1, -1, 0, h), len - 1), h),
        ) by {
            let tnh = self.lt(k + 1, -1, 0, h);
            let toh = o.lt(k, -1, 0, h);
            assert forall|q: int| 0 <= q < len && (h != f || q != top) implies #[trigger] tnh(q) == toh(q) by {
                assert(self.lk(k + 1, -1, 0, q, h) == (o.lk(k, -1, 0, q, h) || (q == top && h == f)));
            }
            if h != f {
                lemma_last_agree(tnh, toh, len - 1);
                lemma_last_range(toh, len - 1);
                let lo = last_upto(toh, len - 1);
                if lo != -1 {
                    assert(o.lk(k, -1, 0, lo, h));
                    assert(self.ref_of(lo, h) == o.ref_of(lo, h));
                }
            } else {
                assert(tnh(top));
                lemma_idx_unique(self.rd_at(top), f, k);
            }
        }
        assert forall|i: int| k + 1 <= i < self.diffs@[slot].patched_fields@.len() implies (#[trigger] self.diffs@[slot].patched_fields@[i]).prev.diff.0
            == NO_SLOT by {
            assert(o.diffs@[slot].patched_fields@[i].prev.diff.0 == NO_SLOT);
        }
        assert(!o.lk(k, -1, 0, top, f));
    }
}

impl LinkedListPatcher {
    /// After a freshly built slot was stored at `slot` and put on top, everything holds
    /// but the links of the top patch's fields.
    proof fn lemma_stored(&self, o: Self, slot: int, before: Seq<u32>, after: Seq<u32>)
        requires
            o.wf(),
            before.len() == o.n_words,
            after.len() == o.n_words,
            0 <= slot < self.diffs@.len(),
            o.diffs@.len() <= self.diffs@.len(),
            forall|a: int| 0 <= a < o.order@.len() ==> #[trigger] o.order@[a] != slot,
            self.order@ == o.order@.push(slot),
            self.field_blocks == o.field_blocks,
            self.n_words == o.n_words,
            self.patched_field_heads == o.patched_field_heads,
            diff_built(o.field_blocks@, before, after, self.diffs@[slot]),
            forall|x: int| 0 <= x < o.diffs@.len() && x != slot ==> #[trigger] self.diffs@[x] == o.diffs@[x],
            self.diffs@.len() <= NO_SLOT,
            self.diffs@.len() == self.order@.len() + self.free@.len(),
            forall|a: int, b: int| 0 <= a < b < self.free@.len() ==> #[trigger] self.free@[a] != #[trigger] self.free@[b],
            forall|a: int| 0 <= a < self.free@.len() ==> 0 <= #[trigger] self.free@[a] < self.diffs@.len() && self.free@[a] != slot
                && forall|b: int| 0 <= b < o.order@.len() ==> o.order@[b] != self.free@[a],
            self.free_list_head.0 == if self.free@.len() > 0 {
                self.free@[0] as u16
            } else {
                NO_SLOT
            },
            forall|a: int|
                0 <= a < self.free@.len() ==> (#[trigger] self.diffs@[self.free@[a]]).next_free_slot.0 == if a + 1
                    < self.free@.len() {
                    self.free@[a + 1] as u16
                } else {
                    NO_SLOT
                },
        ensures
            self.wf_core(),
            self.chains_ok(0, -1, 0),
            self@ == o@.push(new_patch(o.field_blocks@, before, after, slot as usize)),
            forall|i: int|
                0 <= i < self.diffs@[slot].patched_fields@.len() ==> (#[trigger] self.diffs@[slot].patched_fields@[i]).prev.diff.0
                    == NO_SLOT,
    {
        let g = o.field_blocks@;
        let n = o.n_words as nat;
        let len = self.order@.len() as int;
        let top = len - 1;
        let rd = self.diffs@[slot];
        assert(self.rd_at(top) == rd);
        assert forall|q: int| 0 <= q < top implies #[trigger] self.rd_at(q) == o.rd_at(q) by {
            assert(o.order@[q] < o.diffs@.len());
        }
        // The new slot is well formed.
        assert forall|j: int| 0 <= j < g.len() && touched(rd, g[j].field_start as int) implies #[trigger] entry(g, rd, j)
            & !g[j].mask == 0 by {
            lemma_built_entry(g, n, before, after, rd, j);
            let x = before[g[j].offset as int] ^ after[g[j].offset as int];
            let m = g[j].mask;
            crate::bits::lemma_pair(x, m);
        }
        assert(slot_ok(g, rd));
        let order = self.order@;
        let free = self.free@;
        assert forall|a: int, b: int| 0 <= a < b < order.len() implies #[trigger] order[a] != #[trigger] order[b] by {
            if b < top {
                assert(o.order@[a] != o.order@[b]);
            }
        }
        assert forall|a: int, b: int|
            0 <= a < order.len() && 0 <= b < free.len() implies #[trigger] order[a] != #[trigger] free[b] by {
            if a < top {
                assert(o.order@[a] != free[b]);
            }
        }
        assert forall|a: int| 0 <= a < order.len() implies 0 <= #[trigger] order[a] < self.diffs@.len() by {
            if a < top {
                assert(o.order@[a] < o.diffs@.len());
            }
        }
        assert(wf_geometry(g, self.n_words as nat));
        assert(self.patched_field_heads@.len() == g.len());
        assert forall|p: int| 0 <= p < len implies slot_ok(self.field_blocks@, #[trigger] self.rd_at(p)) by {
            if p < top {
                assert(slot_ok(g, o.rd_at(p)));
            }
        }
        assert(self.wf_core());
        // Links: nothing on top is linked yet, so each search sees the old stack.
        assert forall|q: int, h: int| 0 <= q < top implies #[trigger] self.lk(0, -1, 0, q, h) == o.lk(all_fields(), -1, 0, q, h)
            && (o.touches(q, h) ==> self.ref_of(q, h) == o.ref_of(q, h)) by {
            assert(slot_ok(g, o.rd_at(q)));
            if o.touches(q, h) {
                assert(idx_of(o.rd_at(q), h) < o.rd_at(q).patched_fields@.len());
            }
        }
        assert forall|h: int| !#[trigger] self.lk(0, -1, 0, top, h) by {}
        assert forall|p: int, i: int|
            0 <= p < len && 0 <= i < self.rd_at(p).patched_fields@.len() && self.lk(
                0,
                -1,
                0,
                p,
                self.rd_at(p).patched_fields@[i].field_start as int,
            ) implies {
                let pf = #[trigger] self.rd_at(p).patched_fields@[i];
                let h = pf.field_start as int;
                &&& same_ref(pf.prev, self.ref_of(first_from(self.lt(0, -1, 0, h), len, p + 1), h))
                &&& same_ref(pf.next, self.ref_of(last_upto(self.lt(0, -1, 0, h), p - 1), h))
            } by {
            let pf = self.rd_at(p).patched_fields@[i];
            let h = pf.field_start as int;
            let tn = self.lt(0, -1, 0, h);
            let to = o.lt(all_fields(), -1, 0, h);
            assert(p < top);
            assert(o.lk(all_fields(), -1, 0, p, h));
            assert forall|q: int| 0 <= q < top implies #[trigger] tn(q) == to(q) by {
                assert(self.lk(0, -1, 0, q, h) == o.lk(all_fields(), -1, 0, q, h));
            }
            assert(!tn(top));
            lemma_first_range(to, top, p + 1);
            let r = first_from(to, top, p + 1);
            if r == -1 {
                lemma_first_none(tn, len, p + 1);
            } else {
                lemma_first_is(tn, len, p + 1, r);
                assert(o.lk(all_fields(), -1, 0, r, h));
            }
            lemma_last_agree(tn, to, p - 1);
            lemma_last_range(to, p - 1);
            let b = last_upto(to, p - 1);
            if b != -1 {
                assert(o.lk(all_fields(), -1, 0, b, h));
            }
        }
        assert forall|h: int| 0 <= h < g.len() implies same_ref(
            #[trigger] self.patched_field_heads@[h],
            self.ref_of(last_upto(self.lt(0, -1, 0, h), len - 1), h),
        ) by {
            let tn = self.lt(0, -1, 0, h);
            let to = o.lt(all_fields(), -1, 0, h);
            assert forall|q: int| 0 <= q < top implies #[trigger] tn(q) == to(q) by {
                assert(self.lk(0, -1, 0, q, h) == o.lk(all_fields(), -1, 0, q, h));
            }
            assert(!tn(top));
            lemma_last_agree(tn, to, top - 1);
            lemma_last_range(to, top - 1);
            let b = last_upto(to, top - 1);
            if b != -1 {
                assert(o.lk(all_fields(), -1, 0, b, h));
            }
        }
        // The view.
        lemma_built_view(g, n, before, after, rd, slot);
        assert(self@ =~= o@.push(new_patch(g, before, after, slot as usize)));
    }

    /// Records the edit from `before` to `after` as a new patch on top of the stack.
    ///
    /// For every field whose bits differ, the patch keeps the XOR of the two rows over the
    /// field's blocks. Returns `None` when all 65535 slots hold live patches.
    pub fn create_patch(&mut self, before: &[u32], after: &[u32]) -> (r: Option<usize>)
        requires
            old(self).wf(),
            before@.len() == old(self).n_words(),
            after@.len() == old(self).n_words(),
        ensures
            final(self).wf(),
            stack_wf(final(self)@, final(self).geometry(), final(self).n_words()),
            within_slots(final(self)@),
            final(self).geometry() == old(self).geometry(),
            final(self).n_words() == old(self).n_words(),
            r.is_some() == (old(self)@.len() < NO_SLOT),
            r.is_some() ==> r.unwrap() < NO_SLOT,
            r.is_some() && before@ == after@ ==> final(self).stored_words(r.unwrap()) == 0,
            r.is_none() ==> final(self)@ == old(self)@,
            r.is_some() ==> {
                &&& final(self)@ == old(self)@.push(
                    new_patch(old(self).geometry(), before@, after@, r.unwrap()),
                )
                &&& !has_id(old(self)@, r.unwrap())
            },
            r.is_some() && before@ == after@ ==> empty_patch(final(self)@.last()),
    {
        let ghost o = *self;
        let slot: usize;
        if self.free_list_head.0 != NO_SLOT {
            slot = self.free_list_head.0 as usize;
            proof {
                assert(self.free@.len() > 0);
                assert(self.free@[0] < self.diffs@.len());
            }
            self.free_list_head = self.diffs[slot].next_free_slot;
            self.free = Ghost(self.free@.drop_first());
        } else if self.diffs.len() < NO_SLOT as usize {
            self.diffs.push(RowDiff { block_diffs: Vec::new(), patched_fields: Vec::new(), next_free_slot: RowDiffId::none() });
            slot = self.diffs.len() - 1;
        } else {
            proof {
                assert(o@.len() == o.order@.len());
                self.lemma_view_wf();
            }
            return None;
        }
        let rd = build_diff(&self.field_blocks, self.n_words, before, after);
        let ghost bl0 = rd.block_diffs@.len();
        proof {
            if before@ == after@ && rd.patched_fields@.len() > 0 {
                let f0 = rd.patched_fields@[0].field_start as int;
                assert(touched(rd, f0));
                let j = choose|j: int|
                    0 <= j < o.field_blocks@.len() && o.field_blocks@[j].field_start == f0 && block_changed(
                        o.field_blocks@,
                        before@,
                        after@,
                        j,
                    );
                let v = before@[o.field_blocks@[j].offset as int];
                crate::bits::lemma_pair(v, o.field_blocks@[j].mask);
            }
        }
        self.diffs[slot] = rd;
        self.order = Ghost(self.order@.push(slot as int));
        proof {
            assert forall|a: int| 0 <= a < o.order@.len() implies #[trigger] o.order@[a] != slot by {
                if o.free@.len() > 0 {
                    assert(o.free@[0] == slot);
                }
            }
            assert forall|x: int| 0 <= x < o.diffs@.len() && x != slot implies #[trigger] self.diffs@[x] == o.diffs@[x] by {}
            assert forall|a: int| 0 <= a < self.free@.len() implies 0 <= #[trigger] self.free@[a] < self.diffs@.len()
                && self.free@[a] != slot && forall|b: int| 0 <= b < o.order@.len() ==> o.order@[b] != self.free@[a] by {
                assert(self.free@[a] == o.free@[a + 1]);
                assert(o.free@[0] != o.free@[a + 1]);
            }
            assert forall|a: int|
                0 <= a < self.free@.len() implies (#[trigger] self.diffs@[self.free@[a]]).next_free_slot.0 == if a + 1
                    < self.free@.len() {
                    self.free@[a + 1] as u16
                } else {
                    NO_SLOT
                } by {
                assert(self.free@[a] == o.free@[a + 1]);
                assert(o.free@[0] != o.free@[a + 1]);
            }
            self.lemma_stored(o, slot as int, before@, after@);
        }
        let ghost target = self@;
        let npf = self.diffs[slot].patched_fields.len();
        let mut k: usize = 0;
        while k < npf
            invariant
                self.wf_core(),
                self.chains_ok(k as int, -1, 0),
                self.order@.len() >= 1,
                slot == self.order@[self.order@.len() - 1],
                npf == self.diffs@[slot as int].patched_fields@.len(),
                k <= npf,
                forall|i: int|
                    k <= i < self.diffs@[slot as int].patched_fields@.len() ==> (#[trigger] self.diffs@[slot as int].patched_fields@[i]).prev.diff.0
                        == NO_SLOT,
                self@ == target,
                self.field_blocks == o.field_blocks,
                self.n_words == o.n_words,
                self.diffs@[slot as int].block_diffs@.len() == bl0,
            decreases npf - k,
        {
            let ghost before_link = *self;
            self.link_one(slot, k);
            proof {
                assert(same_fields(self.diffs@[slot as int], before_link.diffs@[slot as int]));
                assert forall|p: int| 0 <= p < self.order@.len() implies #[trigger] self@[p] == before_link@[p] by {
                    let x = self.order@[p];
                    assert(slot_ok(self.field_blocks@, before_link.rd_at(p)));
                    lemma_same_fields(self.field_blocks@, before_link.diffs@[x], self.diffs@[x], x, self.n_words as nat);
                }
                assert(self@ =~= before_link@);
            }
            k += 1;
        }
        proof {
            let len = self.order@.len() as int;
            assert forall|q: int, h: int| 0 <= q < len implies #[trigger] self.lk(all_fields(), -1, 0, q, h)
                == self.lk(npf as int, -1, 0, q, h) by {
                assert(slot_ok(self.field_blocks@, self.rd_at(q)));
            }
            assert forall|h: int| #[trigger] self.lt(all_fields(), -1, 0, h) == self.lt(npf as int, -1, 0, h) by {
                assert(self.lt(all_fields(), -1, 0, h) =~= self.lt(npf as int, -1, 0, h));
            }
            assert(self.chains_ok(all_fields(), -1, 0));
            assert forall|p: int| 0 <= p < o@.len() implies o@[p].id != slot by {
                assert(o.order@[p] != slot);
            }
            self.lemma_view_wf();
            lemma_identity_patch_empty(o.field_blocks@, before@, slot);
        }
        Some(slot)
    }
}

impl LinkedListPatcher {
    /// The nearest position above `p` whose patch touches field `f`; -1 if none.
    spec fn above(&self, p: int, f: int) -> int {
        first_from(self.lt(all_fields(), -1, 0, f), self.order@.len() as int, p + 1)
    }

    spec fn residue_sel(&self, p: int, t: int, x: int) -> spec_fn(int) -> bool {
        |j: int| done_blk(self.field_blocks@, self.rd_at(p), t, x, j) && self.above(p, self.field_blocks@[j].field_start as int) == -1
    }

    spec fn residue_val(&self, p: int) -> spec_fn(int) -> u32 {
        |j: int| entry(self.field_blocks@, self.rd_at(p), j) & self.field_blocks@[j].mask
    }

    /// While restoring position `p` of `o`: the blocks before (`t`, `x`) have been handed to
    /// the patch above that touches their field, or to live memory.
    spec fn phase1(&self, o: Self, p: int, live0: Seq<u32>, live: Seq<u32>, t: int, x: int) -> bool {
        let g = o.field_blocks@;
        let len = o.order@.len() as int;
        let rdp = o.rd_at(p);
        &&& self.order == o.order
        &&& self.free == o.free
        &&& self.patched_field_heads == o.patched_field_heads
        &&& self.field_blocks == o.field_blocks
        &&& self.n_words == o.n_words
        &&& self.free_list_head == o.free_list_head
        &&& self.diffs@.len() == o.diffs@.len()
        &&& forall|y: int|
            0 <= y < o.diffs@.len() ==> (#[trigger] self.diffs@[y]).patched_fields@ == o.diffs@[y].patched_fields@
                && self.diffs@[y].next_free_slot == o.diffs@[y].next_free_slot
                && self.diffs@[y].block_diffs@.len() == o.diffs@[y].block_diffs@.len()
        &&& forall|q: int, j: int|
            0 <= q < len && 0 <= j < g.len() && touched(o.rd_at(q), g[j].field_start as int)
                ==> #[trigger] entry(g, self.rd_at(q), j) == entry(g, o.rd_at(q), j) ^ if done_blk(g, rdp, t, x, j)
                && q == o.above(p, g[j].field_start as int) {
                entry(g, rdp, j)
            } else {
                0
            }
        &&& live.len() == o.n_words
        &&& forall|w: int|
            0 <= w < o.n_words ==> #[trigger] live[w] == live0[w] ^ union_where(
                g,
                w,
                g.len() as int,
                o.residue_sel(p, t, x),
                o.residue_val(p),
            )
    }

    proof fn lemma_phase1_shift(&self, o: Self, p: int, live0: Seq<u32>, live: Seq<u32>, t1: int, x1: int, t2: int, x2: int)
        requires
            self.phase1(o, p, live0, live, t1, x1),
            forall|j: int|
                0 <= j < o.field_blocks@.len() ==> #[trigger] done_blk(o.field_blocks@, o.rd_at(p), t1, x1, j)
                    == done_blk(o.field_blocks@, o.rd_at(p), t2, x2, j),
        ensures
            self.phase1(o, p, live0, live, t2, x2),
    {
        let g = o.field_blocks@;
        assert forall|j: int| 0 <= j < g.len() implies #[trigger] o.residue_sel(p, t2, x2)(j) == o.residue_sel(p, t1, x1)(j) by {
            assert(done_blk(g, o.rd_at(p), t1, x1, j) == done_blk(g, o.rd_at(p), t2, x2, j));
        }
        assert forall|w: int| 0 <= w < o.n_words implies #[trigger] live[w] == live0[w] ^ union_where(
            g,
            w,
            g.len() as int,
            o.residue_sel(p, t2, x2),
            o.residue_val(p),
        ) by {
            lemma_union_sel_eq(g, w, g.len() as int, o.residue_sel(p, t1, x1), o.residue_sel(p, t2, x2), o.residue_val(p));
        }
        let len = o.order@.len() as int;
        assert forall|q: int, j: int|
            0 <= q < len && 0 <= j < g.len() && touched(o.rd_at(q), g[j].field_start as int)
                implies #[trigger] entry(g, self.rd_at(q), j) == entry(g, o.rd_at(q), j) ^ if done_blk(g, o.rd_at(p), t2, x2, j)
                && q == o.above(p, g[j].field_start as int) {
                entry(g, o.rd_at(p), j)
            } else {
                0
            } by {
            assert(done_blk(g, o.rd_at(p), t1, x1, j) == done_blk(g, o.rd_at(p), t2, x2, j));
        }
    }

    /// Hands field `t` of the patch at position `p`, in slot `slot`, to the patch above
    /// that touches the field, or to live memory.
    fn apply_field(
        &mut self,
        Ghost(o): Ghost<Self>,
        Ghost(p): Ghost<int>,
        Ghost(live0): Ghost<Seq<u32>>,
        slot: usize,
        t: usize,
        live: &mut [u32],
    )
        requires
            o.wf(),
            0 <= p < o.order@.len(),
            slot == o.order@[p],
            t < o.diffs@[slot as int].patched_fields@.len(),
            old(self).phase1(o, p, live0, old(live)@, t as int, 0),
        ensures
            final(self).phase1(o, p, live0, final(live)@, t + 1, 0),
    {
        let ghost g = o.field_blocks@;
        let ghost len = o.order@.len() as int;
        let ghost rdp = o.rd_at(p);
        let pf = self.diffs[slot].patched_fields[t];
        let f = pf.field_start as usize;
        let glen = self.field_blocks.len();
        proof {
            assert(self.diffs@[slot as int].patched_fields@ == o.diffs@[slot as int].patched_fields@);
            assert(slot_ok(g, rdp));
            lemma_idx_unique(rdp, f as int, t as int);
            lemma_field_range(g, o.n_words as nat, f as int, f as int);
        }
        proof {
            assert forall|j: int| 0 <= j < g.len() implies #[trigger] done_blk(g, rdp, t as int, 0, j)
                == done_blk(g, rdp, t as int, f as int, j) by {
                if touched(rdp, g[j].field_start as int) && idx_of(rdp, g[j].field_start as int) == t {
                    lemma_idx_unique(rdp, g[j].field_start as int, t as int);
                    lemma_field_range(g, o.n_words as nat, f as int, j);
                }
            }
            self.lemma_phase1_shift(o, p, live0, live@, t as int, 0, t as int, f as int);
        }
        let bl = self.diffs[slot].block_diffs.len();
        let mut j: usize = f;
        while j < glen && self.field_blocks[j].field_start as usize == f
            invariant
                o.wf(),
                0 <= p < len,
                len == o.order@.len(),
                g == o.field_blocks@,
                rdp == o.rd_at(p),
                slot == o.order@[p],
                glen == g.len(),
                pf == rdp.patched_fields@[t as int],
                f == pf.field_start,
                idx_of(rdp, f as int) == t,
                touched(rdp, f as int),
                (f as int) < glen,
                g[f as int].field_start == f,
                f <= j <= f + field_len(g, f as int),
                bl == self.diffs@[slot as int].block_diffs@.len(),
                self.phase1(o, p, live0, live@, t as int, j as int),
            decreases glen - j,
        {
            proof {
                lemma_field_range(g, o.n_words as nat, f as int, j as int);
                assert(j < f + field_len(g, f as int));
            }
            let e = self.diffs[slot].block_diffs[pf.diff_start + (j - f)];
            let ghost self0 = *self;
            let ghost live1 = live@;
            let ghost big_p = o.above(p, f as int);
            let ghost tf = o.lt(all_fields(), -1, 0, f as int);
            proof {
                let r0 = self0.rd_at(p);
                assert(r0.patched_fields@ == rdp.patched_fields@);
                lemma_idx_unique(r0, f as int, t as int);
                assert(entry(g, r0, j as int) == e);
                lemma_first_range(tf, len, p + 1);
                assert(big_p != p);
                let ep = entry(g, rdp, j as int);
                crate::bits::lemma_word(ep);
                assert(e == ep);
                assert(slot_ok(g, rdp));
                assert(o.lk(all_fields(), -1, 0, p, f as int));
                assert(same_ref(pf.prev, o.ref_of(big_p, f as int)));
                lemma_first_range(tf, len, p + 1);
                if big_p != -1 {
                    assert(o.lk(all_fields(), -1, 0, big_p, f as int));
                    assert(o.order@[big_p] < o.diffs@.len());
                    assert(slot_ok(g, o.rd_at(big_p)));
                    assert(pf.prev == o.ref_of(big_p, f as int));
                } else {
                    assert(pf.prev.diff.0 == NO_SLOT);
                }
                assert(entry(g, rdp, j as int) & !g[j as int].mask == 0);
            }
            if pf.prev.is_null() {
                let w = self.field_blocks[j].offset as usize;
                live[w] = live[w] ^ e;
                proof {
                    let sel1 = o.residue_sel(p, t as int, j as int);
                    let sel2 = o.residue_sel(p, t as int, j + 1);
                    let val = o.residue_val(p);
                    assert forall|x: int| 0 <= x < g.len() implies #[trigger] sel2(x) == (sel1(x) || x == j) by {
                        if touched(rdp, g[x].field_start as int) && idx_of(rdp, g[x].field_start as int) == t {
                            lemma_idx_unique(rdp, g[x].field_start as int, t as int);
                        }
                    }
                    assert forall|x: int| 0 <= x < g.len() implies #[trigger] val(x) & !g[x].mask == 0 by {
                        let m = g[x].mask;
                        let ex = entry(g, rdp, x);
                        crate::bits::lemma_pair(ex, m);
                    }
                    assert(val(j as int) == e) by {
                        let m = g[j as int].mask;
                        crate::bits::lemma_pair(e, m);
                    }
                    assert forall|w2: int| 0 <= w2 < o.n_words implies #[trigger] live@[w2] == live0[w2] ^ union_where(
                        g,
                        w2,
                        g.len() as int,
                        sel2,
                        val,
                    ) by {
                        lemma_union_add(g, o.n_words as nat, w2, g.len() as int, sel1, sel2, val, j as int);
                        let u1 = union_where(g, w2, g.len() as int, sel1, val);
                        let l0 = live0[w2];
                        if w2 == w {
                            assert(live@[w2] == live1[w2] ^ e);
                            assert((l0 ^ u1) ^ e == l0 ^ (u1 ^ e)) by (bit_vector);
                        } else {
                            crate::bits::lemma_word(u1);
                        }
                    }
                    assert forall|q: int, x: int|
                        0 <= q < len && 0 <= x < g.len() && touched(o.rd_at(q), g[x].field_start as int)
                            implies #[trigger] entry(g, self.rd_at(q), x) == entry(g, o.rd_at(q), x) ^ if done_blk(g, rdp, t as int, j + 1, x)
                            && q == o.above(p, g[x].field_start as int) {
                            entry(g, rdp, x)
                        } else {
                            0
                        } by {
                        if touched(rdp, g[x].field_start as int) && idx_of(rdp, g[x].field_start as int) == t {
                            lemma_idx_unique(rdp, g[x].field_start as int, t as int);
                        }
                        assert(done_blk(g, rdp, t as int, j + 1, x) == (done_blk(g, rdp, t as int, j as int, x) || x == j));
                    }
                }
            } else {
                let ps = pf.prev.diff.0 as usize;
                let pi = pf.prev.index as usize;
                let pd = self.diffs[ps].patched_fields[pi].diff_start;
                let bl2 = self.diffs[ps].block_diffs.len();
                proof {
                    let rq = o.rd_at(big_p);
                    assert(self.diffs@[ps as int].patched_fields@ == rq.patched_fields@);
                    assert(pi == idx_of(rq, f as int));
                    assert(rq.patched_fields@[pi as int].field_start == f);
                    assert(pd + field_len(g, f as int) <= rq.block_diffs@.len());
                }
                let v = self.diffs[ps].block_diffs[pd + (j - f)];
                self.diffs[ps].block_diffs[pd + (j - f)] = v ^ e;
                proof {
                    let sel1 = o.residue_sel(p, t as int, j as int);
                    let sel2 = o.residue_sel(p, t as int, j + 1);
                    assert forall|x: int| 0 <= x < g.len() implies #[trigger] sel2(x) == sel1(x) by {
                        if touched(rdp, g[x].field_start as int) && idx_of(rdp, g[x].field_start as int) == t {
                            lemma_idx_unique(rdp, g[x].field_start as int, t as int);
                        }
                    }
                    assert forall|w2: int| 0 <= w2 < o.n_words implies #[trigger] live@[w2] == live0[w2] ^ union_where(
                        g,
                        w2,
                        g.len() as int,
                        sel2,
                        o.residue_val(p),
                    ) by {
                        lemma_union_sel_eq(g, w2, g.len() as int, sel1, sel2, o.residue_val(p));
                    }
                    let rq = o.rd_at(big_p);
                    assert forall|y: int| 0 <= y < o.diffs@.len() implies (#[trigger] self.diffs@[y]).patched_fields@
                        == o.diffs@[y].patched_fields@ && self.diffs@[y].next_free_slot == o.diffs@[y].next_free_slot
                        && self.diffs@[y].block_diffs@.len() == o.diffs@[y].block_diffs@.len() by {
                        assert(self0.diffs@[y].patched_fields@ == o.diffs@[y].patched_fields@);
                    }
                    assert forall|q: int, x: int|
                        0 <= q < len && 0 <= x < g.len() && touched(o.rd_at(q), g[x].field_start as int)
                            implies #[trigger] entry(g, self.rd_at(q), x) == entry(g, o.rd_at(q), x) ^ if done_blk(g, rdp, t as int, j + 1, x)
                            && q == o.above(p, g[x].field_start as int) {
                            entry(g, rdp, x)
                        } else {
                            0
                        } by {
                        let fx = g[x].field_start as int;
                        if touched(rdp, fx) && idx_of(rdp, fx) == t {
                            lemma_idx_unique(rdp, fx, t as int);
                        }
                        assert(done_blk(g, rdp, t as int, j + 1, x) == (done_blk(g, rdp, t as int, j as int, x) || x == j));
                        assert(entry(g, self0.rd_at(q), x) == entry(g, o.rd_at(q), x) ^ if done_blk(g, rdp, t as int, j as int, x)
                            && q == o.above(p, fx) {
                            entry(g, rdp, x)
                        } else {
                            0
                        });
                        if o.order@[q] == ps {
                            assert(q == big_p) by {
                                if q != big_p {
                                    assert(o.order@[q] != o.order@[big_p]);
                                }
                            }
                            let rb = self0.rd_at(q);
                            let ra = self.rd_at(q);
                            assert(ra.patched_fields@ == rq.patched_fields@);
                            assert(rb.patched_fields@ == rq.patched_fields@);
                            assert(slot_ok(g, rq));
                            let ix = idx_of(rq, fx);
                            lemma_idx_unique(ra, fx, ix);
                            lemma_idx_unique(rb, fx, ix);
                            lemma_field_range(g, o.n_words as nat, fx, x);
                            let pos = rq.patched_fields@[ix].diff_start + (x - fx);
                            let target = pd + (j - f);
                            if fx == f {
                                assert(ix == pi);
                                if x == j {
                                    assert(pos == target);
                                    let b0 = entry(g, rq, x);
                                    let en = entry(g, rdp, x);
                                    assert(!done_blk(g, rdp, t as int, j as int, x));
                                    crate::bits::lemma_word(b0);
                                    assert(entry(g, rb, x) == b0);
                                    crate::bits::lemma_pair(b0, en);
                                } else {
                                    assert(pos != target);
                                }
                            } else {
                                assert(pos != target) by {
                                    if ix < pi {
                                        assert(rq.patched_fields@[ix].diff_start + field_len(g, fx) <= rq.patched_fields@[pi as int].diff_start);
                                    } else {
                                        assert(rq.patched_fields@[pi as int].diff_start + field_len(g, f as int) <= rq.patched_fields@[ix].diff_start);
                                    }
                                }
                            }
                        } else {
                            assert(self.rd_at(q) == self0.rd_at(q));
                            if x == j {
                                assert(q != big_p);
                            }
                        }
                    }
                }
            }
            j += 1;
        }
        proof {
            assert(j == f + field_len(g, f as int)) by {
                if j < f + field_len(g, f as int) {
                    lemma_field_range(g, o.n_words as nat, f as int, j as int);
                }
            }
            assert forall|x: int| 0 <= x < g.len() implies #[trigger] done_blk(g, rdp, t as int, j as int, x)
                == done_blk(g, rdp, t + 1, 0, x) by {
                if touched(rdp, g[x].field_start as int) && idx_of(rdp, g[x].field_start as int) == t {
                    lemma_idx_unique(rdp, g[x].field_start as int, t as int);
                    lemma_field_range(g, o.n_words as nat, f as int, x);
                }
            }
            self.lemma_phase1_shift(o, p, live0, live@, t as int, j as int, t + 1, 0);
        }
    }
}

impl LinkedListPatcher {
    /// Unlinks field `t` of the patch at position `p`, in slot `slot`, from its chain.
    fn unlink_one(&mut self, Ghost(p): Ghost<int>, slot: usize, t: usize)
        requires
            old(self).wf_core(),
            0 <= p < old(self).order@.len(),
            slot == old(self).order@[p],
            t < old(self).diffs@[slot as int].patched_fields@.len(),
            old(self).chains_ok(all_fields(), p, t as int),
        ensures
            final(self).wf_core(),
            final(self).chains_ok(all_fields(), p, t + 1),
            final(self).order == old(self).order,
            final(self).free == old(self).free,
            final(self).field_blocks == old(self).field_blocks,
            final(self).n_words == old(self).n_words,
            final(self).free_list_head == old(self).free_list_head,
            final(self).diffs@.len() == old(self).diffs@.len(),
            forall|x: int| 0 <= x < old(self).diffs@.len() ==> same_fields(#[trigger] final(self).diffs@[x], old(self).diffs@[x]),
            forall|x: int| 0 <= x < old(self).diffs@.len() ==> #[trigger] final(self).diffs@[x].next_free_slot == old(self).diffs@[x].next_free_slot,
    {
        let ghost o = *self;
        let ghost len = o.order@.len() as int;
        let ghost g = o.field_blocks@;
        let pf = self.diffs[slot].patched_fields[t];
        let f = pf.field_start as usize;
        let ghost tf = o.lt(all_fields(), p, t as int, f as int);
        let ghost a = first_from(tf, len, p + 1);
        let ghost b = last_upto(tf, p - 1);
        proof {
            let rp = o.rd_at(p);
            assert(slot_ok(g, rp));
            lemma_idx_unique(rp, f as int, t as int);
            assert(o.lk(all_fields(), p, t as int, p, f as int));
            lemma_first_range(tf, len, p + 1);
            lemma_last_range(tf, p - 1);
            if a != -1 {
                assert(o.lk(all_fields(), p, t as int, a, f as int));
                assert(slot_ok(g, o.rd_at(a)));
                assert(o.order@[a] != slot);
                assert(pf.prev == o.ref_of(a, f as int));
            } else {
                assert(pf.prev.diff.0 == NO_SLOT);
            }
            if b != -1 {
                assert(o.lk(all_fields(), p, t as int, b, f as int));
                assert(slot_ok(g, o.rd_at(b)));
                assert(o.order@[b] != slot);
                assert(pf.next == o.ref_of(b, f as int));
                if a != -1 {
                    assert(o.order@[a] != o.order@[b]);
                }
            } else {
                assert(pf.next.diff.0 == NO_SLOT);
            }
            assert((f as int) < g.len());
        }
        if !pf.prev.is_null() {
            self.diffs[pf.prev.diff.0 as usize].patched_fields[pf.prev.index as usize].next = pf.next;
        }
        if !pf.next.is_null() {
            self.diffs[pf.next.diff.0 as usize].patched_fields[pf.next.index as usize].prev = pf.prev;
        }
        if pf.prev.is_null() {
            self.patched_field_heads[f] = pf.next;
        }
        proof {
            self.lemma_unlink_one(o, p, slot as int, t as int, f as int, a, b);
        }
    }

    #[verifier::rlimit(100)]
    proof fn lemma_unlink_one(&self, o: Self, p: int, slot: int, t: int, f: int, a: int, b: int)
        requires
            o.wf_core(),
            0 <= p < o.order@.len(),
            slot == o.order@[p],
            0 <= t < o.diffs@[slot].patched_fields@.len(),
            o.chains_ok(all_fields(), p, t),
            f == o.diffs@[slot].patched_fields@[t].field_start,
            a == first_from(o.lt(all_fields(), p, t, f), o.order@.len() as int, p + 1),
            b == last_upto(o.lt(all_fields(), p, t, f), p - 1),
            self.order == o.order,
            self.free == o.free,
            self.field_blocks == o.field_blocks,
            self.n_words == o.n_words,
            self.free_list_head == o.free_list_head,
            self.diffs@.len() == o.diffs@.len(),
            ({
                let pf = o.diffs@[slot].patched_fields@[t];
                &&& self.patched_field_heads@ == if a == -1 {
                    o.patched_field_heads@.update(f, pf.next)
                } else {
                    o.patched_field_heads@
                }
                &&& forall|x: int|
                    0 <= x < o.diffs@.len() && (a == -1 || x != o.order@[a]) && (b == -1 || x != o.order@[b])
                        ==> #[trigger] self.diffs@[x] == o.diffs@[x]
                &&& a != -1 ==> {
                    let s2 = o.order@[a];
                    let i2 = idx_of(o.rd_at(a), f);
                    &&& self.diffs@[s2].block_diffs@ == o.diffs@[s2].block_diffs@
                    &&& self.diffs@[s2].next_free_slot == o.diffs@[s2].next_free_slot
                    &&& self.diffs@[s2].patched_fields@ == o.diffs@[s2].patched_fields@.update(
                        i2,
                        PatchedField { next: pf.next, ..o.diffs@[s2].patched_fields@[i2] },
                    )
                }
                &&& b != -1 ==> {
                    let s2 = o.order@[b];
                    let i2 = idx_of(o.rd_at(b), f);
                    &&& self.diffs@[s2].block_diffs@ == o.diffs@[s2].block_diffs@
                    &&& self.diffs@[s2].next_free_slot == o.diffs@[s2].next_free_slot
                    &&& self.diffs@[s2].patched_fields@ == o.diffs@[s2].patched_fields@.update(
                        i2,
                        PatchedField { prev: pf.prev, ..o.diffs@[s2].patched_fields@[i2] },
                    )
                }
            }),
        ensures
            self.wf_core(),
            self.chains_ok(all_fields(), p, t + 1),
            forall|x: int| 0 <= x < o.diffs@.len() ==> same_fields(#[trigger] self.diffs@[x], o.diffs@[x]),
            forall|x: int| 0 <= x < o.diffs@.len() ==> #[trigger] self.diffs@[x].next_free_slot == o.diffs@[x].next_free_slot,
    {
        let len = o.order@.len() as int;
        let g = o.field_blocks@;
        let pf = o.diffs@[slot].patched_fields@[t];
        let tf = o.lt(all_fields(), p, t, f);
        lemma_first_range(tf, len, p + 1);
        lemma_last_range(tf, p - 1);
        if a != -1 {
            assert(o.lk(all_fields(), p, t, a, f));
        }
        if b != -1 {
            assert(o.lk(all_fields(), p, t, b, f));
        }
        assert forall|x: int| 0 <= x < o.diffs@.len() implies same_fields(#[trigger] self.diffs@[x], o.diffs@[x]) by {
            let sa = self.diffs@[x];
            let so = o.diffs@[x];
            if (a != -1 && x == o.order@[a]) || (b != -1 && x == o.order@[b]) {
                assert forall|i: int| 0 <= i < sa.patched_fields@.len() implies (#[trigger] sa.patched_fields@[i]).field_start
                    == so.patched_fields@[i].field_start && sa.patched_fields@[i].diff_start
                    == so.patched_fields@[i].diff_start by {}
            }
        }
        assert forall|q: int| 0 <= q < len implies #[trigger] slot_ok(g, o.rd_at(q)) && slot_ok(g, self.rd_at(q))
            && (forall|h: int| #[trigger] touched(self.rd_at(q), h) == touched(o.rd_at(q), h))
            && (forall|h: int| touched(o.rd_at(q), h) ==> #[trigger] idx_of(self.rd_at(q), h) == idx_of(o.rd_at(q), h)) by {
            assert(slot_ok(g, o.rd_at(q)));
            assert(same_fields(self.diffs@[o.order@[q]], o.diffs@[o.order@[q]]));
            lemma_slot_ok_transfer(g, o.rd_at(q), self.rd_at(q));
            lemma_same_fields(g, o.rd_at(q), self.rd_at(q), 0, 0);
        }
        assert forall|pos: int| 0 <= pos < len implies slot_ok(self.field_blocks@, #[trigger] self.rd_at(pos)) by {
            assert(slot_ok(g, o.rd_at(pos)));
            assert(same_fields(self.diffs@[o.order@[pos]], o.diffs@[o.order@[pos]]));
            lemma_slot_ok_transfer(g, o.rd_at(pos), self.rd_at(pos));
        }
        let free = self.free@;
        assert forall|x: int| 0 <= x < free.len() implies (#[trigger] self.diffs@[free[x]]).next_free_slot.0 == if x + 1
                < free.len() {
                free[x + 1] as u16
            } else {
                NO_SLOT
            } by {
            assert(o.diffs@[free[x]].next_free_slot.0 == if x + 1 < free.len() {
                free[x + 1] as u16
            } else {
                NO_SLOT
            });
        }
        assert(slot_ok(g, o.rd_at(p)));
        assert(0 <= f < g.len());
        assert(self.patched_field_heads@.len() == g.len());
        let order = self.order@;
        assert(forall|a2: int| 0 <= a2 < order.len() ==> 0 <= #[trigger] order[a2] < self.diffs@.len());
        assert(self.wf_core());
        // The links.
        let rp = o.rd_at(p);
        lemma_idx_unique(rp, f, t);
        assert(o.lk(all_fields(), p, t, p, f));
        assert forall|q: int, h: int| 0 <= q < len implies #[trigger] self.lk(all_fields(), p, t + 1, q, h) == (o.lk(all_fields(), p, t, q, h)
            && !(q == p && h == f)) && (o.touches(q, h) ==> self.ref_of(q, h) == o.ref_of(q, h)) by {
            assert(slot_ok(g, o.rd_at(q)));
            if o.touches(q, h) && q == p && h != f {
                let i = idx_of(rp, h);
                lemma_idx_unique(rp, h, i);
            }
        }
        let tn = self.lt(all_fields(), p, t + 1, f);
        assert forall|q: int| 0 <= q < len && q != p implies #[trigger] tn(q) == tf(q) by {
            assert(self.lk(all_fields(), p, t + 1, q, f) == (o.lk(all_fields(), p, t, q, f) && !(q == p && f == f)));
        }
        assert(!tn(p));
        assert forall|x: int| p < x < len && (a == -1 || x < a) implies !#[trigger] tn(x) by {
            assert(!tf(x));
        }
        assert forall|x: int| 0 <= x < p && x > b implies !#[trigger] tn(x) by {
            assert(!tf(x));
        }
        assert forall|q: int, i: int|
            0 <= q < len && 0 <= i < self.rd_at(q).patched_fields@.len() && self.lk(
                all_fields(),
                p,
                t + 1,
                q,
                self.rd_at(q).patched_fields@[i].field_start as int,
            ) implies {
                let npf = #[trigger] self.rd_at(q).patched_fields@[i];
                let h = npf.field_start as int;
                &&& same_ref(npf.prev, self.ref_of(first_from(self.lt(all_fields(), p, t + 1, h), len, q + 1), h))
                &&& same_ref(npf.next, self.ref_of(last_upto(self.lt(all_fields(), p, t + 1, h), q - 1), h))
            } by {
            let npf = self.rd_at(q).patched_fields@[i];
            let opf = o.rd_at(q).patched_fields@[i];
            let h = npf.field_start as int;
            assert(same_fields(self.diffs@[o.order@[q]], o.diffs@[o.order@[q]]));
            assert(opf.field_start == npf.field_start);
            assert(slot_ok(g, o.rd_at(q)));
            lemma_idx_unique(o.rd_at(q), h, i);
            let tnh = self.lt(all_fields(), p, t + 1, h);
            let toh = o.lt(all_fields(), p, t, h);
            assert forall|x: int| 0 <= x < len && (h != f || x != p) implies #[trigger] tnh(x) == toh(x) by {
                assert(self.lk(all_fields(), p, t + 1, x, h) == (o.lk(all_fields(), p, t, x, h) && !(x == p && h == f)));
            }
            assert(o.lk(all_fields(), p, t, q, h));
            lemma_first_range(toh, len, q + 1);
            lemma_last_range(toh, q - 1);
            let fo = first_from(toh, len, q + 1);
            let lo = last_upto(toh, q - 1);
            if fo != -1 {
                assert(o.lk(all_fields(), p, t, fo, h));
            }
            if lo != -1 {
                assert(o.lk(all_fields(), p, t, lo, h));
            }
            if h != f {
                if a != -1 && o.order@[q] == o.order@[a] {
                    assert(q == a);
                    assert(i != idx_of(o.rd_at(a), f));
                }
                if b != -1 && o.order@[q] == o.order@[b] {
                    assert(q == b);
                    assert(i != idx_of(o.rd_at(b), f));
                }
                assert(npf == opf);
                lemma_first_agree(tnh, toh, len, q + 1);
                lemma_last_agree(tnh, toh, q - 1);
            } else {
                assert(q != p);
                if q == a {
                    assert(i == idx_of(o.rd_at(a), f));
                    lemma_first_agree(tnh, toh, len, q + 1);
                    if b == -1 {
                        assert forall|x: int| 0 <= x <= q - 1 implies !#[trigger] tnh(x) by {
                            if x < p {
                                assert(!tf(x));
                            }
                        }
                        lemma_last_none(tnh, q - 1);
                    } else {
                        assert forall|x: int| b < x <= q - 1 implies !#[trigger] tnh(x) by {
                            if x < p {
                                assert(!tf(x));
                            }
                        }
                        assert(tnh(b));
                        lemma_last_is(tnh, q - 1, b);
                    }
                } else if q == b {
                    assert(i == idx_of(o.rd_at(b), f));
                    lemma_last_agree(tnh, toh, q - 1);
                    if a == -1 {
                        assert forall|x: int| q + 1 <= x < len implies !#[trigger] tnh(x) by {
                            if x > p {
                                assert(!tf(x));
                            }
                        }
                        lemma_first_none(tnh, len, q + 1);
                    } else {
                        assert forall|x: int| q + 1 <= x < a implies !#[trigger] tnh(x) by {
                            if x > p {
                                assert(!tf(x));
                            }
                        }
                        assert(tnh(a));
                        lemma_first_is(tnh, len, q + 1, a);
                    }
                } else {
                    assert(o.order@[q] != slot);
                    if a != -1 {
                        assert(o.order@[q] != o.order@[a]);
                    }
                    if b != -1 {
                        assert(o.order@[q] != o.order@[b]);
                    }
                    assert(npf == opf);
                    // The searches from `q` never stop at `p`.
                    if q < p {
                        assert(q < b) by {
                            assert(tf(q));
                        }
                        assert(fo != -1 && fo <= b);
                        assert forall|x: int| q + 1 <= x <= fo implies #[trigger] tnh(x) == toh(x) by {}
                        lemma_first_is(tnh, len, q + 1, fo);
                        lemma_last_agree(tnh, toh, q - 1);
                    } else {
                        assert(a != -1 && a < q) by {
                            assert(tf(q));
                        }
                        assert(lo != -1 && lo >= a);
                        assert forall|x: int| lo <= x <= q - 1 implies #[trigger] tnh(x) == toh(x) by {}
                        lemma_last_is(tnh, q - 1, lo);
                        lemma_first_agree(tnh, toh, len, q + 1);
                    }
                }
            }
        }
        assert forall|h: int| 0 <= h < g.len() implies same_ref(
            #[trigger] self.patched_field_heads@[h],
            self.ref_of(last_upto(self.lt(all_fields(), p, t + 1, h), len - 1), h),
        ) by {
            let tnh = self.lt(all_fields(), p, t + 1, h);
            let toh = o.lt(all_fields(), p, t, h);
            assert forall|x: int| 0 <= x < len && (h != f || x != p) implies #[trigger] tnh(x) == toh(x) by {
                assert(self.lk(all_fields(), p, t + 1, x, h) == (o.lk(all_fields(), p, t, x, h) && !(x == p && h == f)));
            }
            lemma_last_range(toh, len - 1);
            let lo = last_upto(toh, len - 1);
            if lo != -1 {
                assert(o.lk(all_fields(), p, t, lo, h));
            }
            if h != f {
                lemma_last_agree(tnh, toh, len - 1);
            } else if a == -1 {
                if b == -1 {
                    assert forall|x: int| 0 <= x <= len - 1 implies !#[trigger] tnh(x) by {
                        if x < p {
                            assert(!tf(x));
                        }
                        if x > p {
                            assert(!tf(x));
                        }
                    }
                    lemma_last_none(tnh, len - 1);
                } else {
                    assert forall|x: int| b < x <= len - 1 implies !#[trigger] tnh(x) by {
                        if x < p {
                            assert(!tf(x));
                        }
                        if x > p {
                            assert(!tf(x));
                        }
                    }
                    assert(tnh(b));
                    lemma_last_is(tnh, len - 1, b);
                }
            } else {
                assert(lo != -1 && lo >= a);
                assert forall|x: int| lo <= x <= len - 1 implies #[trigger] tnh(x) == toh(x) by {}
                lemma_last_is(tnh, len - 1, lo);
            }
        }
    }
}

impl LinkedListPatcher {
    #[verifier::rlimit(100)]
    proof fn lemma_removed(&self, m: Self, p: int, slot: int)
        requires
            m.wf_core(),
            0 <= p < m.order@.len(),
            slot == m.order@[p],
            m.chains_ok(all_fields(), p, m.diffs@[slot].patched_fields@.len() as int),
            self.order@ == m.order@.remove(p),
            self.free@ == seq![slot].add(m.free@),
            self.field_blocks == m.field_blocks,
            self.n_words == m.n_words,
            self.patched_field_heads == m.patched_field_heads,
            self.free_list_head.0 == slot as u16,
            self.diffs@.len() == m.diffs@.len(),
            forall|x: int| 0 <= x < m.diffs@.len() && x != slot ==> #[trigger] self.diffs@[x] == m.diffs@[x],
            self.diffs@[slot].next_free_slot == m.free_list_head,
        ensures
            self.wf(),
    {
        let g = m.field_blocks@;
        let len = m.order@.len() as int;
        let order = self.order@;
        let free = self.free@;
        assert forall|x: int| 0 <= x < len - 1 implies #[trigger] order[x] == m.order@[widen(x, p)] by {}
        assert forall|a: int, b: int| 0 <= a < b < order.len() implies #[trigger] order[a] != #[trigger] order[b] by {
            assert(m.order@[widen(a, p)] != m.order@[widen(b, p)]);
        }
        assert forall|a: int| 0 <= a < m.free@.len() implies #[trigger] m.free@[a] != slot by {
            assert(m.order@[p] != m.free@[a]);
        }
        assert forall|a: int, b: int| 0 <= a < b < free.len() implies #[trigger] free[a] != #[trigger] free[b] by {
            if a > 0 {
                assert(m.free@[a - 1] != m.free@[b - 1]);
            }
        }
        assert forall|a: int, b: int| 0 <= a < order.len() && 0 <= b < free.len() implies #[trigger] order[a]
            != #[trigger] free[b] by {
            if b > 0 {
                assert(m.order@[widen(a, p)] != m.free@[b - 1]);
            } else {
                assert(m.order@[widen(a, p)] != m.order@[p]);
            }
        }
        assert forall|a: int| 0 <= a < order.len() implies 0 <= #[trigger] order[a] < self.diffs@.len() by {
            assert(m.order@[widen(a, p)] < m.diffs@.len());
        }
        assert forall|a: int| 0 <= a < free.len() implies 0 <= #[trigger] free[a] < self.diffs@.len() by {
            if a > 0 {
                assert(m.free@[a - 1] < m.diffs@.len());
            }
        }
        assert forall|a: int|
            0 <= a < free.len() implies (#[trigger] self.diffs@[free[a]]).next_free_slot.0 == if a + 1 < free.len() {
                free[a + 1] as u16
            } else {
                NO_SLOT
            } by {
            if a > 0 {
                assert(m.diffs@[m.free@[a - 1]].next_free_slot.0 == if a < m.free@.len() {
                    m.free@[a] as u16
                } else {
                    NO_SLOT
                });
            }
        }
        assert forall|q2: int| 0 <= q2 < order.len() implies #[trigger] self.rd_at(q2) == m.rd_at(widen(q2, p)) by {
            assert(m.order@[widen(q2, p)] != slot);
        }
        assert forall|q2: int| 0 <= q2 < order.len() implies slot_ok(self.field_blocks@, #[trigger] self.rd_at(q2)) by {
            assert(self.rd_at(q2) == m.rd_at(widen(q2, p)));
            assert(slot_ok(g, m.rd_at(widen(q2, p))));
        }
        assert(self.wf_core());
        let npf = m.diffs@[slot].patched_fields@.len() as int;
        let rp = m.rd_at(p);
        assert(slot_ok(g, rp));
        assert forall|h: int| !#[trigger] m.lk(all_fields(), p, npf, p, h) by {
            if m.touches(p, h) {
                assert(idx_of(rp, h) < npf);
            }
        }
        assert forall|q2: int, h: int| 0 <= q2 < order.len() implies #[trigger] self.lk(all_fields(), -1, 0, q2, h)
            == m.lk(all_fields(), p, npf, widen(q2, p), h) by {
            assert(self.rd_at(q2) == m.rd_at(widen(q2, p)));
            assert(slot_ok(g, m.rd_at(widen(q2, p))));
            if m.touches(widen(q2, p), h) {
                assert(idx_of(m.rd_at(widen(q2, p)), h) < g.len());
            }
        }
        assert forall|r: int, h: int| 0 <= r < len && r != p implies #[trigger] self.ref_of(narrow(r, p), h) == m.ref_of(r, h) by {
            assert(widen(narrow(r, p), p) == r);
            assert(self.rd_at(narrow(r, p)) == m.rd_at(r));
        }
        assert forall|q2: int, i: int|
            0 <= q2 < order.len() && 0 <= i < self.rd_at(q2).patched_fields@.len() && self.lk(
                all_fields(),
                -1,
                0,
                q2,
                self.rd_at(q2).patched_fields@[i].field_start as int,
            ) implies {
                let pf = #[trigger] self.rd_at(q2).patched_fields@[i];
                let h = pf.field_start as int;
                &&& same_ref(pf.prev, self.ref_of(first_from(self.lt(all_fields(), -1, 0, h), order.len() as int, q2 + 1), h))
                &&& same_ref(pf.next, self.ref_of(last_upto(self.lt(all_fields(), -1, 0, h), q2 - 1), h))
            } by {
            let q = widen(q2, p);
            let pf = self.rd_at(q2).patched_fields@[i];
            let h = pf.field_start as int;
            assert(self.rd_at(q2) == m.rd_at(q));
            let t = m.lt(all_fields(), p, npf, h);
            let t2 = self.lt(all_fields(), -1, 0, h);
            assert forall|x: int| 0 <= x < len - 1 implies #[trigger] t2(x) == t(widen(x, p)) by {
                assert(self.lk(all_fields(), -1, 0, x, h) == m.lk(all_fields(), p, npf, widen(x, p), h));
            }
            assert(!t(p));
            lemma_shift(t, t2, len, p, q2);
            assert(m.lk(all_fields(), p, npf, q, h));
            lemma_first_range(t, len, q + 1);
            lemma_last_range(t, q - 1);
            let r = first_from(t, len, q + 1);
            let l = last_upto(t, q - 1);
            if r != -1 {
                assert(r != p);
                assert(self.ref_of(narrow(r, p), h) == m.ref_of(r, h));
            }
            if l != -1 {
                assert(l != p);
                assert(self.ref_of(narrow(l, p), h) == m.ref_of(l, h));
            }
        }
        assert forall|h: int| 0 <= h < g.len() implies same_ref(
            #[trigger] self.patched_field_heads@[h],
            self.ref_of(last_upto(self.lt(all_fields(), -1, 0, h), order.len() - 1), h),
        ) by {
            let t = m.lt(all_fields(), p, npf, h);
            let t2 = self.lt(all_fields(), -1, 0, h);
            assert forall|x: int| 0 <= x < len - 1 implies #[trigger] t2(x) == t(widen(x, p)) by {
                assert(self.lk(all_fields(), -1, 0, x, h) == m.lk(all_fields(), p, npf, widen(x, p), h));
            }
            assert(!t(p));
            lemma_shift_last(t, t2, len, p);
            lemma_last_range(t, len - 1);
            let l = last_upto(t, len - 1);
            if l != -1 {
                assert(l != p);
                assert(self.ref_of(narrow(l, p), h) == m.ref_of(l, h));
            }
        }
    }
}

impl LinkedListPatcher {
    proof fn lemma_rq_ok(&self, o: Self, p: int, live0: Seq<u32>, live: Seq<u32>, q: int)
        requires
            o.wf(),
            0 <= p < o.order@.len(),
            0 <= q < o.order@.len(),
            self.phase1(o, p, live0, live, o.rd_at(p).patched_fields@.len() as int, 0),
        ensures
            slot_ok(o.field_blocks@, self.rd_at(q)),
            forall|f: int| #[trigger] touched(self.rd_at(q), f) == touched(o.rd_at(q), f),
    {
        let g = o.field_blocks@;
        let rq = self.rd_at(q);
        let oq = o.rd_at(q);
        let rp = o.rd_at(p);
        let npf = rp.patched_fields@.len() as int;
        assert(rq.patched_fields@ == oq.patched_fields@);
        assert(slot_ok(g, oq));
        assert(slot_ok(g, rp));
        assert forall|f: int| #[trigger] touched(rq, f) == touched(oq, f) by {
            if touched(oq, f) {
                let i = idx_of(oq, f);
                assert(rq.patched_fields@[i].field_start == f);
            }
            if touched(rq, f) {
                let i = idx_of(rq, f);
                assert(oq.patched_fields@[i].field_start == f);
            }
        }
        assert forall|j: int| 0 <= j < g.len() && touched(rq, g[j].field_start as int) implies #[trigger] entry(g, rq, j)
            & !g[j].mask == 0 by {
            let fj = g[j].field_start as int;
            let eo = entry(g, oq, j);
            let m = g[j].mask;
            assert(eo & !m == 0);
            let add = if done_blk(g, rp, npf, 0, j) && q == o.above(p, fj) {
                entry(g, rp, j)
            } else {
                0
            };
            if done_blk(g, rp, npf, 0, j) {
                assert(entry(g, rp, j) & !m == 0);
            }
            assert(add & !m == 0) by {
                crate::bits::lemma_word(m);
            }
            assert(eo & !m == 0 && add & !m == 0 ==> (eo ^ add) & !m == 0) by (bit_vector);
        }
    }

    #[verifier::rlimit(100)]
    proof fn lemma_block_after(&self, o: Self, p: int, live0: Seq<u32>, live: Seq<u32>, q: int, w: int, j0: int)
        requires
            o.wf(),
            0 <= p < o.order@.len(),
            0 <= q < o.order@.len(),
            q != p,
            self.phase1(o, p, live0, live, o.rd_at(p).patched_fields@.len() as int, 0),
            slot_ok(o.field_blocks@, self.rd_at(q)),
            forall|f: int| #[trigger] touched(self.rd_at(q), f) == touched(o.rd_at(q), f),
            0 <= w < o.n_words,
            0 <= j0 < o.field_blocks@.len(),
            o.field_blocks@[j0].offset == w,
        ensures
            ({
                let v = slot_view(o.field_blocks@, self.rd_at(q), o.order@[q], o.n_words as nat);
                let target = if q < p {
                    o@[q]
                } else {
                    absorbed(o@, p, q)
                };
                let m0 = o.field_blocks@[j0].mask;
                &&& v.mask[w] & m0 == target.mask[w] & m0
                &&& v.diff[w] & m0 == target.diff[w] & m0
            }),
    {
        let g = o.field_blocks@;
        let n = o.n_words as nat;
        let len = o.order@.len() as int;
        let sv = o@;
        let rq = self.rd_at(q);
        let oq = o.rd_at(q);
        let rp = o.rd_at(p);
        let npf = rp.patched_fields@.len() as int;
        assert(slot_ok(g, oq));
        assert(slot_ok(g, rp));
        let f0 = g[j0].field_start as int;
        let m0 = g[j0].mask;
        let tp = o.lt(all_fields(), -1, 0, f0);
        let tq = |l: int| o.touches(l, f0);
        let big = o.above(p, f0);
        lemma_first_range(tp, len, p + 1);
        let ep = entry(g, rp, j0);
        let cond = touched(rp, f0) && q == big;
        if touched(rp, f0) {
            assert(idx_of(rp, f0) < npf);
        }
        if touched(oq, f0) {
            let iq = idx_of(oq, f0);
            lemma_idx_unique(rq, f0, iq);
            assert(done_blk(g, rp, npf, 0, j0) == touched(rp, f0));
            assert(entry(g, rq, j0) == entry(g, oq, j0) ^ if cond {
                ep
            } else {
                0
            });
        }
        if q > p {
            assert forall|l: int| p < l < q implies #[trigger] sv[l].mask[w] & m0 == if tq(l) {
                m0
            } else {
                0
            } by {
                assert(slot_ok(g, o.rd_at(l)));
                lemma_view_at_block(g, n, o.rd_at(l), o.order@[l], w, j0);
            }
            assert forall|x: int| p < x < len implies #[trigger] tp(x) == tq(x) by {
                assert(slot_ok(g, o.rd_at(x)));
                if o.touches(x, f0) {
                    assert(idx_of(o.rd_at(x), f0) < g.len());
                }
            }
            let any = any_between(tq, p, q);
            if touched(oq, f0) && touched(rp, f0) && !any {
                assert forall|x: int| p + 1 <= x < q implies !#[trigger] tp(x) by {
                    if tp(x) {
                        assert(tq(x));
                    }
                }
                assert(tp(q));
                lemma_first_is(tp, len, p + 1, q);
            }
            if big == q {
                assert(tp(q));
                if any {
                    let x = choose|x: int| p < x < q && #[trigger] tq(x);
                    assert(tp(x));
                }
            }
            assert(cond == (touched(oq, f0) && touched(rp, f0) && !any) || !touched(oq, f0));
        }
        lemma_block_math(g, n, sv, p, q, w, j0, rq, oq, rp, o.order@[q], o.order@[p], tq, cond);
    }

    /// The slot at position `q` of `self`, after its share of the restored patch at `p` was
    /// handed to it, is what the model says: unchanged below `p`, absorbed above.
    proof fn lemma_slot_after(&self, o: Self, p: int, live0: Seq<u32>, live: Seq<u32>, q: int)
        requires
            o.wf(),
            0 <= p < o.order@.len(),
            0 <= q < o.order@.len(),
            q != p,
            self.phase1(o, p, live0, live, o.rd_at(p).patched_fields@.len() as int, 0),
        ensures
            slot_view(o.field_blocks@, self.rd_at(q), o.order@[q], o.n_words as nat) == if q < p {
                o@[q]
            } else {
                absorbed(o@, p, q)
            },
    {
        let g = o.field_blocks@;
        let n = o.n_words as nat;
        self.lemma_rq_ok(o, p, live0, live, q);
        let v = slot_view(g, self.rd_at(q), o.order@[q], n);
        let target = if q < p {
            o@[q]
        } else {
            absorbed(o@, p, q)
        };
        assert forall|w: int| 0 <= w < n implies v.mask[w] == target.mask[w] && v.diff[w] == target.diff[w] by {
            assert forall|j0: int| 0 <= j0 < g.len() && g[j0].offset == w implies v.mask[w] & g[j0].mask
                == target.mask[w] & g[j0].mask && v.diff[w] & g[j0].mask == target.diff[w] & g[j0].mask by {
                self.lemma_block_after(o, p, live0, live, q, w, j0);
            }
            assert(slot_ok(g, o.rd_at(q)));
            assert(slot_ok(g, o.rd_at(p)));
            lemma_view_within(g, self.rd_at(q), o.order@[q], n, w);
            lemma_view_within(g, o.rd_at(q), o.order@[q], n, w);
            lemma_view_within(g, o.rd_at(p), o.order@[p], n, w);
            assert(o@[q] == slot_view(g, o.rd_at(q), o.order@[q], n));
            assert(o@[p] == slot_view(g, o.rd_at(p), o.order@[p], n));
            if q > p {
                let a = o@[q].diff[w];
                let d = o@[p].diff[w];
                let mm = o@[q].mask[w];
                let hh = hidden_between(o@, p, q, w);
                let ff = field_bits(g, w);
                assert(a & !ff == 0 && d & !ff == 0 ==> (a ^ (d & mm & !hh)) & !ff == 0) by (bit_vector);
            }
            lemma_eq_by_blocks(g, w, v.mask[w], target.mask[w]);
            lemma_eq_by_blocks(g, w, v.diff[w], target.diff[w]);
        }
        assert(v.mask =~= target.mask);
        assert(v.diff =~= target.diff);
    }
}

impl LinkedListPatcher {
    /// Live memory after every field of the patch at `p` was handed on is the model's.
    #[verifier::rlimit(100)]
    proof fn lemma_live_after(&self, o: Self, p: int, live0: Seq<u32>, live: Seq<u32>)
        requires
            o.wf(),
            0 <= p < o.order@.len(),
            live0.len() == o.n_words,
            self.phase1(o, p, live0, live, o.rd_at(p).patched_fields@.len() as int, 0),
        ensures
            live == restored_live(o@, p, live0),
    {
        let g = o.field_blocks@;
        let n = o.n_words as nat;
        let len = o.order@.len() as int;
        let sv = o@;
        let rp = o.rd_at(p);
        let npf = rp.patched_fields@.len() as int;
        assert(slot_ok(g, rp));
        assert(sv[p] == slot_view(g, rp, o.order@[p], n));
        let sel = o.residue_sel(p, npf, 0);
        let val = o.residue_val(p);
        assert forall|j: int| 0 <= j < g.len() implies #[trigger] val(j) & !g[j].mask == 0 by {
            crate::bits::lemma_pair(entry(g, rp, j), g[j].mask);
        }
        assert forall|w: int| 0 <= w < n implies live[w] == restored_live(sv, p, live0)[w] by {
            let u = union_where(g, w, g.len() as int, sel, val);
            let d = sv[p].diff[w];
            let h = hidden_between(sv, p, len, w);
            let r = d & !h;
            assert(live[w] == live0[w] ^ u);
            assert(restored_live(sv, p, live0)[w] == live0[w] ^ revealed(sv, p, w));
            assert(revealed(sv, p, w) == r);
            lemma_union_within(g, w, g.len() as int, sel, val);
            lemma_view_within(g, rp, o.order@[p], n, w);
            crate::bits::lemma_clear(d, h, field_bits(g, w));
            assert forall|j0: int| 0 <= j0 < g.len() && g[j0].offset == w implies u & g[j0].mask == r & g[j0].mask by {
                let f0 = g[j0].field_start as int;
                let m0 = g[j0].mask;
                let tp = o.lt(all_fields(), -1, 0, f0);
                let tq = |l: int| o.touches(l, f0);
                lemma_union_at_block(g, n, w, g.len() as int, sel, val, j0);
                lemma_view_at_block(g, n, rp, o.order@[p], w, j0);
                assert forall|l: int| p < l < len implies #[trigger] sv[l].mask[w] & m0 == if tq(l) {
                    m0
                } else {
                    0
                } by {
                    assert(slot_ok(g, o.rd_at(l)));
                    lemma_view_at_block(g, n, o.rd_at(l), o.order@[l], w, j0);
                }
                lemma_hidden_at_block(sv, p, len, w, m0, tq);
                crate::bits::lemma_clear(d, h, m0);
                assert forall|x: int| p < x < len implies #[trigger] tp(x) == tq(x) by {
                    assert(slot_ok(g, o.rd_at(x)));
                    if o.touches(x, f0) {
                        assert(idx_of(o.rd_at(x), f0) < g.len());
                    }
                }
                lemma_first_range(tp, len, p + 1);
                let any = any_between(tq, p, len);
                if o.above(p, f0) == -1 {
                    if any {
                        let x = choose|x: int| p < x < len && #[trigger] tq(x);
                        assert(tp(x));
                    }
                } else {
                    assert(tq(o.above(p, f0)));
                }
                let ep = entry(g, rp, j0);
                crate::bits::lemma_word(m0);
                crate::bits::lemma_word(0);
                crate::bits::lemma_pair(ep, m0);
                if touched(rp, f0) {
                    assert(idx_of(rp, f0) < npf);
                    assert(ep & !m0 == 0);
                    if any {
                        assert((d & m0) & !(h & m0) == ep & m0 & !m0);
                    } else {
                        assert((d & m0) & !(h & m0) == ep & m0 & !0u32);
                    }
                } else {
                    crate::bits::lemma_word(h & m0);
                    assert((d & m0) & !(h & m0) == 0 & !(h & m0));
                }
            }
            lemma_eq_by_blocks(g, w, u, r);
        }
        assert(live =~= restored_live(sv, p, live0));
    }
}

impl LinkedListPatcher {
    /// After the residues were handed on, the links still describe the stack.
    #[verifier::rlimit(100)]
    proof fn lemma_mid_ok(&self, o: Self, p: int, live0: Seq<u32>, live: Seq<u32>)
        requires
            o.wf(),
            0 <= p < o.order@.len(),
            self.phase1(o, p, live0, live, o.rd_at(p).patched_fields@.len() as int, 0),
        ensures
            self.wf_core(),
            self.chains_ok(all_fields(), p, 0),
    {
        let g = o.field_blocks@;
        let len = o.order@.len() as int;
        assert forall|q: int| 0 <= q < len implies slot_ok(self.field_blocks@, #[trigger] self.rd_at(q)) by {
            self.lemma_rq_ok(o, p, live0, live, q);
        }
        let free = self.free@;
        assert forall|a: int|
            0 <= a < free.len() implies (#[trigger] self.diffs@[free[a]]).next_free_slot.0 == if a + 1 < free.len() {
                free[a + 1] as u16
            } else {
                NO_SLOT
            } by {
            assert(self.diffs@[free[a]].next_free_slot == o.diffs@[free[a]].next_free_slot);
        }
        assert(self.wf_core());
        assert forall|q: int, h: int| 0 <= q < len implies #[trigger] self.lk(all_fields(), p, 0, q, h) == o.lk(all_fields(), -1, 0, q, h)
            && (o.touches(q, h) ==> self.ref_of(q, h) == o.ref_of(q, h)) by {
            let rq = self.rd_at(q);
            let oq = o.rd_at(q);
            assert(rq.patched_fields@ == oq.patched_fields@);
            assert(slot_ok(g, oq));
            assert(touched(rq, h) == touched(oq, h)) by {
                if touched(oq, h) {
                    let i = idx_of(oq, h);
                    assert(rq.patched_fields@[i].field_start == h);
                }
                if touched(rq, h) {
                    let i = idx_of(rq, h);
                    assert(oq.patched_fields@[i].field_start == h);
                }
            }
            if touched(oq, h) {
                let i = idx_of(oq, h);
                lemma_idx_unique(rq, h, i);
                assert(i < g.len());
            }
        }
        assert forall|q: int, i: int|
            0 <= q < len && 0 <= i < self.rd_at(q).patched_fields@.len() && self.lk(
                all_fields(),
                p,
                0,
                q,
                self.rd_at(q).patched_fields@[i].field_start as int,
            ) implies {
                let pf = #[trigger] self.rd_at(q).patched_fields@[i];
                let h = pf.field_start as int;
                &&& same_ref(pf.prev, self.ref_of(first_from(self.lt(all_fields(), p, 0, h), len, q + 1), h))
                &&& same_ref(pf.next, self.ref_of(last_upto(self.lt(all_fields(), p, 0, h), q - 1), h))
            } by {
            let pf = self.rd_at(q).patched_fields@[i];
            let h = pf.field_start as int;
            assert(self.rd_at(q).patched_fields@ == o.rd_at(q).patched_fields@);
            let tn = self.lt(all_fields(), p, 0, h);
            let to = o.lt(all_fields(), -1, 0, h);
            assert forall|x: int| 0 <= x < len implies #[trigger] tn(x) == to(x) by {
                assert(self.lk(all_fields(), p, 0, x, h) == o.lk(all_fields(), -1, 0, x, h));
            }
            assert(o.lk(all_fields(), -1, 0, q, h));
            lemma_first_agree(tn, to, len, q + 1);
            lemma_last_agree(tn, to, q - 1);
            lemma_first_range(to, len, q + 1);
            lemma_last_range(to, q - 1);
            let r = first_from(to, len, q + 1);
            let l = last_upto(to, q - 1);
            if r != -1 {
                assert(o.lk(all_fields(), -1, 0, r, h));
            }
            if l != -1 {
                assert(o.lk(all_fields(), -1, 0, l, h));
            }
        }
        assert forall|h: int| 0 <= h < g.len() implies same_ref(
            #[trigger] self.patched_field_heads@[h],
            self.ref_of(last_upto(self.lt(all_fields(), p, 0, h), len - 1), h),
        ) by {
            let tn = self.lt(all_fields(), p, 0, h);
            let to = o.lt(all_fields(), -1, 0, h);
            assert forall|x: int| 0 <= x < len implies #[trigger] tn(x) == to(x) by {
                assert(self.lk(all_fields(), p, 0, x, h) == o.lk(all_fields(), -1, 0, x, h));
            }
            lemma_last_agree(tn, to, len - 1);
            lemma_last_range(to, len - 1);
            let l = last_upto(to, len - 1);
            if l != -1 {
                assert(o.lk(all_fields(), -1, 0, l, h));
            }
        }
    }

    /// Restores the patch with id `id` into `live_memory`.
    ///
    /// Each field of the patch goes to the nearest patch above that touches the same field,
    /// which takes the field's XOR over; a field that no patch above touches is set back in
    /// live memory. The id is no longer valid afterwards and its slot is reused.
    pub fn restore_patch(&mut self, id: usize, live_memory: &mut [u32])
        requires
            old(self).wf(),
            has_id(old(self)@, id),
            old(live_memory)@.len() == old(self).n_words(),
        ensures
            final(self).wf(),
            stack_wf(final(self)@, final(self).geometry(), final(self).n_words()),
            within_slots(final(self)@),
            final(self).geometry() == old(self).geometry(),
            final(self).n_words() == old(self).n_words(),
            final(self)@ == restored(old(self)@, index_of_id(old(self)@, id)),
            final(live_memory)@ == restored_live(
                old(self)@,
                index_of_id(old(self)@, id),
                old(live_memory)@,
            ),
            forall|w: int|
                0 <= w < old(live_memory)@.len() ==> (#[trigger] final(live_memory)@[w] ^ old(live_memory)@[w])
                    & !field_bits(old(self).geometry(), w) == 0,
            forall|w: int|
                0 <= w < old(live_memory)@.len() ==> (#[trigger] final(live_memory)@[w] ^ old(live_memory)@[w])
                    & !old(self)@[index_of_id(old(self)@, id)].mask[w] == 0,
            zero_diff(old(self)@[index_of_id(old(self)@, id)]) ==> final(live_memory)@ == old(live_memory)@
                && final(self)@ == old(self)@.remove(index_of_id(old(self)@, id)),
            forall|k: int|
                0 <= k < old(self)@.len() && k != index_of_id(old(self)@, id) && #[trigger] empty_patch(old(self)@[k])
                    ==> empty_patch(
                    final(self)@[if k < index_of_id(old(self)@, id) {
                        k
                    } else {
                        k - 1
                    }],
                ),
    {
        let ghost o = *self;
        let ghost live0 = live_memory@;
        let ghost p = index_of_id(o@, id);
        let ghost len = o.order@.len() as int;
        let ghost g = o.field_blocks@;
        proof {
            let k = choose|k: int| 0 <= k < o@.len() && o@[k].id == id;
            assert(o@[p].id == id);
            assert(o.order@[p] < o.diffs@.len());
            assert(o.order@[p] as usize == id);
        }
        let slot = id;
        let npf = self.diffs[slot].patched_fields.len();
        proof {
            assert(o.rd_at(p) == o.diffs@[slot as int]);
            let sel = o.residue_sel(p, 0, 0);
            assert forall|j: int| 0 <= j < g.len() implies !#[trigger] sel(j) by {}
            assert forall|w: int| 0 <= w < o.n_words implies #[trigger] live0[w] == live0[w] ^ union_where(
                g,
                w,
                g.len() as int,
                o.residue_sel(p, 0, 0),
                o.residue_val(p),
            ) by {
                lemma_union_none(g, w, g.len() as int, sel, o.residue_val(p));
                crate::bits::lemma_word(live0[w]);
            }
            assert forall|q: int, j: int|
                0 <= q < len && 0 <= j < g.len() && touched(o.rd_at(q), g[j].field_start as int)
                    implies #[trigger] entry(g, o.rd_at(q), j) == entry(g, o.rd_at(q), j) ^ if done_blk(g, o.rd_at(p), 0, 0, j)
                    && q == o.above(p, g[j].field_start as int) {
                    entry(g, o.rd_at(p), j)
                } else {
                    0
                } by {
                crate::bits::lemma_word(entry(g, o.rd_at(q), j));
            }
            assert(self.phase1(o, p, live0, live_memory@, 0, 0));
        }
        let mut t: usize = 0;
        while t < npf
            invariant
                o.wf(),
                0 <= p < o.order@.len(),
                slot == o.order@[p],
                npf == o.diffs@[slot as int].patched_fields@.len(),
                t <= npf,
                self.phase1(o, p, live0, live_memory@, t as int, 0),
            decreases npf - t,
        {
            self.apply_field(Ghost(o), Ghost(p), Ghost(live0), slot, t, live_memory);
            t += 1;
        }
        let ghost mid = *self;
        proof {
            assert(o.rd_at(p).patched_fields@.len() == npf);
            self.lemma_mid_ok(o, p, live0, live_memory@);
            self.lemma_live_after(o, p, live0, live_memory@);
        }
        t = 0;
        while t < npf
            invariant
                self.wf_core(),
                0 <= p < self.order@.len(),
                slot == self.order@[p],
                npf == self.diffs@[slot as int].patched_fields@.len(),
                t <= npf,
                self.chains_ok(all_fields(), p, t as int),
                self.order == mid.order,
                self.free == mid.free,
                self.field_blocks == mid.field_blocks,
                self.n_words == mid.n_words,
                self.free_list_head == mid.free_list_head,
                self.diffs@.len() == mid.diffs@.len(),
                forall|x: int| 0 <= x < mid.diffs@.len() ==> same_fields(#[trigger] self.diffs@[x], mid.diffs@[x]),
                forall|x: int| 0 <= x < mid.diffs@.len() ==> #[trigger] self.diffs@[x].next_free_slot == mid.diffs@[x].next_free_slot,
            decreases npf - t,
        {
            let ghost before = *self;
            self.unlink_one(Ghost(p), slot, t);
            proof {
                assert forall|x: int| 0 <= x < mid.diffs@.len() implies same_fields(#[trigger] self.diffs@[x], mid.diffs@[x]) by {
                    assert(same_fields(self.diffs@[x], before.diffs@[x]));
                    assert(same_fields(before.diffs@[x], mid.diffs@[x]));
                    let a = self.diffs@[x];
                    let c = mid.diffs@[x];
                    assert forall|i: int| 0 <= i < a.patched_fields@.len() implies (#[trigger] a.patched_fields@[i]).field_start
                        == c.patched_fields@[i].field_start && a.patched_fields@[i].diff_start
                        == c.patched_fields@[i].diff_start by {
                        assert(before.diffs@[x].patched_fields@[i].field_start == c.patched_fields@[i].field_start);
                    }
                }
            }
            t += 1;
        }
        let ghost m = *self;
        self.diffs[slot].next_free_slot = self.free_list_head;
        self.free_list_head = RowDiffId(slot as u16);
        self.free = Ghost(seq![slot as int].add(self.free@));
        self.order = Ghost(self.order@.remove(p));
        proof {
            self.lemma_removed(m, p, slot as int);
            let sv = o@;
            assert forall|q2: int| 0 <= q2 < len - 1 implies #[trigger] self@[q2] == restored(sv, p)[q2] by {
                let q = widen(q2, p);
                let x = o.order@[q];
                assert(self.order@[q2] == x);
                assert(x != slot);
                assert(self.diffs@[x] == m.diffs@[x]);
                assert(same_fields(m.diffs@[x], mid.diffs@[x]));
                mid.lemma_rq_ok(o, p, live0, live_memory@, q);
                assert(slot_ok(g, mid.rd_at(q)));
                lemma_same_fields(g, mid.diffs@[x], m.diffs@[x], x, o.n_words as nat);
                mid.lemma_slot_after(o, p, live0, live_memory@, q);
            }
            assert(self@ =~= restored(sv, p));
            self.lemma_view_wf();
            o.lemma_view_wf();
            lemma_restore_facts(g, sv, p, live0, o.n_words as nat);
        }
    }
}

impl LinkedListPatcher {
    /// A well-formed patcher's stack is well formed and fits the slot table.
    pub proof fn lemma_view_wf(&self)
        requires
            self.wf(),
        ensures
            stack_wf(self@, self.geometry(), self.n_words()),
            within_slots(self@),
    {
        assert forall|k: int| 0 <= k < self@.len() implies #[trigger] self@[k].id < NO_SLOT by {
            assert(self.order@[k] < self.diffs@.len());
        }
        let g = self.field_blocks@;
        let n = self.n_words as nat;
        assert forall|k: int, w: int| 0 <= k < self@.len() && 0 <= w < n implies #[trigger] self@[k].diff[w]
            & !self@[k].mask[w] == 0 && self@[k].mask[w] & !field_bits(g, w) == 0 by {
            let rd = self.rd_at(k);
            lemma_diff_in_mask(g, rd, w, g.len() as int);
            lemma_view_within(g, rd, self.order@[k], n, w);
        }
        assert forall|a: int, b: int| 0 <= a < self@.len() && 0 <= b < self@.len() && a != b implies self@[a].id
            != self@[b].id by {
            assert(self.order@[a] != self.order@[b]);
            assert(self.order@[a] < self.diffs@.len() && self.order@[b] < self.diffs@.len());
        }
    }
}

impl View for LinkedListPatcher {
    type V = Seq<PatchView>;

    closed spec fn view(&self) -> Seq<PatchView> {
        Seq::new(
            self.order@.len(),
            |p: int|
                slot_view(self.field_blocks@, self.diffs@[self.order@[p]], self.order@[p], self.n_words as nat),
        )
    }
}

impl RowPatcher for LinkedListPatcher {
    open spec fn patches(&self) -> Seq<PatchView> {
        self@
    }

    open spec fn layout(&self) -> Seq<FieldBlock> {
        self.geometry()
    }

    open spec fn row_words(&self) -> nat {
        self.n_words()
    }

    open spec fn valid(&self) -> bool {
        self.wf()
    }

    open spec fn full(&self) -> bool {
        self@.len() >= NO_SLOT
    }

    fn new_patcher(field_blocks: &[FieldBlock], row_size: usize) -> (r: Self) {
        LinkedListPatcher::new(field_blocks, row_size)
    }

    fn record(&mut self, before: &[u32], after: &[u32]) -> (r: Option<usize>) {
        self.create_patch(before, after)
    }

    fn restore(&mut self, id: usize, live_memory: &mut [u32]) {
        self.restore_patch(id, live_memory)
    }
}

} // verus!
