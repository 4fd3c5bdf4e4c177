//! The abstract meaning of a patch stack, shared by every patcher.
//!
//! A patch is seen densely: for each word of the row, the bits it owns (`mask`) and the
//! XOR that undoing it applies to those bits (`diff`). Restoring patch `i` applies the
//! part of its diff that no later patch covers to live memory, and hands each covered bit
//! to the lowest later patch that covers it.
use crate::geometry::{
    block_changed, changed_bits, changed_bits_upto, field_bits, field_bits_upto, field_changed,
    wf_geometry, FieldBlock,
};
use vstd::prelude::*;

verus! {

/// The dense view of one patch on the stack.
pub struct PatchView {
    pub id: usize,
    pub mask: Seq<u32>,
    pub diff: Seq<u32>,
}

/// The patch that `create_patch(before, after)` records, under id `id`.
pub open spec fn new_patch(g: Seq<FieldBlock>, before: Seq<u32>, after: Seq<u32>, id: usize) -> PatchView {
    PatchView {
        id,
        mask: Seq::new(before.len(), |w: int| changed_bits(g, before, after, w)),
        diff: Seq::new(before.len(), |w: int| (before[w] ^ after[w]) & changed_bits(g, before, after, w)),
    }
}

/// Union, in word `w`, of the masks of the patches strictly between `i` and `k`.
pub open spec fn hidden_between(s: Seq<PatchView>, i: int, k: int, w: int) -> u32
    decreases k - i,
{
    if k <= i + 1 {
        0
    } else {
        hidden_between(s, i, k - 1, w) | s[k - 1].mask[w]
    }
}

/// Patch `k` after patch `i` below it was restored: it takes over the bits of `i`'s diff
/// that it is the lowest to cover.
pub open spec fn absorbed(s: Seq<PatchView>, i: int, k: int) -> PatchView {
    PatchView {
        id: s[k].id,
        mask: s[k].mask,
        diff: Seq::new(
            s[k].diff.len(),
            |w: int| s[k].diff[w] ^ (s[i].diff[w] & s[k].mask[w] & !hidden_between(s, i, k, w)),
        ),
    }
}

/// The stack after restoring the patch at index `i`.
pub open spec fn restored(s: Seq<PatchView>, i: int) -> Seq<PatchView> {
    Seq::new((s.len() - 1) as nat, |l: int| if l < i { s[l] } else { absorbed(s, i, l + 1) })
}

/// The bits of word `w` that restoring patch `i` writes to live memory.
pub open spec fn revealed(s: Seq<PatchView>, i: int, w: int) -> u32 {
    s[i].diff[w] & !hidden_between(s, i, s.len() as int, w)
}

/// Live memory after restoring the patch at index `i`.
pub open spec fn restored_live(s: Seq<PatchView>, i: int, live: Seq<u32>) -> Seq<u32> {
    Seq::new(live.len(), |w: int| live[w] ^ revealed(s, i, w))
}

/// The number of words of a mask with at least one bit set.
pub open spec fn words_touched(mask: Seq<u32>) -> nat
    decreases mask.len(),
{
    if mask.len() == 0 {
        0
    } else {
        words_touched(mask.drop_last()) + if mask.last() != 0 {
            1nat
        } else {
            0nat
        }
    }
}

/// The ids on the stack are pairwise distinct.
pub open spec fn ids_unique(s: Seq<PatchView>) -> bool {
    forall|a: int, b: int| 0 <= a < s.len() && 0 <= b < s.len() && a != b ==> s[a].id != s[b].id
}

/// Some patch on the stack has id `id`.
pub open spec fn has_id(s: Seq<PatchView>, id: usize) -> bool {
    exists|k: int| 0 <= k < s.len() && s[k].id == id
}

/// The index of the patch with id `id`.
pub open spec fn index_of_id(s: Seq<PatchView>, id: usize) -> int {
    choose|k: int| 0 <= k < s.len() && s[k].id == id
}

/// Every patch has one mask and one diff word per row word, each diff lies inside its
/// mask, each mask inside the bits of the geometry's fields, and the ids are distinct.
pub open spec fn stack_wf(s: Seq<PatchView>, g: Seq<FieldBlock>, n: nat) -> bool {
    &&& ids_unique(s)
    &&& forall|k: int| 0 <= k < s.len() ==> (#[trigger] s[k]).mask.len() == n && s[k].diff.len() == n
    &&& forall|k: int, w: int|
        0 <= k < s.len() && 0 <= w < n ==> #[trigger] s[k].diff[w] & !s[k].mask[w] == 0
            && s[k].mask[w] & !field_bits(g, w) == 0
}

/// Word `w` of the row obtained from `base` when the patches `s[0..k]`, in creation order,
/// each set the bits of their mask to their target row in `t`.
pub open spec fn shown(base: Seq<u32>, s: Seq<PatchView>, t: Seq<Seq<u32>>, k: int, w: int) -> u32
    decreases k,
{
    if k <= 0 {
        base[w]
    } else {
        (shown(base, s, t, k - 1, w) & !s[k - 1].mask[w]) | (t[k - 1][w] & s[k - 1].mask[w])
    }
}

/// The stack `s` records, over `base`, the patches whose target rows are `t`: each diff
/// undoes its patch's writes over the row shown just below it.
pub open spec fn tracks(base: Seq<u32>, s: Seq<PatchView>, t: Seq<Seq<u32>>, n: nat) -> bool {
    &&& t.len() == s.len()
    &&& forall|k: int, w: int|
        0 <= k < s.len() && 0 <= w < n ==> #[trigger] s[k].diff[w] == (shown(base, s, t, k, w)
            ^ t[k][w]) & s[k].mask[w]
}

proof fn lemma_shown_prefix(base: Seq<u32>, s1: Seq<PatchView>, t1: Seq<Seq<u32>>, s2: Seq<PatchView>, t2: Seq<Seq<u32>>, k: int, w: int)
    requires
        0 <= k,
        k <= s1.len(),
        k <= s2.len(),
        k <= t1.len(),
        k <= t2.len(),
        forall|l: int| 0 <= l < k ==> (#[trigger] s1[l]).mask[w] == s2[l].mask[w] && t1[l][w] == t2[l][w],
    ensures
        shown(base, s1, t1, k, w) == shown(base, s2, t2, k, w),
    decreases k,
{
    if k > 0 {
        lemma_shown_prefix(base, s1, t1, s2, t2, k - 1, w);
    }
}

proof fn lemma_shown_after_restore(base: Seq<u32>, s: Seq<PatchView>, t: Seq<Seq<u32>>, i: int, k: int, w: int, n: nat)
    requires
        tracks(base, s, t, n),
        0 <= w < n,
        0 <= i < k <= s.len(),
        forall|l: int| 0 <= l < s.len() ==> (#[trigger] s[l]).mask.len() == n && s[l].diff.len() == n,
    ensures
        shown(base, restored(s, i), t.remove(i), k - 1, w) == shown(base, s, t, k, w) ^ (
        s[i].diff[w] & !hidden_between(s, i, k, w)),
    decreases k,
{
    let s2 = restored(s, i);
    let t2 = t.remove(i);
    if k == i + 1 {
        lemma_shown_prefix(base, s2, t2, s, t, i, w);
        let v = shown(base, s, t, i, w);
        let m = s[i].mask[w];
        let tt = t[i][w];
        assert(s[i].diff[w] == (v ^ tt) & m);
        assert(v == ((v & !m) | (tt & m)) ^ (((v ^ tt) & m) & !0u32)) by (bit_vector);
    } else {
        lemma_shown_after_restore(base, s, t, i, k - 1, w, n);
        let v = shown(base, s, t, k - 1, w);
        let d = s[i].diff[w];
        let h = hidden_between(s, i, k - 1, w);
        let m = s[k - 1].mask[w];
        let tt = t[k - 1][w];
        assert(s2[k - 2] == absorbed(s, i, k - 1));
        assert(t2[k - 2][w] == tt);
        assert(hidden_between(s, i, k, w) == h | m);
        assert(((v ^ (d & !h)) & !m) | (tt & m) == ((v & !m) | (tt & m)) ^ (d & !(h | m)))
            by (bit_vector);
    }
}

/// Restoring any patch keeps the stack faithful to the patches that remain, and leaves live
/// memory equal to `base` with only the remaining patches applied, in creation order.
/// By induction, any order of restores leaves exactly the patches not yet restored visible.
pub proof fn lemma_restore_keeps_visible(
    base: Seq<u32>,
    s: Seq<PatchView>,
    t: Seq<Seq<u32>>,
    i: int,
    live: Seq<u32>,
    n: nat,
)
    requires
        base.len() == n,
        live.len() == n,
        forall|l: int| 0 <= l < s.len() ==> (#[trigger] s[l]).mask.len() == n && s[l].diff.len() == n,
        tracks(base, s, t, n),
        forall|w: int| 0 <= w < n ==> live[w] == shown(base, s, t, s.len() as int, w),
        0 <= i < s.len(),
    ensures
        tracks(base, restored(s, i), t.remove(i), n),
        restored_live(s, i, live).len() == n,
        forall|w: int|
            0 <= w < n ==> restored_live(s, i, live)[w] == shown(
                base,
                restored(s, i),
                t.remove(i),
                s.len() - 1,
                w,
            ),
{
    let s2 = restored(s, i);
    let t2 = t.remove(i);
    assert forall|k: int, w: int| 0 <= k < s2.len() && 0 <= w < n implies #[trigger] s2[k].diff[w]
        == (shown(base, s2, t2, k, w) ^ t2[k][w]) & s2[k].mask[w] by {
        if k < i {
            lemma_shown_prefix(base, s2, t2, s, t, k, w);
            assert(s2[k] == s[k]);
        } else {
            lemma_shown_after_restore(base, s, t, i, k + 1, w, n);
            let v = shown(base, s, t, k + 1, w);
            let d = s[i].diff[w];
            let h = hidden_between(s, i, k + 1, w);
            let m = s[k + 1].mask[w];
            let tt = t[k + 1][w];
            assert(s2[k] == absorbed(s, i, k + 1));
            assert(s[k + 1].diff[w] == (v ^ tt) & m);
            assert(((v ^ (d & !h)) ^ tt) & m == ((v ^ tt) & m) ^ (d & m & !h)) by (bit_vector);
        }
    }
    assert forall|w: int| 0 <= w < n implies restored_live(s, i, live)[w] == shown(
        base,
        s2,
        t2,
        s.len() - 1,
        w,
    ) by {
        lemma_shown_after_restore(base, s, t, i, s.len() as int, w, n);
    }
}

proof fn lemma_mask_in_changed(g: Seq<FieldBlock>, before: Seq<u32>, after: Seq<u32>, w: int, j: int, k: int)
    requires
        0 <= j < k <= g.len(),
        g[j].offset == w,
        field_changed(g, before, after, g[j].field_start as int),
    ensures
        g[j].mask & !changed_bits_upto(g, before, after, w, k) == 0,
    decreases k,
{
    let m = g[j].mask;
    if k == j + 1 {
        let c = changed_bits_upto(g, before, after, w, j);
        crate::bits::lemma_pair(c, m);
    } else {
        lemma_mask_in_changed(g, before, after, w, j, k - 1);
        let c = changed_bits_upto(g, before, after, w, k - 1);
        let m2 = g[k - 1].mask;
        assert(m & !c == 0 ==> m & !(c | m2) == 0) by (bit_vector);
    }
}

proof fn lemma_edit_within_changed(g: Seq<FieldBlock>, before: Seq<u32>, after: Seq<u32>, w: int, k: int)
    requires
        0 <= k <= g.len(),
        forall|j: int| 0 <= j < g.len() ==> (g[j].offset as int) < before.len() && (g[j].offset as int) < after.len(),
    ensures
        (before[w] ^ after[w]) & field_bits_upto(g, w, k) & !changed_bits(g, before, after, w) == 0,
    decreases k,
{
    let x = before[w] ^ after[w];
    let c = changed_bits(g, before, after, w);
    if k == 0 {
        assert(x & 0u32 & !c == 0) by (bit_vector);
    } else {
        lemma_edit_within_changed(g, before, after, w, k - 1);
        let f = field_bits_upto(g, w, k - 1);
        let m = g[k - 1].mask;
        if g[k - 1].offset == w {
            if block_changed(g, before, after, k - 1) {
                lemma_mask_in_changed(g, before, after, w, k - 1, g.len() as int);
                assert(x & f & !c == 0 && m & !c == 0 ==> x & (f | m) & !c == 0) by (bit_vector);
            } else {
                assert(x & m == 0);
                assert(x & f & !c == 0 && x & m == 0 ==> x & (f | m) & !c == 0) by (bit_vector);
            }
        }
    }
}

/// Creating a patch for an edit of live memory from `before` to `after`, where `before` is
/// what the stack shows and the edit touches field bits only, keeps the stack faithful:
/// the new patch's target is `after`, and writing `after` shows exactly the extended stack.
pub proof fn lemma_create_keeps_visible(
    g: Seq<FieldBlock>,
    base: Seq<u32>,
    s: Seq<PatchView>,
    t: Seq<Seq<u32>>,
    before: Seq<u32>,
    after: Seq<u32>,
    id: usize,
    n: nat,
)
    requires
        base.len() == n,
        before.len() == n,
        after.len() == n,
        forall|j: int| 0 <= j < g.len() ==> (g[j].offset as nat) < n,
        tracks(base, s, t, n),
        forall|w: int| 0 <= w < n ==> before[w] == shown(base, s, t, s.len() as int, w),
        forall|w: int| 0 <= w < n ==> (before[w] ^ after[w]) & !field_bits(g, w) == 0,
    ensures
        tracks(base, s.push(new_patch(g, before, after, id)), t.push(after), n),
        forall|w: int|
            0 <= w < n ==> after[w] == shown(
                base,
                s.push(new_patch(g, before, after, id)),
                t.push(after),
                s.len() + 1 as int,
                w,
            ),
{
    let p = new_patch(g, before, after, id);
    let s2 = s.push(p);
    let t2 = t.push(after);
    assert forall|k: int, w: int| 0 <= k < s2.len() && 0 <= w < n implies #[trigger] s2[k].diff[w]
        == (shown(base, s2, t2, k, w) ^ t2[k][w]) & s2[k].mask[w] by {
        lemma_shown_prefix(base, s2, t2, s, t, k, w);
        if k == s.len() {
            assert(s2[k] == p);
        } else {
            assert(s2[k] == s[k]);
        }
    }
    assert forall|w: int| 0 <= w < n implies after[w] == shown(base, s2, t2, s.len() + 1 as int, w) by {
        lemma_shown_prefix(base, s2, t2, s, t, s.len() as int, w);
        lemma_edit_within_changed(g, before, after, w, g.len() as int);
        let x = before[w] ^ after[w];
        let f = field_bits(g, w);
        let c = changed_bits(g, before, after, w);
        let b = before[w];
        let a = after[w];
        assert(s2[s.len() as int] == p);
        assert(x == b ^ a && x & !f == 0 && x & f & !c == 0 ==> (b & !c) | (a & c) == a)
            by (bit_vector);
    }
}

/// Round trip: on a row `r`, patching `r` into `after` (an edit of field bits only),
/// writing `after` and then restoring the patch gives back `r`, bit for bit.
pub proof fn lemma_round_trip(g: Seq<FieldBlock>, r: Seq<u32>, after: Seq<u32>, id: usize, n: nat)
    requires
        r.len() == n,
        after.len() == n,
        forall|j: int| 0 <= j < g.len() ==> (g[j].offset as nat) < n,
        forall|w: int| 0 <= w < n ==> (r[w] ^ after[w]) & !field_bits(g, w) == 0,
    ensures
        restored_live(seq![new_patch(g, r, after, id)], 0, after) == r,
{
    let s0 = Seq::<PatchView>::empty();
    let t0 = Seq::<Seq<u32>>::empty();
    lemma_create_keeps_visible(g, r, s0, t0, r, after, id, n);
    let s1 = s0.push(new_patch(g, r, after, id));
    let t1 = t0.push(after);
    assert(s1 =~= seq![new_patch(g, r, after, id)]);
    lemma_restore_keeps_visible(r, s1, t1, 0, after, n);
    assert(restored_live(s1, 0, after) =~= r);
}

proof fn lemma_no_change(g: Seq<FieldBlock>, x: Seq<u32>, w: int, k: int)
    requires
        0 <= k <= g.len(),
    ensures
        changed_bits_upto(g, x, x, w, k) == 0,
    decreases k,
{
    if k > 0 {
        lemma_no_change(g, x, w, k - 1);
        if field_changed(g, x, x, g[k - 1].field_start as int) {
            let j = choose|j: int|
                0 <= j < g.len() && g[j].field_start == g[k - 1].field_start && block_changed(
                    g,
                    x,
                    x,
                    j,
                );
            let v = x[g[j].offset as int];
            let m = g[j].mask;
            crate::bits::lemma_pair(v, m);
        }
    }
}

/// The patch undoes nothing: its diff is zero in every word.
pub open spec fn zero_diff(p: PatchView) -> bool {
    forall|w: int| 0 <= w < p.diff.len() ==> #[trigger] p.diff[w] == 0
}

/// The patch owns no bit and undoes nothing.
pub open spec fn empty_patch(p: PatchView) -> bool {
    &&& zero_diff(p)
    &&& forall|w: int| 0 <= w < p.mask.len() ==> #[trigger] p.mask[w] == 0
}

/// Restoring a patch whose diff is zero changes nothing: live memory stays as it is and the
/// other patches stay as they were.
pub proof fn lemma_zero_diff_inert(s: Seq<PatchView>, i: int, live: Seq<u32>, n: nat)
    requires
        0 <= i < s.len(),
        zero_diff(s[i]),
        live.len() == n,
        forall|l: int| 0 <= l < s.len() ==> (#[trigger] s[l]).mask.len() == n && s[l].diff.len() == n,
    ensures
        restored_live(s, i, live) == live,
        restored(s, i) == s.remove(i),
{
    assert forall|w: int| 0 <= w < n implies restored_live(s, i, live)[w] == live[w] by {
        assert(s[i].diff[w] == 0);
        let h = hidden_between(s, i, s.len() as int, w);
        let v = live[w];
        crate::bits::lemma_word(h);
        crate::bits::lemma_word(v);
    }
    assert(restored_live(s, i, live) =~= live);
    assert forall|l: int| 0 <= l < s.len() - 1 implies #[trigger] restored(s, i)[l] == s.remove(i)[l] by {
        if l >= i {
            let a = absorbed(s, i, l + 1);
            assert forall|w: int| 0 <= w < n implies a.diff[w] == s[l + 1].diff[w] by {
                assert(s[i].diff[w] == 0);
                let h = hidden_between(s, i, l + 1, w);
                let e = s[l + 1].diff[w];
                let m = s[l + 1].mask[w];
                crate::bits::lemma_word(m);
                crate::bits::lemma_word(h);
                crate::bits::lemma_word(e);
                crate::bits::lemma_pair(0, h);
            }
            assert(a.diff =~= s[l + 1].diff);
        }
    }
    assert(restored(s, i) =~= s.remove(i));
}

/// A patch created from a row to itself owns no bit and undoes nothing.
pub proof fn lemma_identity_patch_empty(g: Seq<FieldBlock>, x: Seq<u32>, id: usize)
    ensures
        empty_patch(new_patch(g, x, x, id)),
{
    let p = new_patch(g, x, x, id);
    assert forall|w: int| 0 <= w < x.len() implies #[trigger] p.mask[w] == 0 && p.diff[w] == 0 by {
        lemma_no_change(g, x, w, g.len() as int);
        crate::bits::lemma_word(x[w]);
    }
    assert forall|w: int| 0 <= w < p.diff.len() implies #[trigger] p.diff[w] == 0 by {
        assert(p.mask[w] == 0 && p.diff[w] == 0);
    }
}

/// Restoring another patch leaves an empty patch empty: it covers no bit, so it takes over
/// nothing.
pub proof fn lemma_empty_stays_empty(s: Seq<PatchView>, i: int, k: int)
    requires
        0 <= i < s.len(),
        0 <= k < s.len(),
        k != i,
        empty_patch(s[k]),
        s[k].diff.len() == s[k].mask.len(),
    ensures
        empty_patch(restored(s, i)[if k < i { k } else { k - 1 }]),
{
    if k > i {
        let a = absorbed(s, i, k);
        assert forall|w: int| 0 <= w < a.diff.len() implies #[trigger] a.diff[w] == 0 by {
            assert(s[k].diff[w] == 0 && s[k].mask[w] == 0);
            let h = hidden_between(s, i, k, w);
            let d = s[i].diff[w];
            crate::bits::lemma_word(d);
            crate::bits::lemma_word(0);
            crate::bits::lemma_pair(0, h);
            assert(d & 0 == 0);
            assert(0u32 & !h == 0);
        }
    }
}

/// A patch created from a row to itself changes nothing when restored: live memory and
/// the other patches stay as they were.
pub proof fn lemma_identity_patch_inert(
    g: Seq<FieldBlock>,
    s: Seq<PatchView>,
    i: int,
    x: Seq<u32>,
    id: usize,
    live: Seq<u32>,
)
    requires
        0 <= i < s.len(),
        s[i] == new_patch(g, x, x, id),
        live.len() == x.len(),
        forall|l: int| 0 <= l < s.len() ==> (#[trigger] s[l]).mask.len() == x.len() && s[l].diff.len() == x.len(),
    ensures
        restored_live(s, i, live) == live,
        restored(s, i) == s.remove(i),
{
    lemma_identity_patch_empty(g, x, id);
    lemma_zero_diff_inert(s, i, live, x.len());
}

/// Restoring never changes a padding bit of live memory: every changed bit belongs to a
/// field of the geometry.
pub proof fn lemma_restore_keeps_padding(g: Seq<FieldBlock>, s: Seq<PatchView>, i: int, live: Seq<u32>, n: nat)
    requires
        stack_wf(s, g, n),
        live.len() == n,
        0 <= i < s.len(),
    ensures
        forall|w: int|
            0 <= w < n ==> (restored_live(s, i, live)[w] ^ live[w]) & !field_bits(g, w) == 0,
{
    assert forall|w: int| 0 <= w < n implies (restored_live(s, i, live)[w] ^ live[w]) & !field_bits(g, w) == 0 by {
        let d = s[i].diff[w];
        let m = s[i].mask[w];
        let f = field_bits(g, w);
        let h = hidden_between(s, i, s.len() as int, w);
        let v = live[w];
        assert(s[i].diff[w] & !s[i].mask[w] == 0 && s[i].mask[w] & !field_bits(g, w) == 0);
        assert(d & !m == 0 && m & !f == 0 ==> ((v ^ (d & !h)) ^ v) & !f == 0) by (bit_vector);
    }
}

/// A restore changes only bits that the restored patch owns: a sibling field packed in the
/// same word keeps its bits, whatever happened to them since the patch was recorded.
pub proof fn lemma_restore_only_own_bits(s: Seq<PatchView>, i: int, live: Seq<u32>, n: nat, g: Seq<FieldBlock>)
    requires
        stack_wf(s, g, n),
        live.len() == n,
        0 <= i < s.len(),
    ensures
        forall|w: int|
            0 <= w < n ==> (#[trigger] restored_live(s, i, live)[w] ^ live[w]) & !s[i].mask[w] == 0,
{
    assert forall|w: int| 0 <= w < n implies (#[trigger] restored_live(s, i, live)[w] ^ live[w]) & !s[i].mask[w] == 0 by {
        let d = s[i].diff[w];
        let m = s[i].mask[w];
        let h = hidden_between(s, i, s.len() as int, w);
        let v = live[w];
        assert(d & !m == 0);
        crate::bits::lemma_clear(d, h, m);
        crate::bits::lemma_pair(v, d & !h);
    }
}

/// A patch owns every block of each field it changed, in every word the field spans: a
/// wide field is restored in all its words.
pub proof fn lemma_patch_owns_whole_fields(g: Seq<FieldBlock>, before: Seq<u32>, after: Seq<u32>, id: usize, j: int)
    requires
        0 <= j < g.len(),
        0 <= g[j].offset < before.len(),
        field_changed(g, before, after, g[j].field_start as int),
    ensures
        g[j].mask & !new_patch(g, before, after, id).mask[g[j].offset as int] == 0,
{
    lemma_mask_in_changed(g, before, after, g[j].offset as int, j, g.len() as int);
}

/// What every restore guarantees besides its exact result: padding bits of live memory
/// are kept, a patch that undoes nothing changes nothing, and empty patches stay empty.
pub proof fn lemma_restore_facts(g: Seq<FieldBlock>, s: Seq<PatchView>, i: int, live: Seq<u32>, n: nat)
    requires
        stack_wf(s, g, n),
        live.len() == n,
        0 <= i < s.len(),
    ensures
        forall|w: int|
            0 <= w < n ==> (#[trigger] restored_live(s, i, live)[w] ^ live[w]) & !field_bits(g, w) == 0,
        zero_diff(s[i]) ==> restored_live(s, i, live) == live && restored(s, i) == s.remove(i),
        forall|w: int|
            0 <= w < n ==> (#[trigger] restored_live(s, i, live)[w] ^ live[w]) & !s[i].mask[w] == 0,
        forall|k: int|
            0 <= k < s.len() && k != i && #[trigger] empty_patch(s[k]) ==> empty_patch(
                restored(s, i)[if k < i {
                    k
                } else {
                    k - 1
                }],
            ),
{
    lemma_restore_keeps_padding(g, s, i, live, n);
    lemma_restore_only_own_bits(s, i, live, n, g);
    if zero_diff(s[i]) {
        lemma_zero_diff_inert(s, i, live, n);
    }
    assert forall|k: int|
        0 <= k < s.len() && k != i && #[trigger] empty_patch(s[k]) implies empty_patch(
            restored(s, i)[if k < i {
                k
            } else {
                k - 1
            }],
        ) by {
        lemma_empty_stays_empty(s, i, k);
    }
}

/// The two stacks hold the same patches in the same order, whatever ids they carry.
pub open spec fn same_patches(s1: Seq<PatchView>, s2: Seq<PatchView>) -> bool {
    &&& s1.len() == s2.len()
    &&& forall|k: int| 0 <= k < s1.len() ==> (#[trigger] s1[k]).mask == s2[k].mask && s1[k].diff == s2[k].diff
}

proof fn lemma_hidden_same(s1: Seq<PatchView>, s2: Seq<PatchView>, i: int, k: int, w: int)
    requires
        same_patches(s1, s2),
        0 <= i,
        k <= s1.len(),
    ensures
        hidden_between(s1, i, k, w) == hidden_between(s2, i, k, w),
    decreases k - i,
{
    if k > i + 1 {
        lemma_hidden_same(s1, s2, i, k - 1, w);
        assert(s1[k - 1].mask == s2[k - 1].mask);
    }
}

/// Patchers whose stacks hold the same patches stay in step, whatever ids they hand out:
/// recording the same edit keeps their stacks alike, and restoring the patch at the same
/// position writes the same live memory and keeps their stacks alike. Both patchers of this
/// library follow these functions exactly, so the same operations give the same rows.
pub proof fn lemma_same_patches_step(
    g: Seq<FieldBlock>,
    s1: Seq<PatchView>,
    s2: Seq<PatchView>,
    before: Seq<u32>,
    after: Seq<u32>,
    id1: usize,
    id2: usize,
    i: int,
    live: Seq<u32>,
)
    requires
        same_patches(s1, s2),
    ensures
        same_patches(s1.push(new_patch(g, before, after, id1)), s2.push(new_patch(g, before, after, id2))),
        0 <= i < s1.len() ==> same_patches(restored(s1, i), restored(s2, i)),
        0 <= i < s1.len() ==> restored_live(s1, i, live) == restored_live(s2, i, live),
{
    let t1 = s1.push(new_patch(g, before, after, id1));
    let t2 = s2.push(new_patch(g, before, after, id2));
    assert forall|k: int| 0 <= k < t1.len() implies (#[trigger] t1[k]).mask == t2[k].mask && t1[k].diff == t2[k].diff by {
        if k < s1.len() {
            assert(s1[k].mask == s2[k].mask);
        }
    }
    if 0 <= i < s1.len() {
        let r1 = restored(s1, i);
        let r2 = restored(s2, i);
        assert(s1[i].diff == s2[i].diff);
        assert forall|k: int| 0 <= k < r1.len() implies (#[trigger] r1[k]).mask == r2[k].mask && r1[k].diff == r2[k].diff by {
            if k >= i {
                assert(s1[k + 1].mask == s2[k + 1].mask && s1[k + 1].diff == s2[k + 1].diff);
                assert forall|w: int| 0 <= w < r1[k].diff.len() implies r1[k].diff[w] == r2[k].diff[w] by {
                    lemma_hidden_same(s1, s2, i, k + 1, w);
                }
                assert(r1[k].diff =~= r2[k].diff);
            } else {
                assert(s1[k].mask == s2[k].mask);
            }
        }
        assert forall|w: int| 0 <= w < live.len() implies restored_live(s1, i, live)[w] == restored_live(s2, i, live)[w] by {
            lemma_hidden_same(s1, s2, i, s1.len() as int, w);
        }
        assert(restored_live(s1, i, live) =~= restored_live(s2, i, live));
    }
}

/// A patcher of rows laid out by a geometry: it records edits as patches on a stack and
/// restores any of them into live memory, leaving the other patches visible.
pub trait RowPatcher: Sized {
    /// The patches on the stack, oldest first.
    spec fn patches(&self) -> Seq<PatchView>;

    /// The geometry the patcher was built with.
    spec fn layout(&self) -> Seq<FieldBlock>;

    /// The number of 32-bit words in a row.
    spec fn row_words(&self) -> nat;

    /// The patcher's internal invariant.
    spec fn valid(&self) -> bool;

    /// The patcher can record no more patches.
    spec fn full(&self) -> bool;

    /// Creates a patcher for rows of `row_size` bytes laid out by `field_blocks`.
    fn new_patcher(field_blocks: &[FieldBlock], row_size: usize) -> (r: Self)
        requires
            wf_geometry(field_blocks@, (row_size / 4) as nat),
        ensures
            r.valid(),
            r.patches() == Seq::<PatchView>::empty(),
            r.layout() == field_blocks@,
            r.row_words() == row_size / 4,
    ;

    /// Records the edit from `before` to `after`; `None` when the patcher is full.
    fn record(&mut self, before: &[u32], after: &[u32]) -> (r: Option<usize>)
        requires
            old(self).valid(),
            before@.len() == old(self).row_words(),
            after@.len() == old(self).row_words(),
        ensures
            final(self).valid(),
            stack_wf(final(self).patches(), final(self).layout(), final(self).row_words()),
            final(self).layout() == old(self).layout(),
            final(self).row_words() == old(self).row_words(),
            r is None <==> old(self).full(),
            r is None ==> final(self).patches() == old(self).patches(),
            r is Some ==> final(self).patches() == old(self).patches().push(
                new_patch(old(self).layout(), before@, after@, r->0),
            ) && !has_id(old(self).patches(), r->0),
    ;

    /// Restores the patch with id `id` into `live_memory`.
    fn restore(&mut self, id: usize, live_memory: &mut [u32])
        requires
            old(self).valid(),
            has_id(old(self).patches(), id),
            old(live_memory)@.len() == old(self).row_words(),
        ensures
            final(self).valid(),
            stack_wf(final(self).patches(), final(self).layout(), final(self).row_words()),
            final(self).layout() == old(self).layout(),
            final(self).row_words() == old(self).row_words(),
            final(self).patches() == restored(old(self).patches(), index_of_id(old(self).patches(), id)),
            final(live_memory)@ == restored_live(
                old(self).patches(),
                index_of_id(old(self).patches(), id),
                old(live_memory)@,
            ),
    ;
}

} // verus!
