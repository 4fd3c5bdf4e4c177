//! The sparse-array patcher: a stack of patches, each a sorted array of patched words.
use crate::geometry::{
    block_changed, changed_bits, changed_bits_upto, field_bits, field_bits_upto, field_changed,
    lemma_field_start_le, wf_geometry, FieldBlock,
};
use crate::model::{
    words_touched,
    empty_patch, lemma_identity_patch_empty, lemma_restore_facts, zero_diff,
    RowPatcher,
    absorbed, has_id, hidden_between, index_of_id, new_patch, restored,
    restored_live, revealed, stack_wf, PatchView,
};
use vstd::prelude::*;

verus! {

/// One word touched by a patch.
#[derive(Debug, Clone, Copy)]
struct PatchedBlock {
    /// XOR of the changes made to the word, restricted to `mask`.
    diff: u32,
    /// The bits of every changed field in this word.
    mask: u32,
    /// Index of the word in the row.
    offset: usize,
}

/// One patch: the words it touched, in ascending order.
struct RowDiff {
    blocks: Vec<PatchedBlock>,
    id: usize,
}

/// A slot of the scratch array used while restoring.
#[derive(Debug, Clone, Copy)]
struct MaskBlock {
    value: u32,
    /// The restore step that wrote `value`; any other step means the slot holds zero.
    step: u32,
}

spec fn mask_at(s: Seq<PatchedBlock>, w: int) -> u32
    decreases s.len(),
{
    if s.len() == 0 {
        0
    } else if s.last().offset == w {
        s.last().mask
    } else {
        mask_at(s.drop_last(), w)
    }
}

spec fn diff_at(s: Seq<PatchedBlock>, w: int) -> u32
    decreases s.len(),
{
    if s.len() == 0 {
        0
    } else if s.last().offset == w {
        s.last().diff
    } else {
        diff_at(s.drop_last(), w)
    }
}

/// The value a scratch slot holds in restore step `cur`.
spec fn slot(cm: Seq<MaskBlock>, cur: u32, w: int) -> u32 {
    if cm[w].step == cur {
        cm[w].value
    } else {
        0
    }
}

spec fn covered(s: Seq<PatchedBlock>, w: int) -> bool {
    exists|l: int| 0 <= l < s.len() && s[l].offset == w
}

spec fn sorted_blocks(s: Seq<PatchedBlock>, n: nat) -> bool {
    &&& forall|j: int| 0 <= j < s.len() ==> (#[trigger] s[j].offset as nat) < n
    &&& forall|a: int, b: int| 0 <= a < b < s.len() ==> #[trigger] s[a].offset < #[trigger] s[b].offset
}

proof fn lemma_at_index(s: Seq<PatchedBlock>, n: nat, j: int)
    requires
        sorted_blocks(s, n),
        0 <= j < s.len(),
    ensures
        mask_at(s, s[j].offset as int) == s[j].mask,
        diff_at(s, s[j].offset as int) == s[j].diff,
    decreases s.len(),
{
    if j < s.len() - 1 {
        assert(s[j].offset < s[s.len() - 1].offset);
        lemma_at_index(s.drop_last(), n, j);
    }
}

proof fn lemma_at_absent(s: Seq<PatchedBlock>, w: int)
    requires
        forall|j: int| 0 <= j < s.len() ==> s[j].offset != w,
    ensures
        mask_at(s, w) == 0,
        diff_at(s, w) == 0,
    decreases s.len(),
{
    if s.len() > 0 {
        assert(s.last().offset != w);
        lemma_at_absent(s.drop_last(), w);
    }
}

proof fn lemma_touched_one(a: Seq<u32>, b: Seq<u32>, o: int)
    requires
        a.len() == b.len(),
        0 <= o < a.len(),
        a[o] == 0,
        b[o] != 0,
        forall|w: int| 0 <= w < a.len() && w != o ==> a[w] == b[w],
    ensures
        words_touched(b) == words_touched(a) + 1,
    decreases a.len(),
{
    if o == a.len() - 1 {
        assert(a.drop_last() =~= b.drop_last());
    } else {
        lemma_touched_one(a.drop_last(), b.drop_last(), o);
    }
}

proof fn lemma_touched_zero(a: Seq<u32>)
    requires
        forall|w: int| 0 <= w < a.len() ==> a[w] == 0,
    ensures
        words_touched(a) == 0,
    decreases a.len(),
{
    if a.len() > 0 {
        lemma_touched_zero(a.drop_last());
    }
}

/// A patch stores one block for each word its mask touches.
proof fn lemma_count_blocks(s: Seq<PatchedBlock>, n: nat)
    requires
        sorted_blocks(s, n),
        forall|j: int| 0 <= j < s.len() ==> #[trigger] s[j].mask != 0,
    ensures
        words_touched(Seq::new(n, |w: int| mask_at(s, w))) == s.len(),
    decreases s.len(),
{
    if s.len() == 0 {
        lemma_touched_zero(Seq::new(n, |w: int| mask_at(s, w)));
    } else {
        let t = s.drop_last();
        let o = s.last().offset as int;
        assert(sorted_blocks(t, n)) by {
            assert forall|a: int, b: int| 0 <= a < b < t.len() implies #[trigger] t[a].offset < #[trigger] t[b].offset by {
                assert(s[a].offset < s[b].offset);
            }
        }
        assert forall|j: int| 0 <= j < t.len() implies #[trigger] t[j].mask != 0 by {
            assert(s[j].mask != 0);
        }
        lemma_count_blocks(t, n);
        assert forall|j: int| 0 <= j < t.len() implies t[j].offset != o by {
            assert(s[j].offset < s[s.len() - 1].offset);
        }
        lemma_at_absent(t, o);
        assert(s[s.len() - 1].mask != 0);
        assert(s[s.len() - 1].offset < n);
        lemma_touched_one(Seq::new(n, |w: int| mask_at(t, w)), Seq::new(n, |w: int| mask_at(s, w)), o);
    }
}

proof fn lemma_changed_within_fields(g: Seq<FieldBlock>, before: Seq<u32>, after: Seq<u32>, w: int, k: int)
    requires
        0 <= k <= g.len(),
    ensures
        changed_bits_upto(g, before, after, w, k) & !field_bits_upto(g, w, k) == 0,
    decreases k,
{
    if k > 0 {
        lemma_changed_within_fields(g, before, after, w, k - 1);
        let c = changed_bits_upto(g, before, after, w, k - 1);
        let f = field_bits_upto(g, w, k - 1);
        let m = g[k - 1].mask;
        assert(c & !f == 0 ==> (c | m) & !(f | m) == 0 && c & !(f | m) == 0) by (bit_vector);
    } else {
        crate::bits::lemma_word(0);
    }
}

impl RowDiff {
    spec fn view_n(&self, n: nat) -> PatchView {
        PatchView {
            id: self.id,
            mask: Seq::new(n, |w: int| mask_at(self.blocks@, w)),
            diff: Seq::new(n, |w: int| diff_at(self.blocks@, w)),
        }
    }

    spec fn wf_n(&self, g: Seq<FieldBlock>, n: nat) -> bool {
        &&& sorted_blocks(self.blocks@, n)
        &&& forall|j: int| 0 <= j < self.blocks@.len() ==> #[trigger] self.blocks@[j].mask != 0
        &&& forall|j: int|
            0 <= j < self.blocks@.len() ==> #[trigger] self.blocks@[j].diff & !self.blocks@[j].mask
                == 0
        &&& forall|j: int|
            0 <= j < self.blocks@.len() ==> #[trigger] self.blocks@[j].mask & !field_bits(
                g,
                self.blocks@[j].offset as int,
            ) == 0
    }
}

/// Row patcher that keeps a stack of sparse patch arrays.
///
/// Creating a patch costs one pass over the row and the geometry. Restoring a patch costs
/// time proportional to the words stored by it and by the patches above it.
pub struct SparseArrayPatcher {
    diff_stack: Vec<RowDiff>,
    combined_mask: Vec<MaskBlock>,
    field_blocks: Vec<FieldBlock>,
    id_counter: usize,
    step_counter: u32,
}

impl View for SparseArrayPatcher {
    type V = Seq<PatchView>;

    closed spec fn view(&self) -> Seq<PatchView> {
        Seq::new(
            self.diff_stack@.len(),
            |k: int| self.diff_stack@[k].view_n(self.combined_mask@.len()),
        )
    }
}

impl SparseArrayPatcher {
    /// The geometry the patcher was built with.
    pub closed spec fn geometry(&self) -> Seq<FieldBlock> {
        self.field_blocks@
    }

    /// The number of 32-bit words in a row.
    pub closed spec fn n_words(&self) -> nat {
        self.combined_mask@.len()
    }

    /// How many ids have been handed out so far.
    pub closed spec fn ids_issued(&self) -> nat {
        self.id_counter as nat
    }

    /// The patcher's internal invariant.
    pub closed spec fn wf(&self) -> bool {
        &&& wf_geometry(self.field_blocks@, self.combined_mask@.len())
        &&& forall|k: int|
            0 <= k < self.diff_stack@.len() ==> #[trigger] self.diff_stack@[k].wf_n(
                self.field_blocks@,
                self.combined_mask@.len(),
            )
        &&& forall|a: int, b: int|
            0 <= a < b < self.diff_stack@.len() ==> #[trigger] self.diff_stack@[a].id
                < #[trigger] self.diff_stack@[b].id
        &&& forall|k: int|
            0 <= k < self.diff_stack@.len() ==> 1 <= #[trigger] self.diff_stack@[k].id
                <= self.id_counter
        &&& forall|w: int|
            0 <= w < self.combined_mask@.len() ==> #[trigger] self.combined_mask@[w].step
                <= self.step_counter
    }

    /// A well-formed patcher's stack is well formed.
    pub proof fn lemma_view_wf(&self)
        requires
            self.wf(),
        ensures
            stack_wf(self@, self.geometry(), self.n_words()),
            forall|k: int| 0 <= k < self@.len() ==> 1 <= #[trigger] self@[k].id <= self.ids_issued(),
    {
        assert forall|k: int| 0 <= k < self@.len() implies 1 <= #[trigger] self@[k].id <= self.ids_issued() by {
            assert(1 <= self.diff_stack@[k].id <= self.id_counter);
        }
        let n = self.n_words();
        let g = self.geometry();
        assert forall|k: int, w: int| 0 <= k < self@.len() && 0 <= w < n implies #[trigger] self@[k].diff[w]
            & !self@[k].mask[w] == 0 && self@[k].mask[w] & !field_bits(g, w) == 0 by {
            let rd = self.diff_stack@[k];
            assert(rd.wf_n(g, n));
            if covered(rd.blocks@, w) {
                let l = choose|l: int| 0 <= l < rd.blocks@.len() && rd.blocks@[l].offset == w;
                lemma_at_index(rd.blocks@, n, l);
            } else {
                lemma_at_absent(rd.blocks@, w);
                crate::bits::lemma_word(!field_bits(g, w));
                crate::bits::lemma_word(!0u32);
            }
        }
        assert forall|a: int, b: int| 0 <= a < self@.len() && 0 <= b < self@.len() && a != b implies self@[a].id
            != self@[b].id by {
            if a < b {
                assert(self.diff_stack@[a].id < self.diff_stack@[b].id);
            } else {
                assert(self.diff_stack@[b].id < self.diff_stack@[a].id);
            }
        }
    }

    /// The number of words stored for the patch with id `id`: one for each word in which
    /// the patch owns a bit. `None` for an unknown id.
    pub fn block_count(&self, id: usize) -> (r: Option<usize>)
        requires
            self.wf(),
        ensures
            r.is_some() == has_id(self@, id),
            r.is_some() ==> r.unwrap() == words_touched(self@[index_of_id(self@, id)].mask),
            r.is_some() ==> (r.unwrap() == 0 <==> forall|w: int|
                0 <= w < self.n_words() ==> self@[index_of_id(self@, id)].mask[w] == 0),
    {
        let mut k: usize = 0;
        while k < self.diff_stack.len()
            invariant
                self.wf(),
                k <= self.diff_stack@.len(),
                forall|l: int| 0 <= l < k ==> self.diff_stack@[l].id != id,
            decreases self.diff_stack@.len() - k,
        {
            if self.diff_stack[k].id == id {
                let c = self.diff_stack[k].blocks.len();
                proof {
                    self.lemma_view_wf();
                    let n = self.n_words();
                    let kk = k as int;
                    assert(self@[kk].id == id);
                    assert(index_of_id(self@, id) == kk);
                    let rd = self.diff_stack@[kk];
                    assert(rd.wf_n(self.field_blocks@, n));
                    lemma_count_blocks(rd.blocks@, n);
                    if c == 0 {
                        assert forall|w: int| 0 <= w < n implies self@[kk].mask[w] == 0 by {
                            lemma_at_absent(rd.blocks@, w);
                        }
                    } else {
                        lemma_at_index(rd.blocks@, n, 0);
                        assert(self@[kk].mask[rd.blocks@[0].offset as int] != 0);
                    }
                }
                return Some(c);
            }
            k += 1;
        }
        proof {
            if has_id(self@, id) {
                let c = choose|c: int| 0 <= c < self@.len() && self@[c].id == id;
                assert(self.diff_stack@[c].id == id);
            }
        }
        None
    }

    /// Creates a patcher for rows of `row_size` bytes laid out by `field_blocks`.
    pub fn new(field_blocks: &[FieldBlock], row_size: usize) -> (r: Self)
        requires
            wf_geometry(field_blocks@, (row_size / 4) as nat),
        ensures
            r.wf(),
            stack_wf(r@, r.geometry(), r.n_words()),
            r@ == Seq::<PatchView>::empty(),
            r.geometry() == field_blocks@,
            r.n_words() == row_size / 4,
            r.ids_issued() == 0,
    {
        let n = row_size / 4;
        let mut combined_mask: Vec<MaskBlock> = Vec::new();
        let mut w: usize = 0;
        while w < n
            invariant
                w <= n,
                combined_mask@.len() == w,
                forall|k: int| 0 <= k < w ==> (#[trigger] combined_mask@[k]).step == 0,
            decreases n - w,
        {
            combined_mask.push(MaskBlock { value: 0, step: 0 });
            w += 1;
        }
        let mut blocks: Vec<FieldBlock> = Vec::new();
        let mut i: usize = 0;
        while i < field_blocks.len()
            invariant
                i <= field_blocks@.len(),
                blocks@ == field_blocks@.take(i as int),
            decreases field_blocks@.len() - i,
        {
            blocks.push(field_blocks[i]);
            i += 1;
            proof {
                assert(blocks@ =~= field_blocks@.take(i as int));
            }
        }
        proof {
            assert(blocks@ =~= field_blocks@);
        }
        let r = SparseArrayPatcher {
            diff_stack: Vec::new(),
            combined_mask,
            field_blocks: blocks,
            id_counter: 0,
            step_counter: 0,
        };
        proof {
            assert(r@ =~= Seq::<PatchView>::empty());
            r.lemma_view_wf();
        }
        r
    }

    /// Computes, for each word, the bits of the fields that differ between the two rows.
    fn changed_mask(&self, before: &[u32], after: &[u32]) -> (mask: Vec<u32>)
        requires
            self.wf(),
            before@.len() == self.n_words(),
            after@.len() == self.n_words(),
        ensures
            mask@.len() == self.n_words(),
            forall|w: int|
                0 <= w < self.n_words() ==> mask@[w] == changed_bits(
                    self.field_blocks@,
                    before@,
                    after@,
                    w,
                ),
    {
        let g = Ghost(self.field_blocks@);
        let n = self.combined_mask.len();
        let g_len = self.field_blocks.len();
        let mut changed: Vec<bool> = Vec::new();
        let mut i: usize = 0;
        while i < g_len
            invariant
                i <= g_len,
                changed@.len() == i,
                forall|f: int| 0 <= f < i ==> !changed@[f],
            decreases g_len - i,
        {
            changed.push(false);
            i += 1;
        }
        let mut j: usize = 0;
        while j < g_len
            invariant
                g@ == self.field_blocks@,
                self.wf(),
                g_len == g@.len(),
                n == self.n_words(),
                before@.len() == n,
                after@.len() == n,
                j <= g_len,
                changed@.len() == g_len,
                forall|f: int|
                    0 <= f < g_len ==> changed@[f] == exists|j2: int|
                        0 <= j2 < j && g@[j2].field_start == f && block_changed(
                            g@,
                            before@,
                            after@,
                            j2,
                        ),
            decreases g_len - j,
        {
            let fb = self.field_blocks[j];
            let o = fb.offset as usize;
            proof {
                lemma_field_start_le(g@, n as nat, j as int);
            }
            if (before[o] ^ after[o]) & fb.mask != 0 {
                changed.set(fb.field_start as usize, true);
                proof {
                    assert(block_changed(g@, before@, after@, j as int));
                }
            }
            proof {
                assert forall|f: int| 0 <= f < g_len implies changed@[f] == exists|j2: int|
                    0 <= j2 < j + 1 && g@[j2].field_start == f && block_changed(
                        g@,
                        before@,
                        after@,
                        j2,
                    ) by {
                    if f == fb.field_start as int && block_changed(g@, before@, after@, j as int) {
                        assert(g@[j as int].field_start == f);
                    }
                }
            }
            j += 1;
        }
        let mut mask: Vec<u32> = Vec::new();
        let mut w: usize = 0;
        while w < n
            invariant
                w <= n,
                mask@.len() == w,
                forall|k: int| 0 <= k < w ==> mask@[k] == 0,
            decreases n - w,
        {
            mask.push(0);
            w += 1;
        }
        j = 0;
        while j < g_len
            invariant
                g@ == self.field_blocks@,
                self.wf(),
                g_len == g@.len(),
                n == self.n_words(),
                j <= g_len,
                changed@.len() == g_len,
                mask@.len() == n,
                forall|f: int|
                    0 <= f < g_len ==> changed@[f] == field_changed(g@, before@, after@, f),
                forall|k: int|
                    0 <= k < n ==> mask@[k] == changed_bits_upto(g@, before@, after@, k, j as int),
            decreases g_len - j,
        {
            let fb = self.field_blocks[j];
            let o = fb.offset as usize;
            proof {
                lemma_field_start_le(g@, n as nat, j as int);
            }
            if changed[fb.field_start as usize] {
                let m = mask[o];
                mask.set(o, m | fb.mask);
            }
            j += 1;
        }
        mask
    }

    /// Records the edit from `before` to `after` as a new patch on top of the stack.
    ///
    /// For every field whose bits differ, the patch keeps the whole field's bits and the XOR
    /// of the two rows over them. Returns `None` once every id has been handed out.
    pub fn create_patch(&mut self, before: &[u32], after: &[u32]) -> (r: Option<usize>)
        requires
            old(self).wf(),
            before@.len() == old(self).n_words(),
            after@.len() == old(self).n_words(),
        ensures
            final(self).wf(),
            stack_wf(final(self)@, final(self).geometry(), final(self).n_words()),
            forall|k: int|
                0 <= k < final(self)@.len() ==> 1 <= #[trigger] final(self)@[k].id <= final(self).ids_issued(),
            final(self).geometry() == old(self).geometry(),
            final(self).n_words() == old(self).n_words(),
            r.is_some() == (old(self).ids_issued() < usize::MAX),
            r.is_none() ==> final(self)@ == old(self)@ && final(self).ids_issued()
                == old(self).ids_issued(),
            r.is_some() ==> {
                &&& final(self)@ == old(self)@.push(
                    new_patch(old(self).geometry(), before@, after@, r.unwrap()),
                )
                &&& !has_id(old(self)@, r.unwrap())
                &&& r.unwrap() == old(self).ids_issued() + 1
                &&& final(self).ids_issued() == old(self).ids_issued() + 1
            },
            r.is_some() && before@ == after@ ==> empty_patch(final(self)@.last()),
    {
        if self.id_counter == usize::MAX {
            proof {
                self.lemma_view_wf();
            }
            return None;
        }
        let ghost g = self.field_blocks@;
        let n = self.combined_mask.len();
        let mask = self.changed_mask(before, after);
        let mut blocks: Vec<PatchedBlock> = Vec::new();
        let mut w: usize = 0;
        while w < n
            invariant
                g == self.field_blocks@,
                self.wf(),
                n == self.n_words(),
                before@.len() == n,
                after@.len() == n,
                mask@.len() == n,
                w <= n,
                forall|k: int| 0 <= k < n ==> mask@[k] == changed_bits(g, before@, after@, k),
                sorted_blocks(blocks@, n as nat),
                forall|j: int| 0 <= j < blocks@.len() ==> (#[trigger] blocks@[j].offset) < w,
                forall|j: int| 0 <= j < blocks@.len() ==> #[trigger] blocks@[j].mask != 0,
                forall|j: int|
                    0 <= j < blocks@.len() ==> #[trigger] blocks@[j].diff & !blocks@[j].mask == 0,
                forall|j: int|
                    0 <= j < blocks@.len() ==> #[trigger] blocks@[j].mask & !field_bits(
                        g,
                        blocks@[j].offset as int,
                    ) == 0,
                forall|k: int|
                    0 <= k < n ==> mask_at(blocks@, k) == (if k < w {
                        mask@[k]
                    } else {
                        0
                    }),
                forall|k: int|
                    0 <= k < n ==> diff_at(blocks@, k) == (if k < w {
                        (before@[k] ^ after@[k]) & mask@[k]
                    } else {
                        0
                    }),
            decreases n - w,
        {
            let m = mask[w];
            let x = before[w] ^ after[w];
            if m != 0 {
                let b = PatchedBlock { diff: x & m, mask: m, offset: w };
                proof {
                    crate::bits::lemma_pair(x, m);
                    lemma_changed_within_fields(g, before@, after@, w as int, g.len() as int);
                }
                let ghost old_blocks = blocks@;
                blocks.push(b);
                proof {
                    assert(blocks@.drop_last() =~= old_blocks);
                    assert forall|a: int, c: int| 0 <= a < c < blocks@.len() implies #[trigger] blocks@[a].offset
                        < #[trigger] blocks@[c].offset by {
                        if c < old_blocks.len() {
                            assert(old_blocks[a].offset < old_blocks[c].offset);
                        } else {
                            assert(old_blocks[a].offset < w);
                        }
                    }
                    assert forall|k: int| 0 <= k < n implies mask_at(blocks@, k) == (if k < w + 1 {
                        mask@[k]
                    } else {
                        0
                    }) && diff_at(blocks@, k) == (if k < w + 1 {
                        (before@[k] ^ after@[k]) & mask@[k]
                    } else {
                        0
                    }) by {
                        if k != w {
                            assert(mask_at(blocks@, k) == mask_at(old_blocks, k));
                            assert(diff_at(blocks@, k) == diff_at(old_blocks, k));
                        }
                    }
                }
            } else {
                proof {
                    crate::bits::lemma_word(x);
                    lemma_at_absent(blocks@, w as int);
                    assert forall|k: int| 0 <= k < n implies mask_at(blocks@, k) == (if k < w + 1 {
                        mask@[k]
                    } else {
                        0
                    }) && diff_at(blocks@, k) == (if k < w + 1 {
                        (before@[k] ^ after@[k]) & mask@[k]
                    } else {
                        0
                    }) by {
                        if k == w {
                            assert(before@[k] ^ after@[k] == x);
                        }
                    }
                }
            }
            w += 1;
        }
        self.id_counter = self.id_counter + 1;
        let rd = RowDiff { blocks, id: self.id_counter };
        let ghost old_view = self@;
        self.diff_stack.push(rd);
        proof {
            let p = new_patch(g, before@, after@, self.id_counter);
            assert(rd.view_n(n as nat).mask =~= p.mask);
            assert(rd.view_n(n as nat).diff =~= p.diff);
            assert(self@ =~= old_view.push(p));
            assert forall|k: int| 0 <= k < old_view.len() implies old_view[k].id != self.id_counter by {
                assert(self.diff_stack@[k].id <= self.id_counter - 1);
            }
            self.lemma_view_wf();
            lemma_identity_patch_empty(g, before@, self.id_counter);
        }
        Some(self.id_counter)
    }

    fn find_index(&self, id: usize) -> (i: usize)
        requires
            self.wf(),
            has_id(self@, id),
        ensures
            i < self@.len(),
            self@[i as int].id == id,
            i as int == index_of_id(self@, id),
    {
        let ghost k0 = choose|k: int| 0 <= k < self@.len() && self@[k].id == id;
        let mut i = self.diff_stack.len();
        while i > 0
            invariant
                self.wf(),
                i <= self.diff_stack@.len(),
                0 <= k0 < i,
                self@[k0].id == id,
            decreases i,
        {
            if self.diff_stack[i - 1].id == id {
                proof {
                    let t = (i - 1) as int;
                    assert(self@[t].id == self.diff_stack@[t].id);
                    let c = index_of_id(self@, id);
                    assert(self@[c].id == self.diff_stack@[c].id);
                    if c != t {
                        if c < t {
                            assert(self.diff_stack@[c].id < self.diff_stack@[t].id);
                        } else {
                            assert(self.diff_stack@[t].id < self.diff_stack@[c].id);
                        }
                    }
                }
                return i - 1;
            }
            proof {
                if k0 == i - 1 {
                    assert(self@[k0].id == self.diff_stack@[k0].id);
                }
            }
            i = i - 1;
        }
        0
    }

    /// Starts a new restore step, in which every scratch slot reads as zero.
    fn next_step(&mut self)
        requires
            old(self).wf(),
        ensures
            final(self).wf(),
            final(self).diff_stack == old(self).diff_stack,
            final(self).field_blocks == old(self).field_blocks,
            final(self).id_counter == old(self).id_counter,
            final(self).combined_mask@.len() == old(self).combined_mask@.len(),
            forall|w: int|
                0 <= w < final(self).combined_mask@.len() ==> #[trigger] final(self).combined_mask@[w].step
                    < final(self).step_counter,
    {
        if self.step_counter == u32::MAX {
            let n = self.combined_mask.len();
            let mut w: usize = 0;
            while w < n
                invariant
                    n == self.combined_mask@.len(),
                    w <= n,
                    forall|k: int| 0 <= k < w ==> #[trigger] self.combined_mask@[k].step == 0,
                    self.diff_stack == old(self).diff_stack,
                    self.field_blocks == old(self).field_blocks,
                    self.id_counter == old(self).id_counter,
                    self.step_counter == old(self).step_counter,
                    n == old(self).combined_mask@.len(),
                    old(self).wf(),
                decreases n - w,
            {
                self.combined_mask.set(w, MaskBlock { value: 0, step: 0 });
                w += 1;
            }
            self.step_counter = 1;
        } else {
            self.step_counter = self.step_counter + 1;
        }
    }

    /// Loads the diff of `rd` into the scratch array for the current step.
    fn load_residue(&mut self, rd: &RowDiff)
        requires
            old(self).wf(),
            rd.wf_n(old(self).field_blocks@, old(self).combined_mask@.len()),
            forall|w: int|
                0 <= w < old(self).combined_mask@.len() ==> #[trigger] old(self).combined_mask@[w].step
                    < old(self).step_counter,
        ensures
            final(self).wf(),
            final(self).diff_stack == old(self).diff_stack,
            final(self).field_blocks == old(self).field_blocks,
            final(self).id_counter == old(self).id_counter,
            final(self).step_counter == old(self).step_counter,
            final(self).combined_mask@.len() == old(self).combined_mask@.len(),
            forall|w: int|
                0 <= w < final(self).combined_mask@.len() ==> slot(
                    final(self).combined_mask@,
                    final(self).step_counter,
                    w,
                ) == diff_at(rd.blocks@, w),
    {
        let n = self.combined_mask.len();
        let cur = self.step_counter;
        let mut j: usize = 0;
        while j < rd.blocks.len()
            invariant
                self.wf(),
                self.diff_stack == old(self).diff_stack,
                self.field_blocks == old(self).field_blocks,
                self.id_counter == old(self).id_counter,
                self.step_counter == old(self).step_counter,
                n == self.combined_mask@.len(),
                n == old(self).combined_mask@.len(),
                cur == self.step_counter,
                rd.wf_n(self.field_blocks@, n as nat),
                j <= rd.blocks@.len(),
                forall|w: int|
                    0 <= w < n ==> slot(self.combined_mask@, cur, w) == diff_at(
                        rd.blocks@.take(j as int),
                        w,
                    ),
            decreases rd.blocks@.len() - j,
        {
            let b = rd.blocks[j];
            assert(rd.blocks@[j as int].offset < n);
            let ghost cm_prev = self.combined_mask@;
            self.combined_mask.set(b.offset, MaskBlock { value: b.diff, step: cur });
            assert(self.combined_mask@ == cm_prev.update(b.offset as int, MaskBlock { value: b.diff, step: cur }));
            proof {
                assert(rd.blocks@.take(j + 1).drop_last() =~= rd.blocks@.take(j as int));
                assert(rd.blocks@.take(j + 1).last() == b);
                assert forall|w: int| 0 <= w < n implies slot(self.combined_mask@, cur, w) == diff_at(
                    rd.blocks@.take(j + 1),
                    w,
                ) by {
                    if w == b.offset {
                        let t = rd.blocks@.take(j + 1);
                        assert(t.len() > 0);
                        assert(t.last().offset == w);
                        assert(diff_at(t, w) == t.last().diff);
                        assert(self.combined_mask@[w].step == cur);
                        assert(self.combined_mask@[w].value == b.diff);
                        assert(slot(self.combined_mask@, cur, w) == b.diff);
                        assert(slot(self.combined_mask@, cur, w) == diff_at(t, w));
                    } else {
                        assert(self.combined_mask@[w] == cm_prev[w]);
                        assert(slot(cm_prev, cur, w) == diff_at(rd.blocks@.take(j as int), w));
                        assert(diff_at(rd.blocks@.take(j + 1), w) == diff_at(
                            rd.blocks@.take(j as int),
                            w,
                        ));
                    }
                }
            }
            j += 1;
        }
        proof {
            assert(rd.blocks@.take(j as int) =~= rd.blocks@);
        }
    }

    /// Hands the current residue to patch `k`: each residue bit that the patch covers goes
    /// into its diff and leaves the residue.
    fn absorb(&mut self, k: usize)
        requires
            old(self).wf(),
            k < old(self).diff_stack@.len(),
        ensures
            final(self).wf(),
            final(self).field_blocks == old(self).field_blocks,
            final(self).id_counter == old(self).id_counter,
            final(self).step_counter == old(self).step_counter,
            final(self).combined_mask@.len() == old(self).combined_mask@.len(),
            final(self).diff_stack@.len() == old(self).diff_stack@.len(),
            forall|l: int|
                0 <= l < old(self).diff_stack@.len() && l != k ==> final(self).diff_stack@[l]
                    == old(self).diff_stack@[l],
            final(self).diff_stack@[k as int].id == old(self).diff_stack@[k as int].id,
            ({
                let n = old(self).combined_mask@.len();
                let cur = old(self).step_counter;
                let before = old(self).diff_stack@[k as int].view_n(n);
                let after = final(self).diff_stack@[k as int].view_n(n);
                forall|w: int|
                    0 <= w < n ==> {
                        &&& after.mask[w] == before.mask[w]
                        &&& after.diff[w] == before.diff[w] ^ (slot(
                            old(self).combined_mask@,
                            cur,
                            w,
                        ) & before.mask[w])
                        &&& slot(final(self).combined_mask@, cur, w) == slot(
                            old(self).combined_mask@,
                            cur,
                            w,
                        ) & !before.mask[w]
                    }
            }),
    {
        let ghost g = self.field_blocks@;
        let ghost cm0 = self.combined_mask@;
        let n = self.combined_mask.len();
        let cur = self.step_counter;
        let ghost old_blocks = self.diff_stack@[k as int].blocks@;
        let len = self.diff_stack[k].blocks.len();
        let mut new_blocks: Vec<PatchedBlock> = Vec::new();
        let mut j: usize = 0;
        assert(self.diff_stack@[k as int].wf_n(g, n as nat));
        proof {
            assert forall|w: int| 0 <= w < n implies slot(self.combined_mask@, cur, w) == slot(
                cm0,
                cur,
                w,
            ) & !mask_at(old_blocks.take(0), w) by {
                crate::bits::lemma_word(slot(cm0, cur, w));
                assert(old_blocks.take(0).len() == 0);
            }
        }
        while j < len
            invariant
                g == self.field_blocks@,
                self.wf(),
                self.diff_stack == old(self).diff_stack,
                self.field_blocks == old(self).field_blocks,
                self.id_counter == old(self).id_counter,
                self.step_counter == old(self).step_counter,
                n == old(self).combined_mask@.len(),
                n == self.combined_mask@.len(),
                cur == self.step_counter,
                k < self.diff_stack@.len(),
                old_blocks == self.diff_stack@[k as int].blocks@,
                len == old_blocks.len(),
                sorted_blocks(old_blocks, n as nat),
                j <= len,
                new_blocks@.len() == j,
                forall|l: int|
                    0 <= l < j ==> {
                        &&& (#[trigger] new_blocks@[l]).offset == old_blocks[l].offset
                        &&& new_blocks@[l].mask == old_blocks[l].mask
                        &&& new_blocks@[l].diff == old_blocks[l].diff ^ (slot(
                            cm0,
                            cur,
                            old_blocks[l].offset as int,
                        ) & old_blocks[l].mask)
                    },
                forall|w: int|
                    0 <= w < n ==> slot(self.combined_mask@, cur, w) == slot(cm0, cur, w) & !mask_at(
                        old_blocks.take(j as int),
                        w,
                    ),
            decreases len - j,
        {
            let b = self.diff_stack[k].blocks[j];
            let o = b.offset;
            assert(b == old_blocks[j as int]);
            let mb = self.combined_mask[o];
            assert(mb == self.combined_mask@[o as int]);
            let r = if mb.step == cur {
                mb.value
            } else {
                0
            };
            proof {
                assert(old_blocks[j as int].offset < n);
                assert forall|l: int| 0 <= l < old_blocks.take(j as int).len() implies old_blocks.take(
                    j as int,
                )[l].offset != o by {
                    assert(old_blocks[l].offset < old_blocks[j as int].offset);
                }
                lemma_at_absent(old_blocks.take(j as int), o as int);
                assert(mask_at(old_blocks.take(j as int), o as int) == 0);
                assert(slot(self.combined_mask@, cur, o as int) == slot(cm0, cur, o as int) & !mask_at(
                    old_blocks.take(j as int), o as int));
                crate::bits::lemma_word(slot(cm0, cur, o as int));
                assert(r == slot(cm0, cur, o as int));
                assert(old_blocks.take(j + 1).drop_last() =~= old_blocks.take(j as int));
                assert(old_blocks.take(j + 1).last() == old_blocks[j as int]);
            }
            let ghost nb0 = new_blocks@;
            new_blocks.push(PatchedBlock { diff: b.diff ^ (r & b.mask), mask: b.mask, offset: o });
            let ghost cm_prev = self.combined_mask@;
            self.combined_mask.set(o, MaskBlock { value: r & !b.mask, step: cur });
            proof {
                assert forall|l: int| 0 <= l < j + 1 implies {
                    &&& (#[trigger] new_blocks@[l]).offset == old_blocks[l].offset
                    &&& new_blocks@[l].mask == old_blocks[l].mask
                    &&& new_blocks@[l].diff == old_blocks[l].diff ^ (slot(
                        cm0,
                        cur,
                        old_blocks[l].offset as int,
                    ) & old_blocks[l].mask)
                } by {
                    if l < j {
                        assert(new_blocks@[l] == nb0[l]);
                    }
                }
                assert forall|w: int| 0 <= w < n implies slot(self.combined_mask@, cur, w) == slot(
                    cm0,
                    cur,
                    w,
                ) & !mask_at(old_blocks.take(j + 1), w) by {
                    if w == o {
                        let t = old_blocks.take(j + 1);
                        assert(t.len() > 0);
                        assert(t.last().offset == w);
                        assert(mask_at(t, w) == t.last().mask);
                        assert(self.combined_mask@[w].step == cur);
                        assert(t.last().mask == b.mask);
                        assert(self.combined_mask@[w].value == r & !b.mask);
                        assert(slot(self.combined_mask@, cur, w) == r & !b.mask);
                        assert(slot(self.combined_mask@, cur, w) == slot(cm0, cur, w) & !mask_at(t, w));
                    } else {
                        assert(self.combined_mask@[w] == cm_prev[w]);
                        assert(slot(cm_prev, cur, w) == slot(cm0, cur, w) & !mask_at(
                            old_blocks.take(j as int),
                            w,
                        ));
                        assert(mask_at(old_blocks.take(j + 1), w) == mask_at(
                            old_blocks.take(j as int),
                            w,
                        ));
                    }
                }
            }
            j += 1;
        }
        proof {
            assert(old_blocks.take(len as int) =~= old_blocks);
            let rd0 = self.diff_stack@[k as int];
            assert(rd0.wf_n(g, n as nat));
            assert(sorted_blocks(new_blocks@, n as nat)) by {
                assert forall|a: int, c: int| 0 <= a < c < new_blocks@.len() implies #[trigger] new_blocks@[a].offset
                    < #[trigger] new_blocks@[c].offset by {
                    assert(old_blocks[a].offset < old_blocks[c].offset);
                }
            }
            assert forall|l: int| 0 <= l < new_blocks@.len() implies #[trigger] new_blocks@[l].diff
                & !new_blocks@[l].mask == 0 by {
                let d = old_blocks[l].diff;
                let m = old_blocks[l].mask;
                let e = slot(cm0, cur, old_blocks[l].offset as int);
                assert(rd0.blocks@[l].diff & !rd0.blocks@[l].mask == 0);
                assert(d & !m == 0 ==> (d ^ (e & m)) & !m == 0) by (bit_vector);
            }
            assert forall|l: int| 0 <= l < new_blocks@.len() implies #[trigger] new_blocks@[l].mask != 0 by {
                assert(rd0.blocks@[l].mask != 0);
            }
            assert forall|l: int| 0 <= l < new_blocks@.len() implies #[trigger] new_blocks@[l].mask
                & !field_bits(g, new_blocks@[l].offset as int) == 0 by {
                assert(rd0.blocks@[l].mask & !field_bits(g, rd0.blocks@[l].offset as int) == 0);
            }
        }
        let id = self.diff_stack[k].id;
        let ghost old_stack = self.diff_stack@;
        let new_rd = RowDiff { blocks: new_blocks, id };
        self.diff_stack.set(k, new_rd);
        proof {
            assert(new_rd.wf_n(g, n as nat));
            assert forall|a: int, b: int| 0 <= a < b < self.diff_stack@.len() implies #[trigger] self.diff_stack@[a].id
                < #[trigger] self.diff_stack@[b].id by {
                assert(old_stack[a].id < old_stack[b].id);
            }
            assert forall|l: int| 0 <= l < self.diff_stack@.len() implies #[trigger] self.diff_stack@[l].wf_n(
                g,
                n as nat,
            ) by {
                if l != k {
                    assert(old_stack[l].wf_n(g, n as nat));
                }
            }
            assert forall|l: int| 0 <= l < self.diff_stack@.len() implies 1 <= #[trigger] self.diff_stack@[l].id
                <= self.id_counter by {
                assert(1 <= old_stack[l].id <= self.id_counter);
            }
            assert forall|w: int| 0 <= w < n implies {
                &&& mask_at(new_blocks@, w) == mask_at(old_blocks, w)
                &&& diff_at(new_blocks@, w) == diff_at(old_blocks, w) ^ (slot(cm0, cur, w)
                    & mask_at(old_blocks, w))
                &&& slot(self.combined_mask@, cur, w) == slot(cm0, cur, w) & !mask_at(old_blocks, w)
            } by {
                if covered(old_blocks, w) {
                    let l = choose|l: int| 0 <= l < old_blocks.len() && old_blocks[l].offset == w;
                    lemma_at_index(old_blocks, n as nat, l);
                    lemma_at_index(new_blocks@, n as nat, l);
                } else {
                    lemma_at_absent(old_blocks, w);
                    lemma_at_absent(new_blocks@, w);
                    let e = slot(cm0, cur, w);
                    crate::bits::lemma_pair(e, 0);
                }
            }
        }
    }

    /// Applies the current residue to the words of `rd` in live memory.
    fn apply_residue(&self, rd: &RowDiff, live: &mut [u32])
        requires
            sorted_blocks(rd.blocks@, self.combined_mask@.len()),
            old(live)@.len() == self.combined_mask@.len(),
        ensures
            final(live)@.len() == old(live)@.len(),
            forall|w: int|
                0 <= w < old(live)@.len() ==> final(live)@[w] == if covered(rd.blocks@, w) {
                    old(live)@[w] ^ slot(self.combined_mask@, self.step_counter, w)
                } else {
                    old(live)@[w]
                },
    {
        let ghost n = self.combined_mask@.len();
        let cur = self.step_counter;
        let mut j: usize = 0;
        while j < rd.blocks.len()
            invariant
                n == self.combined_mask@.len(),
                cur == self.step_counter,
                sorted_blocks(rd.blocks@, n),
                j <= rd.blocks@.len(),
                live@.len() == n,
                old(live)@.len() == n,
                forall|w: int|
                    0 <= w < n ==> live@[w] == if covered(rd.blocks@.take(j as int), w) {
                        old(live)@[w] ^ slot(self.combined_mask@, cur, w)
                    } else {
                        old(live)@[w]
                    },
            decreases rd.blocks@.len() - j,
        {
            let b = rd.blocks[j];
            let o = b.offset;
            assert(rd.blocks@[j as int].offset < n);
            let mb = self.combined_mask[o];
            let r = if mb.step == cur {
                mb.value
            } else {
                0
            };
            let ghost live_prev = live@;
            let x = live[o];
            live[o] = x ^ r;
            proof {
                let t0 = rd.blocks@.take(j as int);
                let t1 = rd.blocks@.take(j + 1);
                assert(!covered(t0, o as int)) by {
                    if covered(t0, o as int) {
                        let l = choose|l: int| 0 <= l < t0.len() && t0[l].offset == o;
                        assert(rd.blocks@[l].offset < rd.blocks@[j as int].offset);
                    }
                }
                assert(t1[j as int].offset == o);
                assert forall|w: int| 0 <= w < n implies live@[w] == if covered(t1, w) {
                    old(live)@[w] ^ slot(self.combined_mask@, cur, w)
                } else {
                    old(live)@[w]
                } by {
                    if w == o {
                        assert(covered(t1, w));
                        assert(live_prev[w] == old(live)@[w]);
                    } else {
                        assert(live@[w] == live_prev[w]);
                        if covered(t1, w) {
                            let l = choose|l: int| 0 <= l < t1.len() && t1[l].offset == w;
                            assert(t0[l].offset == w);
                        }
                        if covered(t0, w) {
                            let l = choose|l: int| 0 <= l < t0.len() && t0[l].offset == w;
                            assert(t1[l].offset == w);
                        }
                    }
                }
            }
            j += 1;
        }
        proof {
            assert(rd.blocks@.take(j as int) =~= rd.blocks@);
        }
    }

    /// Restores the patch with id `id` into `live_memory`.
    ///
    /// Bits of the patch that no later patch covers are set back in live memory; each bit
    /// that a later patch covers is handed to the lowest such patch, so that restoring that
    /// one later reveals the right value. The id is no longer valid afterwards.
    pub fn restore_patch(&mut self, id: usize, live_memory: &mut [u32])
        requires
            old(self).wf(),
            has_id(old(self)@, id),
            old(live_memory)@.len() == old(self).n_words(),
        ensures
            final(self).wf(),
            stack_wf(final(self)@, final(self).geometry(), final(self).n_words()),
            forall|k: int|
                0 <= k < final(self)@.len() ==> 1 <= #[trigger] final(self)@[k].id <= final(self).ids_issued(),
            final(self).geometry() == old(self).geometry(),
            final(self).n_words() == old(self).n_words(),
            final(self).ids_issued() == old(self).ids_issued(),
            final(self)@ == restored(old(self)@, index_of_id(old(self)@, id)),
            final(live_memory)@ == restored_live(
                old(self)@,
                index_of_id(old(self)@, id),
                old(live_memory)@,
            ),
            forall|w: int|
                0 <= w < old(live_memory)@.len() ==> (#[trigger] final(live_memory)@[w] ^ old(live_memory)@[w])
                    & !field_bits(old(self).geometry(), w) == 0,
            forall|w: int|
                0 <= w < old(live_memory)@.len() ==> (#[trigger] final(live_memory)@[w] ^ old(live_memory)@[w])
                    & !old(self)@[index_of_id(old(self)@, id)].mask[w] == 0,
            zero_diff(old(self)@[index_of_id(old(self)@, id)]) ==> final(live_memory)@ == old(live_memory)@
                && final(self)@ == old(self)@.remove(index_of_id(old(self)@, id)),
            forall|k: int|
                0 <= k < old(self)@.len() && k != index_of_id(old(self)@, id) && #[trigger] empty_patch(old(self)@[k])
                    ==> empty_patch(
                    final(self)@[if k < index_of_id(old(self)@, id) {
                        k
                    } else {
                        k - 1
                    }],
                ),
    {
        let ghost s = self@;
        let ghost g = self.field_blocks@;
        proof {
            self.lemma_view_wf();
        }
        let n = self.combined_mask.len();
        let i = self.find_index(id);
        let ghost old_stack = self.diff_stack@;
        let rd = self.diff_stack.remove(i);
        proof {
            assert(old_stack[i as int].wf_n(g, n as nat));
            assert(rd.view_n(n as nat) == s[i as int]);
            assert forall|a: int, b: int| 0 <= a < b < self.diff_stack@.len() implies #[trigger] self.diff_stack@[a].id
                < #[trigger] self.diff_stack@[b].id by {
                let a0 = if a < i { a } else { a + 1 };
                let b0 = if b < i { b } else { b + 1 };
                assert(old_stack[a0].id < old_stack[b0].id);
            }
            assert forall|l: int| 0 <= l < self.diff_stack@.len() implies #[trigger] self.diff_stack@[l].wf_n(
                g,
                n as nat,
            ) && 1 <= self.diff_stack@[l].id <= self.id_counter by {
                let l0 = if l < i { l } else { l + 1 };
                assert(old_stack[l0].wf_n(g, n as nat));
                assert(1 <= old_stack[l0].id <= self.id_counter);
            }
        }
        self.next_step();
        self.load_residue(&rd);
        let cur = self.step_counter;
        let mut k = i;
        proof {
            assert forall|w: int| 0 <= w < n implies slot(self.combined_mask@, cur, w) == s[i as int].diff[w]
                & !hidden_between(s, i as int, k + 1, w) by {
                crate::bits::lemma_word(s[i as int].diff[w]);
            }
        }
        while k < self.diff_stack.len()
            invariant
                self.wf(),
                self.id_counter == old(self).id_counter,
                g == self.field_blocks@,
                n == self.combined_mask@.len(),
                cur == self.step_counter,
                s.len() == old_stack.len(),
                i < s.len(),
                i <= k <= self.diff_stack@.len(),
                self.diff_stack@.len() == s.len() - 1,
                rd.view_n(n as nat) == s[i as int],
                rd.wf_n(g, n as nat),
                forall|l: int| 0 <= l < s.len() ==> #[trigger] s[l] == old_stack[l].view_n(n as nat),
                forall|l: int| 0 <= l < i ==> #[trigger] self.diff_stack@[l].view_n(n as nat) == s[l],
                forall|l: int|
                    i <= l < k ==> #[trigger] self.diff_stack@[l].view_n(n as nat) == absorbed(
                        s,
                        i as int,
                        l + 1,
                    ),
                forall|l: int|
                    k <= l < self.diff_stack@.len() ==> #[trigger] self.diff_stack@[l] == old_stack[l
                        + 1],
                forall|w: int|
                    0 <= w < n ==> slot(self.combined_mask@, cur, w) == s[i as int].diff[w]
                        & !hidden_between(s, i as int, k + 1, w),
            decreases self.diff_stack@.len() - k,
        {
            let ghost cm_prev = self.combined_mask@;
            let ghost ds_prev = self.diff_stack@;
            self.absorb(k);
            proof {
                let kk = k as int;
                assert(ds_prev[kk] == old_stack[kk + 1]);
                let before = ds_prev[kk].view_n(n as nat);
                assert(before == s[kk + 1]);
                let after = self.diff_stack@[kk].view_n(n as nat);
                let target = absorbed(s, i as int, kk + 1);
                assert forall|w: int| 0 <= w < n implies after.diff[w] == target.diff[w] && slot(
                    self.combined_mask@,
                    cur,
                    w,
                ) == s[i as int].diff[w] & !hidden_between(s, i as int, kk + 2, w) by {
                    let d = s[i as int].diff[w];
                    let h = hidden_between(s, i as int, kk + 1, w);
                    let m = s[kk + 1].mask[w];
                    let e = s[kk + 1].diff[w];
                    assert(hidden_between(s, i as int, kk + 2, w) == h | m);
                    assert((d & !h) & m == d & m & !h && (d & !h) & !m == d & !(h | m))
                        by (bit_vector);
                }
                assert(after.mask =~= target.mask);
                assert(after.diff =~= target.diff);
                assert forall|l: int| 0 <= l < i implies #[trigger] self.diff_stack@[l].view_n(n as nat)
                    == s[l] by {
                    assert(self.diff_stack@[l] == ds_prev[l]);
                }
                assert forall|l: int| i <= l < k + 1 implies #[trigger] self.diff_stack@[l].view_n(
                    n as nat,
                ) == absorbed(s, i as int, l + 1) by {
                    if l < k {
                        assert(self.diff_stack@[l] == ds_prev[l]);
                    }
                }
                assert forall|l: int| k + 1 <= l < self.diff_stack@.len() implies #[trigger] self.diff_stack@[l]
                    == old_stack[l + 1] by {
                    assert(self.diff_stack@[l] == ds_prev[l]);
                }
            }
            k += 1;
        }
        let ghost live0 = live_memory@;
        self.apply_residue(&rd, live_memory);
        proof {
            assert(self@ =~= restored(s, i as int));
            assert forall|w: int| 0 <= w < n implies live_memory@[w] == live0[w] ^ revealed(
                s,
                i as int,
                w,
            ) by {
                if !covered(rd.blocks@, w) {
                    lemma_at_absent(rd.blocks@, w);
                    assert(s[i as int].diff[w] == 0);
                    let h = hidden_between(s, i as int, s.len() as int, w);
                    crate::bits::lemma_word(h);
                    crate::bits::lemma_word(live0[w]);
                }
            }
            assert(live_memory@ =~= restored_live(s, i as int, live0));
            self.lemma_view_wf();
            lemma_restore_facts(g, s, i as int, live0, n as nat);
        }
    }
}

impl RowPatcher for SparseArrayPatcher {
    open spec fn patches(&self) -> Seq<PatchView> {
        self@
    }

    open spec fn layout(&self) -> Seq<FieldBlock> {
        self.geometry()
    }

    open spec fn row_words(&self) -> nat {
        self.n_words()
    }

    open spec fn valid(&self) -> bool {
        self.wf()
    }

    open spec fn full(&self) -> bool {
        self.ids_issued() == usize::MAX
    }

    fn new_patcher(field_blocks: &[FieldBlock], row_size: usize) -> (r: Self) {
        SparseArrayPatcher::new(field_blocks, row_size)
    }

    fn record(&mut self, before: &[u32], after: &[u32]) -> (r: Option<usize>) {
        self.create_patch(before, after)
    }

    fn restore(&mut self, id: usize, live_memory: &mut [u32]) {
        self.restore_patch(id, live_memory)
    }
}

} // verus!
