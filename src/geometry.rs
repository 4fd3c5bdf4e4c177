//! Field geometry: how the logical fields of a row are laid out over 32-bit words.
use vstd::prelude::*;

verus! {

/// A portion of a logical field that lies inside one 32-bit word of a row.
#[derive(Debug, Clone, Copy, PartialEq, Eq)]
pub struct FieldBlock {
    /// Index of the first block of the logical field this block belongs to.
    pub field_start: u16,
    /// Index of the word (in 32-bit units) this block describes.
    pub offset: u16,
    /// Bits of the word that belong to the field.
    pub mask: u32,
}

/// How block `b`, at index `i`, must follow the block `p` before it: the next block of
/// the same field lies in the next word; a new field starts at its own index, in the same
/// word or a later one.
pub open spec fn follows(p: FieldBlock, b: FieldBlock, i: int) -> bool {
    if p.field_start == b.field_start {
        b.offset == p.offset + 1
    } else {
        b.field_start as int == i && p.offset <= b.offset
    }
}

/// The well-formedness rules of a geometry for rows of `n_words` words: blocks sorted by
/// word, the blocks of one field adjacent and in consecutive words, every block owning a
/// bit, and no bit claimed twice.
pub open spec fn wf_geometry(g: Seq<FieldBlock>, n_words: nat) -> bool {
    &&& g.len() < 0x10000
    &&& forall|i: int| 0 <= i < g.len() ==> (#[trigger] g[i].offset as nat) < n_words
    &&& forall|i: int| 0 <= i < g.len() ==> #[trigger] g[i].mask != 0
    &&& forall|i: int|
        0 <= i < g.len() ==> #[trigger] field_bits_upto(g, g[i].offset as int, i) & g[i].mask == 0
    &&& g.len() > 0 ==> g[0].field_start == 0
    &&& forall|i: int| 0 < i < g.len() ==> follows(g[i - 1], #[trigger] g[i], i)
}

/// Union of the masks of the first `n` blocks that lie in word `w`.
pub open spec fn field_bits_upto(g: Seq<FieldBlock>, w: int, n: int) -> u32
    decreases n,
{
    if n <= 0 {
        0
    } else if g[n - 1].offset == w {
        field_bits_upto(g, w, n - 1) | g[n - 1].mask
    } else {
        field_bits_upto(g, w, n - 1)
    }
}

/// The bits of word `w` that belong to some field; the others are padding.
pub open spec fn field_bits(g: Seq<FieldBlock>, w: int) -> u32 {
    field_bits_upto(g, w, g.len() as int)
}

/// Block `j` covers a bit that differs between `before` and `after`.
pub open spec fn block_changed(g: Seq<FieldBlock>, before: Seq<u32>, after: Seq<u32>, j: int) -> bool {
    (before[g[j].offset as int] ^ after[g[j].offset as int]) & g[j].mask != 0
}

/// The logical field starting at block `fs` differs between `before` and `after`.
pub open spec fn field_changed(g: Seq<FieldBlock>, before: Seq<u32>, after: Seq<u32>, fs: int) -> bool {
    exists|j: int| 0 <= j < g.len() && g[j].field_start == fs && block_changed(g, before, after, j)
}

/// Union of the masks, in word `w`, of the first `n` blocks whose field changed.
pub open spec fn changed_bits_upto(
    g: Seq<FieldBlock>,
    before: Seq<u32>,
    after: Seq<u32>,
    w: int,
    n: int,
) -> u32
    decreases n,
{
    if n <= 0 {
        0
    } else if g[n - 1].offset == w && field_changed(g, before, after, g[n - 1].field_start as int) {
        changed_bits_upto(g, before, after, w, n - 1) | g[n - 1].mask
    } else {
        changed_bits_upto(g, before, after, w, n - 1)
    }
}

/// The bits of word `w` that belong to a field that changed from `before` to `after`.
pub open spec fn changed_bits(g: Seq<FieldBlock>, before: Seq<u32>, after: Seq<u32>, w: int) -> u32 {
    changed_bits_upto(g, before, after, w, g.len() as int)
}

/// Tells whether `blocks` is a well-formed geometry for rows of `n_words` words.
pub fn check_geometry(blocks: &[FieldBlock], n_words: usize) -> (r: bool)
    ensures
        r == wf_geometry(blocks@, n_words as nat),
{
    let g = Ghost(blocks@);
    let n = blocks.len();
    if n >= 0x10000 {
        return false;
    }
    if n > 0 && blocks[0].field_start != 0 {
        return false;
    }
    let mut used: Vec<u32> = Vec::new();
    let mut w: usize = 0;
    while w < n_words
        invariant
            w <= n_words,
            used@.len() == w,
            forall|k: int| 0 <= k < w ==> used@[k] == 0,
        decreases n_words - w,
    {
        used.push(0);
        w += 1;
    }
    let mut i: usize = 0;
    while i < n
        invariant
            g@ == blocks@,
            n == blocks@.len(),
            n < 0x10000,
            i <= n,
            used@.len() == n_words,
            n > 0 ==> blocks@[0].field_start == 0,
            forall|k: int| 0 <= k < n_words ==> used@[k] == field_bits_upto(g@, k, i as int),
            forall|k: int| 0 <= k < i ==> (#[trigger] g@[k].offset as nat) < n_words,
            forall|k: int| 0 <= k < i ==> #[trigger] g@[k].mask != 0,
            forall|k: int|
                0 <= k < i ==> #[trigger] field_bits_upto(g@, g@[k].offset as int, k) & g@[k].mask
                    == 0,
            forall|k: int| 0 < k < i ==> follows(g@[k - 1], #[trigger] g@[k], k),
        decreases n - i,
    {
        let b = blocks[i];
        if b.offset as usize >= n_words {
            proof {
                assert(!(g@[i as int].offset < n_words));
            }
            return false;
        }
        if b.mask == 0 {
            return false;
        }
        let u = used[b.offset as usize];
        if u & b.mask != 0 {
            return false;
        }
        if i > 0 {
            let p = blocks[i - 1];
            let ok = if p.field_start == b.field_start {
                b.offset as u32 == p.offset as u32 + 1
            } else {
                b.field_start as usize == i && p.offset <= b.offset
            };
            if !ok {
                proof {
                    assert(!follows(g@[i - 1], g@[i as int], i as int));
                }
                return false;
            }
        }
        used.set(b.offset as usize, u | b.mask);
        i += 1;
    }
    true
}

/// Union, over the first `k` blocks in word `w` that `sel` selects, of `val`.
pub open spec fn union_where(
    g: Seq<FieldBlock>,
    w: int,
    k: int,
    sel: spec_fn(int) -> bool,
    val: spec_fn(int) -> u32,
) -> u32
    decreases k,
{
    if k <= 0 {
        0
    } else if g[k - 1].offset == w && sel(k - 1) {
        union_where(g, w, k - 1, sel, val) | val(k - 1)
    } else {
        union_where(g, w, k - 1, sel, val)
    }
}

/// A block's mask lies in the union of the masks of the blocks up to and past it.
pub proof fn lemma_mask_in_bits(g: Seq<FieldBlock>, w: int, j: int, k: int)
    requires
        0 <= j < k <= g.len(),
        g[j].offset == w,
    ensures
        g[j].mask & !field_bits_upto(g, w, k) == 0,
    decreases k,
{
    let m = g[j].mask;
    if k == j + 1 {
        let f = field_bits_upto(g, w, j);
        crate::bits::lemma_pair(f, m);
    } else {
        lemma_mask_in_bits(g, w, j, k - 1);
        let f = field_bits_upto(g, w, k - 1);
        let m2 = g[k - 1].mask;
        assert(m & !f == 0 ==> m & !(f | m2) == 0) by (bit_vector);
    }
}

/// Two distinct blocks of one word share no bit.
pub proof fn lemma_masks_disjoint(g: Seq<FieldBlock>, n: nat, a: int, b: int)
    requires
        wf_geometry(g, n),
        0 <= a < g.len(),
        0 <= b < g.len(),
        a != b,
        g[a].offset == g[b].offset,
    ensures
        g[a].mask & g[b].mask == 0,
{
    let w = g[a].offset as int;
    let (lo, hi) = if a < b {
        (a, b)
    } else {
        (b, a)
    };
    lemma_mask_in_bits(g, w, lo, hi);
    let f = field_bits_upto(g, w, hi);
    let ml = g[lo].mask;
    let mh = g[hi].mask;
    assert(field_bits_upto(g, g[hi].offset as int, hi) & g[hi].mask == 0);
    assert(ml & !f == 0 && f & mh == 0 ==> ml & mh == 0 && mh & ml == 0) by (bit_vector);
}

/// Seen through the mask of block `j0`, a union of values that each lie in their own
/// block's mask is the value of `j0`, if selected, and nothing else.
pub proof fn lemma_union_at_block(
    g: Seq<FieldBlock>,
    n: nat,
    w: int,
    k: int,
    sel: spec_fn(int) -> bool,
    val: spec_fn(int) -> u32,
    j0: int,
)
    requires
        wf_geometry(g, n),
        0 <= j0 < g.len(),
        g[j0].offset == w,
        0 <= k <= g.len(),
        forall|j: int| 0 <= j < g.len() ==> #[trigger] val(j) & !g[j].mask == 0,
    ensures
        union_where(g, w, k, sel, val) & g[j0].mask == if j0 < k && sel(j0) {
            val(j0)
        } else {
            0
        },
    decreases k,
{
    let m0 = g[j0].mask;
    if k == 0 {
        crate::bits::lemma_word(m0);
    } else {
        lemma_union_at_block(g, n, w, k - 1, sel, val, j0);
        let u = union_where(g, w, k - 1, sel, val);
        if g[k - 1].offset == w && sel(k - 1) {
            let v = val(k - 1);
            let m = g[k - 1].mask;
            assert(v & !m == 0);
            if k - 1 == j0 {
                assert(u & m0 == 0 && v & !m0 == 0 ==> (u | v) & m0 == v) by (bit_vector);
            } else {
                lemma_masks_disjoint(g, n, k - 1, j0);
                assert(v & !m == 0 && m & m0 == 0 ==> (u | v) & m0 == u & m0) by (bit_vector);
            }
        }
    }
}

/// A union of values that each lie in their own block's mask lies in the word's field bits.
pub proof fn lemma_union_within(
    g: Seq<FieldBlock>,
    w: int,
    k: int,
    sel: spec_fn(int) -> bool,
    val: spec_fn(int) -> u32,
)
    requires
        0 <= k <= g.len(),
        forall|j: int| 0 <= j < g.len() ==> #[trigger] val(j) & !g[j].mask == 0,
    ensures
        union_where(g, w, k, sel, val) & !field_bits_upto(g, w, k) == 0,
    decreases k,
{
    if k == 0 {
        crate::bits::lemma_word(0);
    } else {
        lemma_union_within(g, w, k - 1, sel, val);
        let u = union_where(g, w, k - 1, sel, val);
        let f = field_bits_upto(g, w, k - 1);
        let m = g[k - 1].mask;
        let v = val(k - 1);
        assert(v & !m == 0);
        assert(u & !f == 0 && v & !m == 0 ==> (u | v) & !(f | m) == 0 && u & !(f | m) == 0)
            by (bit_vector);
    }
}

/// Two words without padding bits are equal when they agree on every block's mask.
pub proof fn lemma_eq_by_blocks(g: Seq<FieldBlock>, w: int, x: u32, y: u32)
    requires
        x & !field_bits(g, w) == 0,
        y & !field_bits(g, w) == 0,
        forall|j: int| 0 <= j < g.len() && g[j].offset == w ==> x & g[j].mask == y & g[j].mask,
    ensures
        x == y,
{
    lemma_eq_upto(g, w, x, y, g.len() as int);
    let f = field_bits(g, w);
    assert(x & !f == 0 && y & !f == 0 && x & f == y & f ==> x == y) by (bit_vector);
}

proof fn lemma_eq_upto(g: Seq<FieldBlock>, w: int, x: u32, y: u32, k: int)
    requires
        0 <= k <= g.len(),
        forall|j: int| 0 <= j < g.len() && g[j].offset == w ==> x & g[j].mask == y & g[j].mask,
    ensures
        x & field_bits_upto(g, w, k) == y & field_bits_upto(g, w, k),
    decreases k,
{
    if k == 0 {
        crate::bits::lemma_word(x);
        crate::bits::lemma_word(y);
    } else {
        lemma_eq_upto(g, w, x, y, k - 1);
        let f = field_bits_upto(g, w, k - 1);
        let m = g[k - 1].mask;
        if g[k - 1].offset == w {
            assert(x & f == y & f && x & m == y & m ==> x & (f | m) == y & (f | m)) by (bit_vector);
        }
    }
}

/// A block's field starts at or before it.
pub proof fn lemma_field_start_le(g: Seq<FieldBlock>, n: nat, i: int)
    requires
        wf_geometry(g, n),
        0 <= i < g.len(),
    ensures
        g[i].field_start as int <= i,
    decreases i,
{
    if i > 0 {
        assert(follows(g[i - 1], g[i], i));
        lemma_field_start_le(g, n, i - 1);
    }
}

/// The blocks of one field are adjacent: every block between a field's first block and
/// one of its blocks belongs to it.
pub proof fn lemma_contiguous(g: Seq<FieldBlock>, n: nat, j: int, k: int)
    requires
        wf_geometry(g, n),
        0 <= j < g.len(),
        g[j].field_start as int <= k <= j,
    ensures
        g[k].field_start == g[j].field_start,
    decreases j - k,
{
    if k < j {
        assert(follows(g[j - 1], g[j], j));
        if g[j - 1].field_start != g[j].field_start {
            assert(g[j].field_start as int == j);
        }
        lemma_contiguous(g, n, j - 1, k);
    }
}

/// The number of blocks of the field starting at block `f`, counted from block `j`.
pub open spec fn field_len_from(g: Seq<FieldBlock>, f: int, j: int) -> int
    decreases g.len() - j,
{
    if j < 0 || j >= g.len() || g[j].field_start != f {
        0
    } else {
        1 + field_len_from(g, f, j + 1)
    }
}

/// The number of blocks of the field starting at block `f`.
pub open spec fn field_len(g: Seq<FieldBlock>, f: int) -> int {
    field_len_from(g, f, f)
}

proof fn lemma_len_from(g: Seq<FieldBlock>, f: int, k: int)
    requires
        0 <= k <= g.len(),
    ensures
        field_len_from(g, f, k) >= 0,
        k + field_len_from(g, f, k) <= g.len(),
        forall|x: int| k <= x < k + field_len_from(g, f, k) ==> #[trigger] g[x].field_start == f,
        k + field_len_from(g, f, k) < g.len() ==> g[k + field_len_from(g, f, k)].field_start != f,
    decreases g.len() - k,
{
    if k < g.len() && g[k].field_start == f {
        lemma_len_from(g, f, k + 1);
    }
}

/// The blocks of the field starting at block `f` are exactly blocks `f` to
/// `f + field_len(g, f) - 1`.
pub proof fn lemma_field_range(g: Seq<FieldBlock>, n: nat, f: int, j: int)
    requires
        wf_geometry(g, n),
        0 <= f < g.len(),
        g[f].field_start == f,
        0 <= j < g.len(),
    ensures
        field_len(g, f) >= 1,
        f + field_len(g, f) <= g.len(),
        (g[j].field_start == f) <==> (f <= j < f + field_len(g, f)),
{
    lemma_len_from(g, f, f);
    let e = f + field_len(g, f);
    if g[j].field_start == f {
        lemma_field_start_le(g, n, j);
        if j >= e {
            lemma_contiguous(g, n, j, e);
        }
    }
}

} // verus!
