//! Reader for parameter files: a header, an array of row descriptors, then row data.
//!
//! Files are read as little-endian with 64-bit offsets, the layout of the hosts this
//! library targets. Rows are handed out as copies and written back explicitly.
use crate::bytes::{read_u16, read_u32, read_u64, u16_le, u32_le, u64_le, write_u32};
use vstd::prelude::*;

verus! {

/// Size in bytes of the fixed part of the header.
pub const HEADER_BYTES: usize = 0x30;

/// Size in bytes of one row descriptor.
pub const ROW_DESCRIPTOR_BYTES: usize = 24;

/// Required alignment of a file's buffer: the host word size.
pub const HOST_WORD_BYTES: usize = 8;

/// The fixed header at the start of a parameter file.
#[derive(Debug, Clone, Copy, PartialEq, Eq)]
pub struct ParamFileHeader {
    pub strings_offset: u32,
    pub short_data_offset: u16,
    pub unk006: u16,
    pub paramdef_data_version: u16,
    pub row_count: u16,
    /// Offset of the row-type name, when the header does not hold it inline.
    pub param_type_offset: u32,
    pub is_big_endian: u8,
    pub format_flags_2d: u8,
    pub format_flags_2e: u8,
    pub paramdef_format_version: u8,
}

/// The header stored in the first bytes of `b`.
pub open spec fn header_of(b: Seq<u8>) -> ParamFileHeader {
    ParamFileHeader {
        strings_offset: u32_le(b, 0),
        short_data_offset: u16_le(b, 4),
        unk006: u16_le(b, 6),
        paramdef_data_version: u16_le(b, 8),
        row_count: u16_le(b, 10),
        param_type_offset: u32_le(b, 16),
        is_big_endian: b[44],
        format_flags_2d: b[45],
        format_flags_2e: b[46],
        paramdef_format_version: b[47],
    }
}

impl ParamFileHeader {
    pub open spec fn spec_header_size(&self) -> usize {
        if (self.format_flags_2d & 3) == 3 || (self.format_flags_2d & 4) != 0 {
            0x40
        } else {
            0x30
        }
    }

    pub open spec fn spec_is_64_bit(&self) -> bool {
        (self.format_flags_2d & 4) != 0
    }

    pub open spec fn spec_data_end_ofs(&self) -> usize {
        if (self.format_flags_2d & 0x80) != 0 {
            self.param_type_offset as usize
        } else {
            self.strings_offset as usize
        }
    }

    /// Size of the header in bytes, as selected by the format flags.
    pub fn header_size(&self) -> (r: usize)
        ensures
            r == self.spec_header_size(),
    {
        let f = self.format_flags_2d;
        if (f & 3) == 3 || (f & 4) != 0 {
            0x40
        } else {
            0x30
        }
    }

    pub fn row_count(&self) -> (r: u16)
        ensures
            r == self.row_count,
    {
        self.row_count
    }

    pub fn is_big_endian(&self) -> (r: bool)
        ensures
            r == (self.is_big_endian != 0),
    {
        self.is_big_endian != 0
    }

    pub fn is_unicode(&self) -> (r: bool)
        ensures
            r == ((self.format_flags_2e & 1) != 0),
    {
        (self.format_flags_2e & 1) != 0
    }

    pub fn is_64_bit(&self) -> (r: bool)
        ensures
            r == self.spec_is_64_bit(),
    {
        (self.format_flags_2d & 4) != 0
    }

    /// Offset of the end of the row data.
    pub fn data_end_ofs(&self) -> (r: usize)
        ensures
            r == self.spec_data_end_ofs(),
    {
        if (self.format_flags_2d & 0x80) != 0 {
            self.param_type_offset as usize
        } else {
            self.strings_offset as usize
        }
    }
}

/// Why a buffer was not accepted as a parameter file.
#[derive(Debug, Clone, Copy, PartialEq, Eq)]
pub enum FromBytesError {
    InsufficientAlignment,
    BufferTooSmall,
    UnsupportedFile { is_big_endian: bool, is_64bit: bool },
    OutOfBoundsOffset,
    IntersectingData,
    UnsortedRowDescs,
    DuplicateIds,
}

/// Where a row's data is, and its id.
#[derive(Debug, Clone, Copy, PartialEq, Eq)]
pub struct ParamRowDescriptor {
    pub id: u32,
    pub data_offset: usize,
    pub name_offset: usize,
}

/// The `k`-th row descriptor of a file whose header is `hs` bytes long.
pub open spec fn descriptor_of(b: Seq<u8>, hs: int, k: int) -> ParamRowDescriptor {
    ParamRowDescriptor {
        id: u32_le(b, hs + 24 * k),
        data_offset: u64_le(b, hs + 24 * k + 8) as usize,
        name_offset: u64_le(b, hs + 24 * k + 16) as usize,
    }
}

/// The row descriptors stored in `b`.
pub open spec fn descriptors_of(b: Seq<u8>) -> Seq<ParamRowDescriptor> {
    let h = header_of(b);
    Seq::new(h.row_count as nat, |k: int| descriptor_of(b, h.spec_header_size() as int, k))
}

/// The ids of the descriptors are strictly ascending.
pub open spec fn ids_ascending(d: Seq<ParamRowDescriptor>) -> bool {
    forall|a: int, c: int| 0 <= a < c < d.len() ==> #[trigger] d[a].id < #[trigger] d[c].id
}

/// The row size: the distance between the first two rows, or from the only row to the end
/// of the data, or zero without rows; `None` where that distance is negative.
pub open spec fn row_size_of(h: ParamFileHeader, d: Seq<ParamRowDescriptor>) -> Option<usize> {
    if d.len() == 0 {
        Some(0)
    } else if d.len() == 1 {
        if d[0].data_offset <= h.spec_data_end_ofs() {
            Some((h.spec_data_end_ofs() - d[0].data_offset) as usize)
        } else {
            None
        }
    } else if d[0].data_offset <= d[1].data_offset {
        Some((d[1].data_offset - d[0].data_offset) as usize)
    } else {
        None
    }
}

/// The byte regions a file uses, as (start, end) pairs: the header with the descriptors,
/// each row, and everything from the end of the row data to the end of the buffer.
pub open spec fn regions_of(h: ParamFileHeader, d: Seq<ParamRowDescriptor>, rs: int, len: int) -> Seq<(int, int)> {
    seq![(0int, h.spec_header_size() + 24 * d.len())] + Seq::new(
        d.len(),
        |k: int| (d[k].data_offset as int, d[k].data_offset + rs),
    ) + seq![(h.spec_data_end_ofs() as int, len)]
}

/// Every region ends inside the buffer and none ends before it starts.
pub open spec fn regions_in_bounds(r: Seq<(int, int)>, len: int) -> bool {
    forall|k: int| 0 <= k < r.len() ==> (#[trigger] r[k]).0 <= r[k].1 <= len
}

/// No two regions share a byte.
pub open spec fn regions_disjoint(r: Seq<(int, int)>) -> bool {
    forall|a: int, c: int|
        0 <= a < r.len() && 0 <= c < r.len() && a != c ==> #[trigger] r[a].1 <= #[trigger] r[c].0
            || r[c].1 <= r[a].0
}

/// What the checked constructor decides for the buffer `b` at address `addr`: the row size
/// of an accepted file, or the first check that fails.
pub open spec fn check_file(b: Seq<u8>, addr: usize) -> Result<usize, FromBytesError> {
    let h = header_of(b);
    let d = descriptors_of(b);
    if addr % 8 != 0 {
        Err(FromBytesError::InsufficientAlignment)
    } else if b.len() < 0x30 {
        Err(FromBytesError::BufferTooSmall)
    } else if h.is_big_endian != 0 || !h.spec_is_64_bit() {
        Err(
            FromBytesError::UnsupportedFile {
                is_big_endian: h.is_big_endian != 0,
                is_64bit: h.spec_is_64_bit(),
            },
        )
    } else if b.len() < h.spec_header_size() + 24 * h.row_count {
        Err(FromBytesError::BufferTooSmall)
    } else if !ids_ascending(d) {
        Err(FromBytesError::UnsortedRowDescs)
    } else if row_size_of(h, d).is_none() || !regions_in_bounds(
        regions_of(h, d, row_size_of(h, d).unwrap() as int, b.len() as int),
        b.len() as int,
    ) {
        Err(FromBytesError::OutOfBoundsOffset)
    } else if !regions_disjoint(
        regions_of(h, d, row_size_of(h, d).unwrap() as int, b.len() as int),
    ) {
        Err(FromBytesError::IntersectingData)
    } else {
        Ok(row_size_of(h, d).unwrap())
    }
}

/// Reads the header from the first bytes of `b`.
fn read_header(b: &[u8]) -> (h: ParamFileHeader)
    requires
        b@.len() >= 0x30,
    ensures
        h == header_of(b@),
{
    ParamFileHeader {
        strings_offset: read_u32(b, 0),
        short_data_offset: read_u16(b, 4),
        unk006: read_u16(b, 6),
        paramdef_data_version: read_u16(b, 8),
        row_count: read_u16(b, 10),
        param_type_offset: read_u32(b, 16),
        is_big_endian: b[44],
        format_flags_2d: b[45],
        format_flags_2e: b[46],
        paramdef_format_version: b[47],
    }
}

/// Reads the row descriptors that follow the header.
fn read_descriptors(b: &[u8], h: &ParamFileHeader) -> (d: Vec<ParamRowDescriptor>)
    requires
        *h == header_of(b@),
        b@.len() >= h.spec_header_size() + 24 * h.row_count,
    ensures
        d@ == descriptors_of(b@),
{
    let hs = h.header_size();
    let n = h.row_count as usize;
    let mut d: Vec<ParamRowDescriptor> = Vec::new();
    let mut k: usize = 0;
    while k < n
        invariant
            *h == header_of(b@),
            hs == h.spec_header_size(),
            n == h.row_count,
            b@.len() >= hs + 24 * n,
            k <= n,
            d@ =~= descriptors_of(b@).take(k as int),
        decreases n - k,
    {
        let base = hs + 24 * k;
        let desc = ParamRowDescriptor {
            id: read_u32(b, base),
            data_offset: read_u64(b, base + 8) as usize,
            name_offset: read_u64(b, base + 16) as usize,
        };
        d.push(desc);
        k += 1;
        proof {
            assert(d@ =~= descriptors_of(b@).take(k as int));
        }
    }
    proof {
        assert(descriptors_of(b@).take(n as int) =~= descriptors_of(b@));
    }
    d
}

/// Tells whether the ids of `d` are strictly ascending.
fn check_ids_ascending(d: &Vec<ParamRowDescriptor>) -> (r: bool)
    ensures
        r == ids_ascending(d@),
{
    let mut k: usize = 1;
    while k < d.len()
        invariant
            1 <= k,
            forall|a: int, c: int| 0 <= a < c < k && c < d@.len() ==> #[trigger] d@[a].id
                < #[trigger] d@[c].id,
        decreases d@.len() - k,
    {
        if d[k - 1].id >= d[k].id {
            return false;
        }
        proof {
            assert forall|a: int, c: int| 0 <= a < c < k + 1 && c < d@.len() implies #[trigger] d@[a].id
                < #[trigger] d@[c].id by {
                if c == k && a < k - 1 {
                    assert(d@[a].id < d@[k - 1].id);
                }
            }
        }
        k += 1;
    }
    true
}

/// The regions of `r` with integer bounds.
pub open spec fn int_pairs(r: Seq<(usize, usize)>) -> Seq<(int, int)> {
    Seq::new(r.len(), |k: int| (r[k].0 as int, r[k].1 as int))
}

/// Relies on `slice::sort_unstable`: the triples are reordered into ascending
/// lexicographic order. Verified code checks the outcome before it relies on it.
#[verifier::external_body]
fn sort_triples(v: &mut Vec<(usize, usize, usize)>)
    ensures
        final(v)@.len() == old(v)@.len(),
{
    v.sort_unstable();
}

/// Tells, comparing every pair, whether no two regions share a byte.
fn disjoint_pairwise(r: &Vec<(usize, usize)>) -> (ok: bool)
    ensures
        ok == regions_disjoint(int_pairs(r@)),
{
    let ghost ip = int_pairs(r@);
    let m = r.len();
    let mut a: usize = 0;
    while a < m
        invariant
            m == r@.len(),
            ip == int_pairs(r@),
            a <= m,
            forall|x: int, c: int|
                0 <= x < a && 0 <= c < m && x != c ==> #[trigger] ip[x].1 <= #[trigger] ip[c].0
                    || ip[c].1 <= ip[x].0,
        decreases m - a,
    {
        let mut c: usize = 0;
        while c < m
            invariant
                m == r@.len(),
                ip == int_pairs(r@),
                a < m,
                c <= m,
                forall|x: int, y: int|
                    0 <= x < a && 0 <= y < m && x != y ==> #[trigger] ip[x].1 <= #[trigger] ip[y].0
                        || ip[y].1 <= ip[x].0,
                forall|y: int| 0 <= y < c && a != y ==> ip[a as int].1 <= #[trigger] ip[y].0
                    || ip[y].1 <= ip[a as int].0,
            decreases m - c,
        {
            if a != c && !(r[a].1 <= r[c].0 || r[c].1 <= r[a].0) {
                proof {
                    assert(!(ip[a as int].1 <= ip[c as int].0 || ip[c as int].1 <= ip[a as int].0));
                }
                return false;
            }
            c += 1;
        }
        a += 1;
    }
    true
}

spec fn sorted_index(t: Seq<(usize, usize, usize)>, r: Seq<(usize, usize)>, pos: Seq<usize>) -> bool {
    &&& t.len() == r.len()
    &&& pos.len() == r.len()
    &&& forall|i: int| 0 <= i < r.len() ==> #[trigger] pos[i] < r.len() && t[pos[i] as int].2 == i
    &&& forall|x: int|
        0 <= x < t.len() ==> (#[trigger] t[x]).2 < r.len() && t[x].0 == r[t[x].2 as int].0 && t[x].1
            == r[t[x].2 as int].1
    &&& forall|x: int|
        0 < x < t.len() ==> (#[trigger] t[x]).0 > t[x - 1].0 || (t[x].0 == t[x - 1].0 && t[x].1
            >= t[x - 1].1)
    &&& forall|x: int, y: int| 0 <= x < y < t.len() ==> #[trigger] t[x].2 != #[trigger] t[y].2
    &&& forall|i: int| 0 <= i < r.len() ==> (#[trigger] r[i]).0 <= r[i].1
}

proof fn lemma_chain(t: Seq<(usize, usize, usize)>, i: int, j: int)
    requires
        0 <= i < j < t.len(),
        forall|k: int| 0 <= k < t.len() ==> (#[trigger] t[k]).0 <= t[k].1,
        forall|k: int| 0 < k < t.len() ==> #[trigger] t[k].0 >= t[k - 1].1,
    ensures
        t[i].1 <= t[j].0,
    decreases j - i,
{
    if j > i + 1 {
        lemma_chain(t, i, j - 1);
        assert(t[j - 1].0 <= t[j - 1].1);
    }
}

/// Tells whether no two regions share a byte: sorts them by start and compares neighbours.
fn disjoint_regions(r: &Vec<(usize, usize)>) -> (ok: bool)
    requires
        forall|k: int| 0 <= k < r@.len() ==> (#[trigger] r@[k]).0 <= r@[k].1,
    ensures
        ok == regions_disjoint(int_pairs(r@)),
{
    let ghost ip = int_pairs(r@);
    let m = r.len();
    let mut t: Vec<(usize, usize, usize)> = Vec::new();
    let mut k: usize = 0;
    while k < m
        invariant
            m == r@.len(),
            k <= m,
            t@.len() == k,
            forall|x: int| 0 <= x < k ==> #[trigger] t@[x] == (r@[x].0, r@[x].1, x as usize),
        decreases m - k,
    {
        t.push((r[k].0, r[k].1, k));
        k += 1;
    }
    sort_triples(&mut t);
    let mut seen: Vec<bool> = Vec::new();
    let mut pos: Vec<usize> = Vec::new();
    k = 0;
    while k < m
        invariant
            m == r@.len(),
            k <= m,
            seen@.len() == k,
            pos@.len() == k,
            forall|x: int| 0 <= x < k ==> !seen@[x],
        decreases m - k,
    {
        seen.push(false);
        pos.push(0);
        k += 1;
    }
    k = 0;
    while k < m
        invariant
            m == r@.len(),
            t@.len() == m,
            seen@.len() == m,
            pos@.len() == m,
            k <= m,
            forall|i: int| 0 <= i < m && #[trigger] seen@[i] ==> pos@[i] < k && t@[pos@[i] as int].2 == i,
            forall|x: int|
                0 <= x < k ==> (#[trigger] t@[x]).2 < m && seen@[t@[x].2 as int] && t@[x].0 == r@[t@[x].2 as int].0
                    && t@[x].1 == r@[t@[x].2 as int].1,
            forall|x: int|
                0 < x < k ==> (#[trigger] t@[x]).0 > t@[x - 1].0 || (t@[x].0 == t@[x - 1].0 && t@[x].1
                    >= t@[x - 1].1),
            forall|x: int, y: int| 0 <= x < y < k ==> #[trigger] t@[x].2 != #[trigger] t@[y].2,
        decreases m - k,
    {
        let e = t[k];
        if e.2 >= m || seen[e.2] || e.0 != r[e.2].0 || e.1 != r[e.2].1 {
            return disjoint_pairwise(r);
        }
        if k > 0 && !(t[k - 1].0 < e.0 || (t[k - 1].0 == e.0 && t[k - 1].1 <= e.1)) {
            return disjoint_pairwise(r);
        }
        let ghost seen0 = seen@;
        seen.set(e.2, true);
        pos.set(e.2, k);
        proof {
            assert forall|x: int, y: int| 0 <= x < y < k + 1 implies #[trigger] t@[x].2 != #[trigger] t@[y].2 by {
                if y == k {
                    assert(seen0[t@[x].2 as int]);
                }
            }
        }
        k += 1;
    }
    k = 0;
    while k < m
        invariant
            m == r@.len(),
            seen@.len() == m,
            k <= m,
            forall|i: int| 0 <= i < k ==> #[trigger] seen@[i],
            t@.len() == m,
            pos@.len() == m,
            forall|i: int| 0 <= i < m && #[trigger] seen@[i] ==> pos@[i] < m && t@[pos@[i] as int].2 == i,
            forall|x: int|
                0 <= x < m ==> (#[trigger] t@[x]).2 < m && t@[x].0 == r@[t@[x].2 as int].0
                    && t@[x].1 == r@[t@[x].2 as int].1,
            forall|x: int|
                0 < x < m ==> (#[trigger] t@[x]).0 > t@[x - 1].0 || (t@[x].0 == t@[x - 1].0 && t@[x].1
                    >= t@[x - 1].1),
            forall|x: int, y: int| 0 <= x < y < m ==> #[trigger] t@[x].2 != #[trigger] t@[y].2,
        decreases m - k,
    {
        if !seen[k] {
            return disjoint_pairwise(r);
        }
        k += 1;
    }
    proof {
        assert forall|i: int| 0 <= i < m implies #[trigger] pos@[i] < m && t@[pos@[i] as int].2 == i by {
            assert(seen@[i]);
        }
        assert(forall|i: int| 0 <= i < r@.len() ==> (#[trigger] r@[i]).0 <= r@[i].1);
    }
    // Every index occurs exactly once in `t`, and `t` is sorted.
    k = 1;
    while k < m
        invariant
            m == r@.len(),
            t@.len() == m,
            ip == int_pairs(r@),
            sorted_index(t@, r@, pos@),
            1 <= k,
            forall|x: int| 0 < x < k && x < m ==> #[trigger] t@[x].0 >= t@[x - 1].1,
        decreases m - k,
    {
        if t[k].0 < t[k - 1].1 {
            proof {
                let i1 = t@[k - 1].2 as int;
                let i2 = t@[k as int].2 as int;
                assert(t@[k as int].2 < m && t@[k - 1].2 < m);
                assert(t@[k as int].0 > t@[k - 1].0 || (t@[k as int].0 == t@[k - 1].0 && t@[k as int].1
                    >= t@[k - 1].1));
                assert(t@[k - 1].2 != t@[k as int].2);
                assert(r@[i1].0 <= r@[i1].1 && r@[i2].0 <= r@[i2].1);
                assert(ip[i1].0 == t@[k - 1].0 && ip[i1].1 == t@[k - 1].1);
                assert(ip[i2].0 == t@[k as int].0 && ip[i2].1 == t@[k as int].1);
                assert(!(ip[i1].1 <= ip[i2].0 || ip[i2].1 <= ip[i1].0));
            }
            return false;
        }
        k += 1;
    }
    proof {
        assert forall|a: int, c: int| 0 <= a < ip.len() && 0 <= c < ip.len() && a != c implies #[trigger] ip[a].1
            <= #[trigger] ip[c].0 || ip[c].1 <= ip[a].0 by {
            let pa = pos@[a] as int;
            let pc = pos@[c] as int;
            assert(t@[pa].2 == a && t@[pc].2 == c);
            assert forall|x: int| 0 <= x < t@.len() implies (#[trigger] t@[x]).0 <= t@[x].1 by {
                assert(r@[t@[x].2 as int].0 <= r@[t@[x].2 as int].1);
            }
            if pa < pc {
                lemma_chain(t@, pa, pc);
            } else {
                lemma_chain(t@, pc, pa);
            }
        }
    }
    true
}

/// A parameter file whose layout has been checked, over the buffer it owns.
#[derive(Debug)]
pub struct ParamFile {
    data: Vec<u8>,
    row_size: usize,
    header: ParamFileHeader,
    row_descriptors: Vec<ParamRowDescriptor>,
}

/// One row: its id and a copy of its bytes.
#[derive(Debug, PartialEq, Eq)]
pub struct Row {
    pub id: u32,
    pub data: Vec<u8>,
}

impl ParamFile {
    /// The bytes of the file.
    pub closed spec fn bytes(&self) -> Seq<u8> {
        self.data@
    }

    /// The descriptors of the rows, in file order.
    pub closed spec fn descriptors(&self) -> Seq<ParamRowDescriptor> {
        self.row_descriptors@
    }

    /// The size of one row in bytes.
    pub closed spec fn spec_row_size(&self) -> usize {
        self.row_size
    }

    /// The checks of the constructor hold of the buffer.
    pub closed spec fn wf(&self) -> bool {
        &&& self.header == header_of(self.data@)
        &&& self.row_descriptors@ == descriptors_of(self.data@)
        &&& ids_ascending(self.row_descriptors@)
        &&& row_size_of(self.header, self.row_descriptors@) == Some(self.row_size)
        &&& regions_in_bounds(
            regions_of(self.header, self.row_descriptors@, self.row_size as int, self.data@.len() as int),
            self.data@.len() as int,
        )
        &&& regions_disjoint(
            regions_of(self.header, self.row_descriptors@, self.row_size as int, self.data@.len() as int),
        )
    }

    /// Parses the buffer `data`, which sits at address `addr`, checking in order: the
    /// alignment of `addr`, room for the header, little-endian 64-bit layout, room for the
    /// descriptors, strictly ascending ids, every region inside the buffer, and no two
    /// regions sharing a byte. On an error the buffer comes back untouched.
    pub fn from_bytes(data: Vec<u8>, addr: usize) -> (r: Result<ParamFile, (FromBytesError, Vec<u8>)>)
        ensures
            r is Ok <==> check_file(data@, addr) is Ok,
            r is Ok ==> {
                let f = r->Ok_0;
                &&& f.wf()
                &&& f.bytes() == data@
                &&& f.descriptors() == descriptors_of(data@)
                &&& f.spec_row_size() == check_file(data@, addr)->Ok_0
            },
            r is Err ==> r->Err_0.0 == check_file(data@, addr)->Err_0 && r->Err_0.1@ == data@,
    {
        if addr % HOST_WORD_BYTES != 0 {
            return Err((FromBytesError::InsufficientAlignment, data));
        }
        if data.len() < HEADER_BYTES {
            return Err((FromBytesError::BufferTooSmall, data));
        }
        let header = read_header(data.as_slice());
        if header.is_big_endian() || !header.is_64_bit() {
            return Err(
                (
                    FromBytesError::UnsupportedFile {
                        is_big_endian: header.is_big_endian(),
                        is_64bit: header.is_64_bit(),
                    },
                    data,
                ),
            );
        }
        let hs = header.header_size();
        let n = header.row_count as usize;
        let len = data.len();
        if len < hs + ROW_DESCRIPTOR_BYTES * n {
            return Err((FromBytesError::BufferTooSmall, data));
        }
        let descs = read_descriptors(data.as_slice(), &header);
        if !check_ids_ascending(&descs) {
            return Err((FromBytesError::UnsortedRowDescs, data));
        }
        let ghost h = header;
        let ghost d = descs@;
        let data_end = header.data_end_ofs();
        let row_size: usize = if n == 0 {
            0
        } else if n == 1 {
            if descs[0].data_offset > data_end {
                return Err((FromBytesError::OutOfBoundsOffset, data));
            }
            data_end - descs[0].data_offset
        } else {
            if descs[0].data_offset > descs[1].data_offset {
                return Err((FromBytesError::OutOfBoundsOffset, data));
            }
            descs[1].data_offset - descs[0].data_offset
        };
        assert(row_size_of(h, d) == Some(row_size));
        let ghost spec_regions = regions_of(h, d, row_size as int, len as int);
        if data_end > len {
            proof {
                assert(spec_regions.len() == n + 2);
                assert(spec_regions[n + 1] == (data_end as int, len as int));
                assert(!(spec_regions[n + 1].0 <= spec_regions[n + 1].1));
                assert(!regions_in_bounds(spec_regions, len as int));
            }
            return Err((FromBytesError::OutOfBoundsOffset, data));
        }
        if row_size > len {
            proof {
                assert(spec_regions[1] == (d[0].data_offset as int, d[0].data_offset + row_size));
                assert(!(spec_regions[1].1 <= len));
                assert(!regions_in_bounds(spec_regions, len as int));
            }
            return Err((FromBytesError::OutOfBoundsOffset, data));
        }
        assert(!regions_in_bounds(spec_regions, len as int) ==> check_file(data@, addr) == Err::<
            usize,
            FromBytesError,
        >(FromBytesError::OutOfBoundsOffset));
        let mut regions: Vec<(usize, usize)> = Vec::new();
        regions.push((0, hs + ROW_DESCRIPTOR_BYTES * n));
        let mut k: usize = 0;
        while k < n
            invariant
                n == d.len(),
                d == descs@,
                row_size <= len,
                hs + 24 * n <= len,
                spec_regions == regions_of(h, d, row_size as int, len as int),
                k <= n,
                regions@.len() == k + 1,
                forall|x: int| 0 <= x <= k ==> #[trigger] int_pairs(regions@)[x] == spec_regions[x],
                forall|x: int| 0 <= x <= k ==> (#[trigger] regions@[x]).0 <= regions@[x].1 <= len,
                h.spec_header_size() == hs,
                !regions_in_bounds(spec_regions, len as int) ==> check_file(data@, addr) == Err::<
                    usize,
                    FromBytesError,
                >(FromBytesError::OutOfBoundsOffset),
            decreases n - k,
        {
            let o = descs[k].data_offset;
            if o > len - row_size {
                proof {
                    assert(spec_regions[k + 1] == (o as int, o + row_size));
                    assert(!(spec_regions[k + 1].1 <= len));
                    assert(!regions_in_bounds(spec_regions, len as int));
                }
                return Err((FromBytesError::OutOfBoundsOffset, data));
            }
            let ghost prev = regions@;
            regions.push((o, o + row_size));
            proof {
                assert(spec_regions[k + 1] == (o as int, o + row_size));
                assert forall|x: int| 0 <= x <= k + 1 implies #[trigger] int_pairs(regions@)[x]
                    == spec_regions[x] by {
                    if x <= k {
                        assert(regions@[x] == prev[x]);
                        assert(int_pairs(prev)[x] == spec_regions[x]);
                    }
                }
            }
            k += 1;
        }
        let ghost prev = regions@;
        assert(data_end <= len);
        regions.push((data_end, len));
        proof {
            assert forall|x: int| 0 <= x <= n implies #[trigger] int_pairs(regions@)[x]
                == spec_regions[x] by {
                assert(regions@[x] == prev[x]);
                assert(int_pairs(prev)[x] == spec_regions[x]);
            }
            assert(spec_regions[n + 1] == (data_end as int, len as int));
            assert(int_pairs(regions@) =~= spec_regions);
            assert(regions_in_bounds(spec_regions, len as int)) by {
                assert forall|x: int| 0 <= x < spec_regions.len() implies (#[trigger] spec_regions[x]).0
                    <= spec_regions[x].1 <= len by {
                    assert(int_pairs(regions@)[x] == spec_regions[x]);
                    assert(regions@[x].0 <= regions@[x].1 <= len);
                }
            }
        }
        if !disjoint_regions(&regions) {
            return Err((FromBytesError::IntersectingData, data));
        }
        Ok(ParamFile { data, row_size, header, row_descriptors: descs })
    }

    /// Builds a file without running the checks of `from_bytes`; the caller vouches that
    /// they pass for an aligned buffer.
    pub fn from_bytes_unchecked(data: Vec<u8>) -> (f: ParamFile)
        requires
            check_file(data@, 0) is Ok,
        ensures
            f.wf(),
            f.bytes() == data@,
            f.descriptors() == descriptors_of(data@),
            f.spec_row_size() == check_file(data@, 0)->Ok_0,
    {
        let header = read_header(data.as_slice());
        let descs = read_descriptors(data.as_slice(), &header);
        let n = descs.len();
        let data_end = header.data_end_ofs();
        let row_size: usize = if n == 0 {
            0
        } else if n == 1 {
            data_end - descs[0].data_offset
        } else {
            descs[1].data_offset - descs[0].data_offset
        };
        ParamFile { data, row_size, header, row_descriptors: descs }
    }

    /// The size of one row in bytes.
    pub fn row_size(&self) -> (r: usize)
        ensures
            r == self.spec_row_size(),
    {
        self.row_size
    }

    /// The file's header.
    pub fn header(&self) -> (r: &ParamFileHeader)
        requires
            self.wf(),
        ensures
            *r == header_of(self.bytes()),
    {
        &self.header
    }

    /// The row descriptors, in file order.
    pub fn row_descriptors(&self) -> (r: &[ParamRowDescriptor])
        ensures
            r@ == self.descriptors(),
    {
        self.row_descriptors.as_slice()
    }

    /// The index of the row with id `row_id`, found by binary search over the ascending ids.
    pub fn index_of(&self, row_id: u32) -> (r: Option<usize>)
        requires
            self.wf(),
        ensures
            r is Some ==> r->0 < self.descriptors().len() && self.descriptors()[r->0 as int].id
                == row_id,
            r is None ==> forall|k: int|
                0 <= k < self.descriptors().len() ==> self.descriptors()[k].id != row_id,
    {
        let d = &self.row_descriptors;
        let mut lo: usize = 0;
        let mut hi: usize = d.len();
        while lo < hi
            invariant
                ids_ascending(d@),
                d@ == self.descriptors(),
                lo <= hi <= d@.len(),
                forall|k: int| 0 <= k < lo ==> d@[k].id < row_id,
                forall|k: int| hi <= k < d@.len() ==> d@[k].id > row_id,
            decreases hi - lo,
        {
            let mid = lo + (hi - lo) / 2;
            let x = d[mid].id;
            if x == row_id {
                return Some(mid);
            } else if x < row_id {
                proof {
                    assert forall|k: int| 0 <= k < mid + 1 implies d@[k].id < row_id by {
                        if k < mid {
                            assert(d@[k].id < d@[mid as int].id);
                        }
                    }
                }
                lo = mid + 1;
            } else {
                proof {
                    assert forall|k: int| mid <= k < d@.len() implies d@[k].id > row_id by {
                        if k > mid {
                            assert(d@[mid as int].id < d@[k].id);
                        }
                    }
                }
                hi = mid;
            }
        }
        None
    }

    /// Row `k`: the id of its descriptor, and the row's bytes, `spec_row_size()` of them
    /// from the descriptor's data offset.
    pub open spec fn spec_row(&self, k: int) -> (u32, Seq<u8>) {
        let o = self.descriptors()[k].data_offset as int;
        (self.descriptors()[k].id, self.bytes().subrange(o, o + self.spec_row_size()))
    }

    proof fn lemma_row_in_bounds(&self, k: int)
        requires
            self.wf(),
            0 <= k < self.row_descriptors@.len(),
        ensures
            self.row_descriptors@[k].data_offset + self.row_size <= self.data@.len(),
    {
        let r = regions_of(
            self.header,
            self.row_descriptors@,
            self.row_size as int,
            self.data@.len() as int,
        );
        assert(r[k + 1] == (
            self.row_descriptors@[k].data_offset as int,
            self.row_descriptors@[k].data_offset + self.row_size,
        ));
    }

    /// A copy of the row at `index`, or `None` past the last row.
    pub fn get(&self, index: usize) -> (r: Option<Row>)
        requires
            self.wf(),
        ensures
            r is None <==> index >= self.descriptors().len(),
            r is Some ==> (r->0.id, r->0.data@) == self.spec_row(index as int),
    {
        if index >= self.row_descriptors.len() {
            return None;
        }
        let o = self.row_descriptors[index].data_offset;
        proof {
            self.lemma_row_in_bounds(index as int);
        }
        let dl = self.data.len();
        let bytes = vstd::slice::slice_subrange(self.data.as_slice(), o, o + self.row_size);
        let data = vstd::slice::slice_to_vec(bytes);
        Some(Row { id: self.row_descriptors[index].id, data })
    }

    /// A copy of the row with id `id`, if there is one.
    pub fn by_id(&self, id: u32) -> (r: Option<Row>)
        requires
            self.wf(),
        ensures
            r is None <==> forall|k: int|
                0 <= k < self.descriptors().len() ==> self.descriptors()[k].id != id,
            r is Some ==> r->0.id == id,
            r is Some ==> exists|k: int|
                0 <= k < self.descriptors().len() && self.descriptors()[k].id == id && (r->0.id, r->0.data@)
                    == self.spec_row(k),
    {
        match self.index_of(id) {
            Some(k) => self.get(k),
            None => None,
        }
    }

    /// Copies of every row, each once, in descriptor order.
    pub fn rows(&self) -> (r: Vec<Row>)
        requires
            self.wf(),
        ensures
            r@.len() == self.descriptors().len(),
            forall|k: int| 0 <= k < r@.len() ==> (r@[k].id, r@[k].data@) == self.spec_row(k),
    {
        let mut out: Vec<Row> = Vec::new();
        let mut k: usize = 0;
        while k < self.row_descriptors.len()
            invariant
                self.wf(),
                k <= self.row_descriptors@.len(),
                out@.len() == k,
                forall|x: int| 0 <= x < k ==> (out@[x].id, out@[x].data@) == self.spec_row(x),
            decreases self.row_descriptors@.len() - k,
        {
            match self.get(k) {
                Some(row) => out.push(row),
                None => {},
            }
            k += 1;
        }
        out
    }

    /// Row `index` as 32-bit little-endian words; a trailing partial word is left out.
    pub fn row_words(&self, index: usize) -> (r: Option<Vec<u32>>)
        requires
            self.wf(),
        ensures
            r is None <==> index >= self.descriptors().len(),
            r is Some ==> r->0@.len() == self.spec_row_size() / 4 && forall|w: int|
                0 <= w < r->0@.len() ==> #[trigger] r->0@[w] == u32_le(
                    self.bytes(),
                    self.descriptors()[index as int].data_offset + 4 * w,
                ),
    {
        if index >= self.row_descriptors.len() {
            return None;
        }
        let o = self.row_descriptors[index].data_offset;
        proof {
            self.lemma_row_in_bounds(index as int);
        }
        let n = self.row_size / 4;
        let dl = self.data.len();
        let mut words: Vec<u32> = Vec::new();
        let mut w: usize = 0;
        while w < n
            invariant
                n == self.row_size / 4,
                dl == self.data@.len(),
                o + self.row_size <= self.data@.len(),
                w <= n,
                words@.len() == w,
                forall|x: int| 0 <= x < w ==> #[trigger] words@[x] == u32_le(self.data@, o + 4 * x),
            decreases n - w,
        {
            words.push(read_u32(self.data.as_slice(), o + 4 * w));
            w += 1;
        }
        Some(words)
    }

    /// Writes `words` as 32-bit little-endian words over row `index`; returns `false`, and
    /// changes nothing, when there is no such row or `words` does not fill it.
    pub fn write_row_words(&mut self, index: usize, words: &[u32]) -> (ok: bool)
        requires
            old(self).wf(),
        ensures
            final(self).wf(),
            final(self).descriptors() == old(self).descriptors(),
            final(self).spec_row_size() == old(self).spec_row_size(),
            final(self).bytes().len() == old(self).bytes().len(),
            ok == (index < old(self).descriptors().len() && words@.len()
                == old(self).spec_row_size() / 4),
            !ok ==> final(self).bytes() == old(self).bytes(),
            ok ==> forall|w: int|
                0 <= w < words@.len() ==> #[trigger] u32_le(
                    final(self).bytes(),
                    old(self).descriptors()[index as int].data_offset + 4 * w,
                ) == words@[w],
            ok ==> forall|i: int|
                0 <= i < old(self).bytes().len() && !(old(self).descriptors()[index as int].data_offset
                    <= i < old(self).descriptors()[index as int].data_offset + 4 * words@.len())
                    ==> #[trigger] final(self).bytes()[i] == old(self).bytes()[i],
    {
        if index >= self.row_descriptors.len() || words.len() != self.row_size / 4 {
            return false;
        }
        let o = self.row_descriptors[index].data_offset;
        proof {
            self.lemma_row_in_bounds(index as int);
        }
        let ghost b0 = self.data@;
        let ghost hs = self.header.spec_header_size() as int;
        let ghost n = self.row_descriptors@.len();
        proof {
            let r = regions_of(self.header, self.row_descriptors@, self.row_size as int, b0.len() as int);
            assert(r[0] == (0int, hs + 24 * n));
            assert(r[index + 1] == (o as int, o + self.row_size));
        }
        let m = words.len();
        let dl = self.data.len();
        let mut w: usize = 0;
        while w < m
            invariant
                self.header == old(self).header,
                self.row_descriptors == old(self).row_descriptors,
                self.row_size == old(self).row_size,
                dl == b0.len(),
                m == words@.len(),
                m == self.row_size / 4,
                o + self.row_size <= b0.len(),
                self.data@.len() == b0.len(),
                w <= m,
                forall|x: int| 0 <= x < w ==> #[trigger] u32_le(self.data@, o + 4 * x) == words@[x],
                forall|i: int| 0 <= i < b0.len() && !(o <= i < o + 4 * w) ==> self.data@[i] == b0[i],
            decreases m - w,
        {
            let ghost prev = self.data@;
            write_u32(&mut self.data, o + 4 * w, words[w]);
            proof {
                assert forall|x: int| 0 <= x < w + 1 implies #[trigger] u32_le(self.data@, o + 4 * x)
                    == words@[x] by {
                    if x < w {
                        assert(u32_le(prev, o + 4 * x) == words@[x]);
                        assert(self.data@[o + 4 * x] == prev[o + 4 * x]);
                        assert(self.data@[o + 4 * x + 1] == prev[o + 4 * x + 1]);
                        assert(self.data@[o + 4 * x + 2] == prev[o + 4 * x + 2]);
                        assert(self.data@[o + 4 * x + 3] == prev[o + 4 * x + 3]);
                    }
                }
            }
            w += 1;
        }
        proof {
            // The row lies after the header and the descriptors, which are left untouched.
            let b1 = self.data@;
            if self.row_size >= 4 {
                assert(hs + 24 * n <= o);
            }
            assert forall|i: int| 0 <= i < hs + 24 * n implies b1[i] == b0[i] by {}
            assert(header_of(b1) == header_of(b0));
            assert(descriptors_of(b1) =~= descriptors_of(b0));
        }
        true
    }

    /// Writes `bytes` over row `index`; returns `false`, and changes nothing, when there is
    /// no such row or `bytes` is not one row long.
    pub fn write_row(&mut self, index: usize, bytes: &[u8]) -> (ok: bool)
        requires
            old(self).wf(),
        ensures
            final(self).wf(),
            final(self).descriptors() == old(self).descriptors(),
            final(self).spec_row_size() == old(self).spec_row_size(),
            final(self).bytes().len() == old(self).bytes().len(),
            ok == (index < old(self).descriptors().len() && bytes@.len() == old(self).spec_row_size()),
            !ok ==> final(self).bytes() == old(self).bytes(),
            ok ==> forall|i: int|
                0 <= i < old(self).bytes().len() ==> #[trigger] final(self).bytes()[i] == {
                    let o = old(self).descriptors()[index as int].data_offset as int;
                    if o <= i < o + bytes@.len() {
                        bytes@[i - o]
                    } else {
                        old(self).bytes()[i]
                    }
                },
    {
        if index >= self.row_descriptors.len() || bytes.len() != self.row_size {
            return false;
        }
        let o = self.row_descriptors[index].data_offset;
        proof {
            self.lemma_row_in_bounds(index as int);
        }
        let ghost b0 = self.data@;
        let ghost hs = self.header.spec_header_size() as int;
        let ghost n = self.row_descriptors@.len();
        proof {
            let r = regions_of(self.header, self.row_descriptors@, self.row_size as int, b0.len() as int);
            assert(r[0] == (0int, hs + 24 * n));
            assert(r[index + 1] == (o as int, o + self.row_size));
        }
        let m = bytes.len();
        let dl = self.data.len();
        let mut k: usize = 0;
        while k < m
            invariant
                self.header == old(self).header,
                self.row_descriptors == old(self).row_descriptors,
                self.row_size == old(self).row_size,
                dl == b0.len(),
                m == bytes@.len(),
                m == self.row_size,
                o + self.row_size <= b0.len(),
                self.data@.len() == b0.len(),
                k <= m,
                forall|i: int| 0 <= i < b0.len() ==> #[trigger] self.data@[i] == if o <= i < o + k {
                    bytes@[i - o]
                } else {
                    b0[i]
                },
            decreases m - k,
        {
            self.data.set(o + k, bytes[k]);
            k += 1;
        }
        proof {
            // The row lies after the header and the descriptors, which are left untouched.
            let b1 = self.data@;
            if self.row_size >= 1 {
                assert(hs + 24 * n <= o);
            }
            assert forall|i: int| 0 <= i < hs + 24 * n implies b1[i] == b0[i] by {}
            assert(header_of(b1) == header_of(b0));
            assert(descriptors_of(b1) =~= descriptors_of(b0));
        }
        true
    }

    /// Writes `bytes` over the row with id `id`; returns `false`, and changes nothing, when
    /// there is no such row or `bytes` is not one row long.
    pub fn write_by_id(&mut self, id: u32, bytes: &[u8]) -> (ok: bool)
        requires
            old(self).wf(),
        ensures
            final(self).wf(),
            final(self).descriptors() == old(self).descriptors(),
            final(self).spec_row_size() == old(self).spec_row_size(),
            final(self).bytes().len() == old(self).bytes().len(),
            ok == (bytes@.len() == old(self).spec_row_size() && exists|k: int|
                0 <= k < old(self).descriptors().len() && old(self).descriptors()[k].id == id),
            !ok ==> final(self).bytes() == old(self).bytes(),
            ok ==> exists|k: int|
                0 <= k < old(self).descriptors().len() && old(self).descriptors()[k].id == id
                    && forall|i: int|
                    0 <= i < old(self).bytes().len() ==> #[trigger] final(self).bytes()[i] == {
                        let o = old(self).descriptors()[k].data_offset as int;
                        if o <= i < o + bytes@.len() {
                            bytes@[i - o]
                        } else {
                            old(self).bytes()[i]
                        }
                    },
    {
        match self.index_of(id) {
            Some(k) => self.write_row(k, bytes),
            None => false,
        }
    }

    /// Gives the buffer back.
    pub fn into_bytes(self) -> (r: Vec<u8>)
        ensures
            r@ == self.bytes(),
    {
        self.data
    }
}

} // verus!
