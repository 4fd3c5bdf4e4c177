//! Row-type definitions: field types, the bit layout of a row, and its lowering to
//! field blocks.
use crate::geometry::{check_geometry, wf_geometry, FieldBlock};
use vstd::prelude::*;

verus! {

/// The machine type a field's base type is stored as.
#[derive(Debug, Clone, Copy, PartialEq, Eq, Structural)]
pub enum DefBaseRustType {
    U8,
    I8,
    U16,
    I16,
    U32,
    I32,
    F32,
}

impl DefBaseRustType {
    pub open spec fn spec_size_bytes(&self) -> usize {
        match *self {
            DefBaseRustType::U8 | DefBaseRustType::I8 => 1,
            DefBaseRustType::U16 | DefBaseRustType::I16 => 2,
            _ => 4,
        }
    }

    /// Size in bytes.
    pub fn size_bytes(&self) -> (r: usize)
        ensures
            r == self.spec_size_bytes(),
    {
        match *self {
            DefBaseRustType::U8 | DefBaseRustType::I8 => 1,
            DefBaseRustType::U16 | DefBaseRustType::I16 => 2,
            DefBaseRustType::U32 | DefBaseRustType::I32 | DefBaseRustType::F32 => 4,
        }
    }

    /// Alignment in bytes: the size.
    pub fn alignment(&self) -> (r: usize)
        ensures
            r == self.spec_size_bytes(),
    {
        self.size_bytes()
    }

    /// The Rust name of the type.
    pub fn to_str(&self) -> (r: &'static str)
        ensures
            r@ == match *self {
                DefBaseRustType::U8 => "u8"@,
                DefBaseRustType::I8 => "i8"@,
                DefBaseRustType::U16 => "u16"@,
                DefBaseRustType::I16 => "i16"@,
                DefBaseRustType::U32 => "u32"@,
                DefBaseRustType::I32 => "i32"@,
                DefBaseRustType::F32 => "f32"@,
            },
    {
        match *self {
            DefBaseRustType::U8 => "u8",
            DefBaseRustType::I8 => "i8",
            DefBaseRustType::U16 => "u16",
            DefBaseRustType::I16 => "i16",
            DefBaseRustType::U32 => "u32",
            DefBaseRustType::I32 => "i32",
            DefBaseRustType::F32 => "f32",
        }
    }
}

/// The base type of a field as written in a definition.
#[derive(Debug, Clone, Copy, PartialEq, Eq, Structural)]
pub enum DefBaseType {
    Dummy8,
    S8,
    U8,
    S16,
    U16,
    S32,
    U32,
    F32,
    Fixstr,
    FixstrW,
}

/// The base type named by `s`.
pub open spec fn base_type_named(s: Seq<char>) -> Option<DefBaseType> {
    if s == "dummy8"@ {
        Some(DefBaseType::Dummy8)
    } else if s == "s8"@ {
        Some(DefBaseType::S8)
    } else if s == "u8"@ {
        Some(DefBaseType::U8)
    } else if s == "s16"@ {
        Some(DefBaseType::S16)
    } else if s == "u16"@ {
        Some(DefBaseType::U16)
    } else if s == "s32"@ {
        Some(DefBaseType::S32)
    } else if s == "u32"@ {
        Some(DefBaseType::U32)
    } else if s == "f32"@ {
        Some(DefBaseType::F32)
    } else if s == "fixstr"@ {
        Some(DefBaseType::Fixstr)
    } else if s == "fixstrW"@ {
        Some(DefBaseType::FixstrW)
    } else {
        None
    }
}

fn same_text(s: &str, lit: &str) -> (r: bool)
    ensures
        r == (s@ == lit@),
{
    s.to_owned() == lit.to_owned()
}

impl DefBaseType {
    pub open spec fn spec_rust_type(&self) -> DefBaseRustType {
        match *self {
            DefBaseType::Dummy8 => DefBaseRustType::U8,
            DefBaseType::S8 => DefBaseRustType::I8,
            DefBaseType::U8 => DefBaseRustType::U8,
            DefBaseType::S16 => DefBaseRustType::I16,
            DefBaseType::U16 => DefBaseRustType::U16,
            DefBaseType::S32 => DefBaseRustType::I32,
            DefBaseType::U32 => DefBaseRustType::U32,
            DefBaseType::F32 => DefBaseRustType::F32,
            DefBaseType::Fixstr => DefBaseRustType::I8,
            DefBaseType::FixstrW => DefBaseRustType::I16,
        }
    }

    pub open spec fn spec_size_bytes(&self) -> usize {
        self.spec_rust_type().spec_size_bytes()
    }

    /// The machine type the base type is stored as; strings are arrays of 8- or 16-bit units.
    pub fn rust_type(&self) -> (r: DefBaseRustType)
        ensures
            r == self.spec_rust_type(),
    {
        match *self {
            DefBaseType::Dummy8 => DefBaseRustType::U8,
            DefBaseType::S8 => DefBaseRustType::I8,
            DefBaseType::U8 => DefBaseRustType::U8,
            DefBaseType::S16 => DefBaseRustType::I16,
            DefBaseType::U16 => DefBaseRustType::U16,
            DefBaseType::S32 => DefBaseRustType::I32,
            DefBaseType::U32 => DefBaseRustType::U32,
            DefBaseType::F32 => DefBaseRustType::F32,
            DefBaseType::Fixstr => DefBaseRustType::I8,
            DefBaseType::FixstrW => DefBaseRustType::I16,
        }
    }

    /// Size in bytes of one unit of the type.
    pub fn size_bytes(&self) -> (r: usize)
        ensures
            r == self.spec_size_bytes(),
    {
        self.rust_type().size_bytes()
    }

    /// Alignment in bytes: the size.
    pub fn alignment(&self) -> (r: usize)
        ensures
            r == self.spec_size_bytes(),
    {
        self.rust_type().alignment()
    }

    /// The base type named by `s`, or `None` for an unknown name.
    pub fn from_str(s: &str) -> (r: Option<DefBaseType>)
        ensures
            r == base_type_named(s@),
    {
        if same_text(s, "dummy8") {
            Some(DefBaseType::Dummy8)
        } else if same_text(s, "s8") {
            Some(DefBaseType::S8)
        } else if same_text(s, "u8") {
            Some(DefBaseType::U8)
        } else if same_text(s, "s16") {
            Some(DefBaseType::S16)
        } else if same_text(s, "u16") {
            Some(DefBaseType::U16)
        } else if same_text(s, "s32") {
            Some(DefBaseType::S32)
        } else if same_text(s, "u32") {
            Some(DefBaseType::U32)
        } else if same_text(s, "f32") {
            Some(DefBaseType::F32)
        } else if same_text(s, "fixstr") {
            Some(DefBaseType::Fixstr)
        } else if same_text(s, "fixstrW") {
            Some(DefBaseType::FixstrW)
        } else {
            None
        }
    }
}

/// What follows a field's name: nothing, an array length, or a bitfield width.
#[derive(Debug, Clone, Copy, PartialEq, Eq, Structural)]
pub enum DefTypeModifier {
    /// A single value of the base type.
    Plain,
    Array(usize),
    Bitfield(usize),
}

impl DefTypeModifier {
    pub fn is_array(&self) -> (r: bool)
        ensures
            r == (*self is Array),
    {
        match *self {
            DefTypeModifier::Array(_) => true,
            _ => false,
        }
    }

    pub fn is_bitfield(&self) -> (r: bool)
        ensures
            r == (*self is Bitfield),
    {
        match *self {
            DefTypeModifier::Bitfield(_) => true,
            _ => false,
        }
    }
}

/// Largest array length or bitfield width a definition may use.
pub const MAX_MODIFIER: usize = 0xFFFF_FFFF;

/// The type of a field: its base type and modifier, with the field's name.
#[derive(Debug, PartialEq, Eq)]
pub struct DefType {
    pub name: String,
    pub base_type: DefBaseType,
    pub modifier: DefTypeModifier,
}

proof fn lemma_mul_bound(len: u64, sz: u64)
    requires
        len <= 0xFFFF_FFFF,
        sz <= 4,
    ensures
        len * sz <= 0x4_0000_0000,
{
    assert(len * sz <= 0xFFFF_FFFF * 4) by (nonlinear_arith)
        requires
            len <= 0xFFFF_FFFF,
            sz <= 4,
    ;
}

proof fn lemma_round_up_bound(y: u64, a: u64)
    requires
        a > 0,
    ensures
        y / a * a <= y,
{
    assert(y / a * a <= y) by (nonlinear_arith)
        requires
            a > 0,
    ;
}

/// `x` rounded up to a multiple of `a`.
pub open spec fn round_up(x: int, a: int) -> int {
    (x + a - 1) / a * a
}

impl DefType {
    /// The modifier's length or width is at most `MAX_MODIFIER`.
    pub open spec fn wf(&self) -> bool {
        match self.modifier {
            DefTypeModifier::Plain => true,
            DefTypeModifier::Array(n) => n <= MAX_MODIFIER,
            DefTypeModifier::Bitfield(n) => n <= MAX_MODIFIER,
        }
    }

    pub open spec fn spec_size_bits(&self) -> int {
        match self.modifier {
            DefTypeModifier::Plain => 8 * self.base_type.spec_size_bytes(),
            DefTypeModifier::Array(len) => 8 * len * self.base_type.spec_size_bytes(),
            DefTypeModifier::Bitfield(width) => width as int,
        }
    }

    pub open spec fn spec_alignment_bits(&self) -> int {
        8 * self.base_type.spec_size_bytes()
    }

    /// Where a field of this type starts when the previous enabled field, of type `prev`,
    /// starts at bit `prev_offset`: in the same storage unit when both are bitfields of
    /// one machine type and the unit has room, else after `prev`, aligned.
    pub open spec fn spec_offset_after(&self, prev_offset: int, prev: DefType) -> int {
        let ab = self.spec_alignment_bits();
        match (self.modifier, prev.modifier) {
            (DefTypeModifier::Bitfield(w), DefTypeModifier::Bitfield(pw)) => {
                if self.base_type.spec_rust_type() == prev.base_type.spec_rust_type() && prev_offset
                    % ab + pw + w <= ab {
                    prev_offset + pw
                } else {
                    round_up(prev_offset + prev.spec_size_bits(), ab)
                }
            },
            _ => round_up(prev_offset + prev.spec_size_bits(), ab),
        }
    }

    /// Size in bytes; a bitfield counts as one unit of its base type.
    pub fn size_bytes(&self) -> (r: u64)
        requires
            self.wf(),
        ensures
            r == match self.modifier {
                DefTypeModifier::Array(len) => len * self.base_type.spec_size_bytes(),
                _ => self.base_type.spec_size_bytes() as int,
            },
    {
        match self.modifier {
            DefTypeModifier::Plain | DefTypeModifier::Bitfield(_) => self.base_type.size_bytes() as u64,
            DefTypeModifier::Array(len) => {
                let sz = self.base_type.size_bytes() as u64;
                proof {
                    lemma_mul_bound(len as u64, sz);
                }
                len as u64 * sz
            },
        }
    }

    /// Size in bits.
    pub fn size_bits(&self) -> (r: u64)
        requires
            self.wf(),
        ensures
            r == self.spec_size_bits(),
            r <= 0x20_0000_0000,
    {
        match self.modifier {
            DefTypeModifier::Plain => 8 * self.base_type.size_bytes() as u64,
            DefTypeModifier::Array(len) => {
                let sz = self.base_type.size_bytes() as u64;
                proof {
                    lemma_mul_bound(len as u64, sz);
                }
                8 * (len as u64 * sz)
            },
            DefTypeModifier::Bitfield(width) => width as u64,
        }
    }

    /// Alignment in bytes.
    pub fn alignment(&self) -> (r: u64)
        ensures
            r == self.base_type.spec_size_bytes(),
    {
        self.base_type.alignment() as u64
    }

    /// Alignment in bits.
    pub fn alignment_bits(&self) -> (r: u64)
        ensures
            r == self.spec_alignment_bits(),
    {
        self.alignment() * 8
    }

    /// The bit offset of a field of this type that follows a field of type `prev_field`
    /// starting at bit `prev_offset`.
    pub fn compute_bit_offset(&self, prev_offset: u64, prev_field: &DefType) -> (r: u64)
        requires
            self.wf(),
            prev_field.wf(),
            prev_offset <= 0x1000_0000_0000_0000,
        ensures
            r == self.spec_offset_after(prev_offset as int, *prev_field),
            r <= prev_offset + 0x40_0000_0000,
    {
        let ab = self.alignment_bits();
        if let DefTypeModifier::Bitfield(my_bit_width) = self.modifier {
            if let DefTypeModifier::Bitfield(prev_bit_width) = prev_field.modifier {
                if self.base_type.rust_type() == prev_field.base_type.rust_type() {
                    let bit_shift = prev_offset % ab;
                    if bit_shift + prev_bit_width as u64 + my_bit_width as u64 <= ab {
                        return prev_offset + prev_bit_width as u64;
                    }
                }
            }
        }
        let next_offset = prev_offset + prev_field.size_bits();
        proof {
            lemma_round_up_bound((next_offset + ab - 1) as u64, ab);
        }
        (next_offset + ab - 1) / ab * ab
    }
}

/// One field of a row-type definition, with what the layout needs.
#[derive(Debug)]
pub struct DefField {
    pub field_def: DefType,
    pub display_name: Option<String>,
    pub enum_name: Option<String>,
    pub description: Option<String>,
    pub edit_flags: Option<String>,
    pub sort_id: Option<i32>,
    /// First schema version that has the field.
    pub first_version: Option<u64>,
    /// First schema version that no longer has it.
    pub removed_version: Option<u64>,
}

impl DefField {
    pub open spec fn spec_enabled(&self, version: u64) -> bool {
        (match self.first_version {
            Some(v) => v <= version,
            None => true,
        }) && (match self.removed_version {
            Some(v) => v > version,
            None => true,
        })
    }

    /// The field exists in schema version `version`.
    pub fn enabled_for_version(&self, version: u64) -> (r: bool)
        ensures
            r == self.spec_enabled(version),
    {
        let after_first = match self.first_version {
            Some(v) => v <= version,
            None => true,
        };
        let before_removed = match self.removed_version {
            Some(v) => v > version,
            None => true,
        };
        after_first && before_removed
    }

    pub fn alignment(&self) -> (r: u64)
        ensures
            r == self.field_def.base_type.spec_size_bytes(),
    {
        self.field_def.alignment()
    }

    pub fn alignment_bits(&self) -> (r: u64)
        ensures
            r == self.field_def.spec_alignment_bits(),
    {
        self.field_def.alignment_bits()
    }

    pub fn size_bytes(&self) -> (r: u64)
        requires
            self.field_def.wf(),
        ensures
            r == match self.field_def.modifier {
                DefTypeModifier::Array(len) => len * self.field_def.base_type.spec_size_bytes(),
                _ => self.field_def.base_type.spec_size_bytes() as int,
            },
    {
        self.field_def.size_bytes()
    }

    pub fn size_bits(&self) -> (r: u64)
        requires
            self.field_def.wf(),
        ensures
            r == self.field_def.spec_size_bits(),
            r <= 0x20_0000_0000,
    {
        self.field_def.size_bits()
    }
}

/// The layout after the first fields of a definition: where the last enabled field starts,
/// which field that is, and the largest alignment seen, in bits.
pub struct LayoutState {
    pub bit_offset: int,
    pub last: Option<int>,
    pub align_bits: int,
}

/// The layout after the first `i` fields, for schema version `version`.
pub open spec fn layout_upto(fields: Seq<DefField>, version: u64, i: int) -> LayoutState
    decreases i,
{
    if i <= 0 {
        LayoutState { bit_offset: 0, last: None, align_bits: 8 }
    } else {
        let st = layout_upto(fields, version, i - 1);
        let f = fields[i - 1];
        if !f.spec_enabled(version) {
            st
        } else {
            LayoutState {
                bit_offset: match st.last {
                    Some(j) => f.field_def.spec_offset_after(st.bit_offset, fields[j].field_def),
                    None => 0,
                },
                last: Some(i - 1),
                align_bits: if f.field_def.spec_alignment_bits() > st.align_bits {
                    f.field_def.spec_alignment_bits()
                } else {
                    st.align_bits
                },
            }
        }
    }
}

/// The bit offset of field `i`, or `None` when the version leaves it out.
pub open spec fn field_offset(fields: Seq<DefField>, version: u64, i: int) -> Option<u64> {
    if fields[i].spec_enabled(version) {
        Some(layout_upto(fields, version, i + 1).bit_offset as u64)
    } else {
        None
    }
}

/// The row size in bytes: the end of the last enabled field, rounded up to the largest
/// alignment.
pub open spec fn row_size_bytes(fields: Seq<DefField>, version: u64) -> int {
    let st = layout_upto(fields, version, fields.len() as int);
    let last_size = match st.last {
        Some(j) => fields[j].field_def.spec_size_bits(),
        None => 0,
    };
    round_up(st.bit_offset + last_size, st.align_bits) / 8
}

/// A row-type definition.
#[derive(Debug)]
pub struct Paramdef {
    pub param_type: String,
    pub data_version: u32,
    pub big_endian: bool,
    pub unicode: bool,
    pub format_version: u32,
    pub fields: Vec<DefField>,
    /// The bit offset of each field, once computed; `None` for a field the version leaves out.
    pub bit_offsets: Vec<Option<u64>>,
    /// The row size in bytes, once computed.
    pub size_bytes: Option<u64>,
}

impl Paramdef {
    /// The definition can be laid out: not too many fields, each with a bounded modifier.
    pub open spec fn wf(&self) -> bool {
        &&& self.fields@.len() < 0x10000
        &&& forall|i: int| 0 <= i < self.fields@.len() ==> (#[trigger] self.fields@[i]).field_def.wf()
    }

    /// Computes the bit offset of every field enabled in schema version `version` (the
    /// largest value selects the latest), and the row size.
    pub fn compute_field_offsets(&mut self, version: u64) -> (r: &mut Self)
        requires
            old(self).wf(),
        ensures
            *final(self) == *final(r),
            r.fields == old(self).fields,
            r.param_type == old(self).param_type,
            r.bit_offsets@.len() == old(self).fields@.len(),
            forall|i: int|
                0 <= i < old(self).fields@.len() ==> #[trigger] r.bit_offsets@[i] == field_offset(
                    old(self).fields@,
                    version,
                    i,
                ),
            r.size_bytes == Some(row_size_bytes(old(self).fields@, version) as u64),
            forall|i: int|
                0 <= i < r.bit_offsets@.len() && (#[trigger] r.bit_offsets@[i]) is Some
                    ==> r.bit_offsets@[i]->0 <= 0x1000_0000_0000_0000,
    {
        let ghost fs = self.fields@;
        let n = self.fields.len();
        let mut offsets: Vec<Option<u64>> = Vec::new();
        let mut bit_offset: u64 = 0;
        let mut last_field: Option<usize> = None;
        let mut align_bits: u64 = 8;
        let mut i: usize = 0;
        while i < n
            invariant
                fs == self.fields@,
                n == fs.len(),
                n < 0x10000,
                forall|k: int| 0 <= k < n ==> (#[trigger] fs[k]).field_def.wf(),
                i <= n,
                offsets@.len() == i,
                forall|k: int| 0 <= k < i ==> #[trigger] offsets@[k] == field_offset(fs, version, k),
                forall|k: int|
                    0 <= k < i && (#[trigger] offsets@[k]) is Some ==> offsets@[k]->0
                        <= 0x1000_0000_0000_0000,
                layout_upto(fs, version, i as int).bit_offset == bit_offset as int,
                layout_upto(fs, version, i as int).align_bits == align_bits as int,
                8 <= align_bits <= 32,
                bit_offset <= i * 0x40_0000_0000,
                match last_field {
                    Some(j) => layout_upto(fs, version, i as int).last == Some(j as int) && j < i,
                    None => layout_upto(fs, version, i as int).last is None,
                },
            decreases n - i,
        {
            let f = &self.fields[i];
            if !f.enabled_for_version(version) {
                offsets.push(None);
            } else {
                bit_offset = match last_field {
                    Some(j) => f.field_def.compute_bit_offset(bit_offset, &self.fields[j].field_def),
                    None => 0,
                };
                let ab = f.alignment_bits();
                if ab > align_bits {
                    align_bits = ab;
                }
                last_field = Some(i);
                offsets.push(Some(bit_offset));
            }
            i += 1;
        }
        let last_size = match last_field {
            Some(j) => self.fields[j].size_bits(),
            None => 0,
        };
        let end = bit_offset + last_size;
        proof {
            lemma_round_up_bound((end + align_bits - 1) as u64, align_bits);
        }
        let size = (end + align_bits - 1) / align_bits * align_bits / 8;
        self.bit_offsets = offsets;
        self.size_bytes = Some(size);
        self
    }
}

/// The bits of word `w` that a field starting at bit `bo` and `sz` bits long occupies:
/// bits `lo` up to, but not including, `hi` of the word.
pub open spec fn word_mask(bo: int, sz: int, w: int) -> u32 {
    let lo = if bo > 32 * w {
        bo - 32 * w
    } else {
        0
    };
    let hi = if bo + sz < 32 * w + 32 {
        bo + sz - 32 * w
    } else {
        32
    };
    ((1u64 << (hi as u64)) - (1u64 << (lo as u64))) as u32
}

/// The blocks of one field, as (field start, word, mask): one for each word it touches.
pub open spec fn blocks_for_field(start: int, bo: int, sz: int) -> Seq<(int, int, u32)> {
    if sz <= 0 {
        Seq::empty()
    } else {
        Seq::new(
            ((bo + sz - 1) / 32 - bo / 32 + 1) as nat,
            |k: int| (start, bo / 32 + k, word_mask(bo, sz, bo / 32 + k)),
        )
    }
}

/// The blocks of the first `i` fields, placed at `offsets`.
pub open spec fn lowered_upto(fields: Seq<DefField>, offsets: Seq<Option<u64>>, i: int) -> Seq<(int, int, u32)>
    decreases i,
{
    if i <= 0 {
        Seq::empty()
    } else {
        let prev = lowered_upto(fields, offsets, i - 1);
        match offsets[i - 1] {
            Some(bo) => prev + blocks_for_field(
                prev.len() as int,
                bo as int,
                fields[i - 1].field_def.spec_size_bits(),
            ),
            None => prev,
        }
    }
}

/// The block described by a (field start, word, mask) triple.
pub open spec fn to_block(t: (int, int, u32)) -> FieldBlock {
    FieldBlock { field_start: t.0 as u16, offset: t.1 as u16, mask: t.2 }
}

/// The blocks fit the 16-bit indices of `FieldBlock`.
pub open spec fn blocks_fit(b: Seq<(int, int, u32)>) -> bool {
    b.len() <= 0xFFFF && forall|k: int| 0 <= k < b.len() ==> (#[trigger] b[k]).1 <= 0xFFFF
}

proof fn lemma_lowered_prefix(fields: Seq<DefField>, offsets: Seq<Option<u64>>, i: int, j: int)
    requires
        0 <= i <= j,
    ensures
        lowered_upto(fields, offsets, i).len() <= lowered_upto(fields, offsets, j).len(),
        forall|k: int|
            0 <= k < lowered_upto(fields, offsets, i).len() ==> #[trigger] lowered_upto(
                fields,
                offsets,
                i,
            )[k] == lowered_upto(fields, offsets, j)[k],
    decreases j - i,
{
    if i < j {
        lemma_lowered_prefix(fields, offsets, i, j - 1);
    }
}

impl Paramdef {
    /// Lowers the laid-out definition to field blocks over 32-bit words: for each field
    /// with an offset, one block per word it touches, all naming the field's first block.
    /// `None` when a word index or a block index does not fit in 16 bits.
    pub fn field_blocks(&self) -> (r: Option<Vec<FieldBlock>>)
        requires
            self.wf(),
            self.bit_offsets@.len() == self.fields@.len(),
            forall|i: int|
                0 <= i < self.bit_offsets@.len() && (#[trigger] self.bit_offsets@[i]) is Some
                    ==> self.bit_offsets@[i]->0 <= 0x1000_0000_0000_0000,
        ensures
            ({
                let b = lowered_upto(self.fields@, self.bit_offsets@, self.fields@.len() as int);
                &&& r is Some <==> blocks_fit(b)
                &&& r is Some ==> r->0@.len() == b.len() && forall|k: int|
                    0 <= k < b.len() ==> #[trigger] r->0@[k] == to_block(b[k])
            }),
    {
        let ghost fs = self.fields@;
        let ghost os = self.bit_offsets@;
        let n = self.fields.len();
        let mut blocks: Vec<FieldBlock> = Vec::new();
        let mut i: usize = 0;
        while i < n
            invariant
                fs == self.fields@,
                os == self.bit_offsets@,
                n == fs.len(),
                os.len() == n,
                forall|k: int| 0 <= k < n ==> (#[trigger] fs[k]).field_def.wf(),
                forall|k: int|
                    0 <= k < n && (#[trigger] os[k]) is Some ==> os[k]->0 <= 0x1000_0000_0000_0000,
                i <= n,
                blocks_fit(lowered_upto(fs, os, i as int)),
                blocks@.len() == lowered_upto(fs, os, i as int).len(),
                forall|k: int|
                    0 <= k < blocks@.len() ==> #[trigger] blocks@[k] == to_block(lowered_upto(fs, os, i as int)[k]),
            decreases n - i,
        {
            let ghost prev = lowered_upto(fs, os, i as int);
            let ghost next = lowered_upto(fs, os, i + 1);
            match self.bit_offsets[i] {
                None => {},
                Some(bo) => {
                    let sz = self.fields[i].size_bits();
                    if sz > 0 {
                        let ghost fb = blocks_for_field(prev.len() as int, bo as int, sz as int);
                        assert(next == prev + fb);
                        let first = bo / 32;
                        let last = (bo + sz - 1) / 32;
                        let start = blocks.len();
                        if last > 0xFFFF || start + (last - first) as usize >= 0xFFFF {
                            proof {
                                lemma_lowered_prefix(fs, os, i + 1, n as int);
                                let all = lowered_upto(fs, os, n as int);
                                if last > 0xFFFF {
                                    let k = prev.len() + (last - first);
                                    assert(next[k] == fb[last - first]);
                                    assert(all[k] == next[k]);
                                    assert(!(all[k].1 <= 0xFFFF));
                                }
                            }
                            return None;
                        }
                        let mut w: u64 = first;
                        while w <= last
                            invariant
                                first <= w <= last + 1,
                                last <= 0xFFFF,
                                first == bo / 32,
                                last == (bo + sz - 1) / 32,
                                start == prev.len(),
                                start + (last - first) < 0xFFFF,
                                sz > 0,
                                bo <= 0x1000_0000_0000_0000,
                                sz <= 0x20_0000_0000,
                                fb == blocks_for_field(prev.len() as int, bo as int, sz as int),
                                blocks@.len() == prev.len() + (w - first),
                                forall|k: int|
                                    0 <= k < blocks@.len() ==> #[trigger] blocks@[k] == to_block((prev + fb)[k]),
                            decreases last + 1 - w,
                        {
                            let lo: u64 = if bo > 32 * w {
                                bo - 32 * w
                            } else {
                                0
                            };
                            let hi: u64 = if bo + sz < 32 * w + 32 {
                                bo + sz - 32 * w
                            } else {
                                32
                            };
                            assert(lo <= hi <= 32);
                            assert((1u64 << lo) <= (1u64 << hi) && (1u64 << hi) - (1u64 << lo)
                                <= 0xFFFF_FFFF) by (bit_vector)
                                requires
                                    lo <= hi <= 32,
                            ;
                            let mask = ((1u64 << hi) - (1u64 << lo)) as u32;
                            blocks.push(FieldBlock { field_start: start as u16, offset: w as u16, mask });
                            w += 1;
                        }
                    }
                },
            }
            i += 1;
        }
        Some(blocks)
    }

    /// Tells whether the definition can be laid out.
    pub fn check_bounds(&self) -> (r: bool)
        ensures
            r == self.wf(),
    {
        if self.fields.len() >= 0x10000 {
            return false;
        }
        let mut i: usize = 0;
        while i < self.fields.len()
            invariant
                i <= self.fields@.len(),
                forall|k: int| 0 <= k < i ==> (#[trigger] self.fields@[k]).field_def.wf(),
            decreases self.fields@.len() - i,
        {
            let ok = match self.fields[i].field_def.modifier {
                DefTypeModifier::Plain => true,
                DefTypeModifier::Array(n) => n <= MAX_MODIFIER,
                DefTypeModifier::Bitfield(n) => n <= MAX_MODIFIER,
            };
            if !ok {
                return false;
            }
            i += 1;
        }
        true
    }

    /// Lays the definition out for schema version `version` and lowers it to field
    /// blocks, which then form a valid geometry for rows of `geometry_words` words.
    /// `None`, with the definition unchanged, when it cannot be laid out; `None` after the
    /// layout when the blocks do not fit 16-bit indices or do not form a valid geometry.
    pub fn compile_blocks(&mut self, version: u64) -> (r: Option<Vec<FieldBlock>>)
        ensures
            !old(self).wf() ==> r is None && *final(self) == *old(self),
            old(self).wf() ==> {
                &&& final(self).fields == old(self).fields
                &&& final(self).bit_offsets@.len() == old(self).fields@.len()
                &&& forall|i: int|
                    0 <= i < old(self).fields@.len() ==> #[trigger] final(self).bit_offsets@[i]
                        == field_offset(old(self).fields@, version, i)
                &&& final(self).size_bytes == Some(row_size_bytes(old(self).fields@, version) as u64)
            },
            old(self).wf() ==> ({
                let b = lowered_upto(old(self).fields@, final(self).bit_offsets@, old(self).fields@.len() as int);
                let words = geometry_words(final(self).size_bytes->0);
                let blocks = Seq::new(b.len(), |k: int| to_block(b[k]));
                &&& r is Some <==> blocks_fit(b) && words <= usize::MAX && wf_geometry(blocks, words)
                &&& r is Some ==> r->0@ == blocks
            }),
            r is Some ==> wf_geometry(r->0@, geometry_words(final(self).size_bytes->0)),
    {
        if !self.check_bounds() {
            return None;
        }
        self.compute_field_offsets(version);
        let ghost b = lowered_upto(self.fields@, self.bit_offsets@, self.fields@.len() as int);
        let blocks = match self.field_blocks() {
            Some(bl) => bl,
            None => return None,
        };
        proof {
            assert(blocks@ =~= Seq::new(b.len(), |k: int| to_block(b[k])));
        }
        let size = match self.size_bytes {
            Some(x) => x,
            None => return None,
        };
        let words = size / 4 + if size % 4 == 0 {
            0
        } else {
            1
        };
        if words > usize::MAX as u64 {
            return None;
        }
        if !check_geometry(blocks.as_slice(), words as usize) {
            return None;
        }
        Some(blocks)
    }
}

/// The number of 32-bit words a row of `size` bytes spans, a trailing partial word
/// included.
pub open spec fn geometry_words(size: u64) -> nat {
    ((size + 3) / 4) as nat
}

/// The shape of a field definition: `<base type> <name>`, then `[<length>]` or
/// `: <width>` or nothing, then an optional `= <default>`.
pub const DEF_PATTERN: &'static str = r"^(?P<base_type>[\w\d_]+)\s+(?P<name>[\w\d_]+)\s*((\[(?P<array_size>[\w\d]+)\])|(:\s*(?P<bitfield_size>[\w\d]+)))?\s*(=.*)?$";

/// The text parts of a field definition.
#[derive(Debug)]
pub struct DefParts {
    pub base_type: String,
    pub name: String,
    pub array_size: Option<String>,
    pub bitfield_size: Option<String>,
}

/// The named groups of `DEF_PATTERN` in a match of `s`: base type, name, array length and
/// bitfield width; `None` when `s` does not match.
pub uninterp spec fn def_parts_of(s: Seq<char>) -> Option<
    (Seq<char>, Seq<char>, Option<Seq<char>>, Option<Seq<char>>),
>;

/// The integer that `parse_int::parse` reads from `s`, if any.
pub uninterp spec fn parsed_usize(s: Seq<char>) -> Option<usize>;

pub open spec fn opt_text(o: Option<String>) -> Option<Seq<char>> {
    match o {
        Some(x) => Some(x@),
        None => None,
    }
}

/// The text holds no minus sign.
pub open spec fn no_minus(s: Seq<char>) -> bool {
    forall|i: int| 0 <= i < s.len() ==> s[i] != '-'
}

/// The optional text, if present, holds no minus sign.
pub open spec fn opt_no_minus(o: Option<String>) -> bool {
    match o {
        Some(x) => no_minus(x@),
        None => true,
    }
}

/// Relies on `regex::Regex::captures` with `DEF_PATTERN`: the text of each named group
/// of the match. The length and width groups match word characters only (`[\w\d]+`),
/// and `-` is not one.
#[verifier::external_body]
fn split_def(s: &str) -> (r: Option<DefParts>)
    ensures
        r is None <==> def_parts_of(s@) is None,
        r is Some ==> (r->0.base_type@, r->0.name@, opt_text(r->0.array_size), opt_text(
            r->0.bitfield_size,
        )) == def_parts_of(s@)->0,
        r is Some ==> opt_no_minus(r->0.array_size) && opt_no_minus(r->0.bitfield_size),
{
    let caps = regex::Regex::new(DEF_PATTERN).ok()?.captures(s)?;
    let part = |n: &str| caps.name(n).map(|m| m.as_str().to_string());
    Some(DefParts {
        base_type: part("base_type")?,
        name: part("name")?,
        array_size: part("array_size"),
        bitfield_size: part("bitfield_size"),
    })
}

/// Relies on `parse_int::parse`: reads a decimal integer, or a hexadecimal, octal or
/// binary one after a `0x`, `0o` or `0b` prefix. A text with a minus sign is left out:
/// for an unsigned type the negation it leads to overflows.
#[verifier::external_body]
fn parse_usize(s: &str) -> (r: Option<usize>)
    requires
        no_minus(s@),
    ensures
        r == parsed_usize(s@),
{
    parse_int::parse::<usize>(s).ok()
}

/// Why a field definition was not understood.
#[derive(Debug, Clone, Copy, PartialEq, Eq, Structural)]
pub enum DefTypeError {
    /// The text does not have the shape of a field definition.
    NotAFieldDefinition,
    /// The base type is not one of the known names.
    UnknownBaseType,
    /// An array length or bitfield width is not an integer, or exceeds `MAX_MODIFIER`.
    InvalidInteger,
}

/// The modifier given the parsed array length and bitfield width, each present when its
/// group matched and holding the parse result.
pub open spec fn modifier_of(array_size: Option<Option<usize>>, bitfield_size: Option<Option<usize>>) -> Option<DefTypeModifier> {
    match array_size {
        Some(a) => match a {
            Some(n) => if n <= MAX_MODIFIER {
                Some(DefTypeModifier::Array(n))
            } else {
                None
            },
            None => None,
        },
        None => match bitfield_size {
            Some(b) => match b {
                Some(n) => if n <= MAX_MODIFIER {
                    Some(DefTypeModifier::Bitfield(n))
                } else {
                    None
                },
                None => None,
            },
            None => Some(DefTypeModifier::Plain),
        },
    }
}

pub open spec fn parsed_opt(o: Option<Seq<char>>) -> Option<Option<usize>> {
    match o {
        Some(x) => Some(parsed_usize(x)),
        None => None,
    }
}

impl DefType {
    /// Builds a field type from its parts: the base type's name, the field's name, and
    /// the parsed array length and bitfield width (outer `None`: the group is absent;
    /// inner `None`: it is not an integer).
    pub fn from_parts(
        base_type: &str,
        name: &str,
        array_size: Option<Option<usize>>,
        bitfield_size: Option<Option<usize>>,
    ) -> (r: Result<DefType, DefTypeError>)
        ensures
            base_type_named(base_type@) is None ==> r == Err::<DefType, DefTypeError>(
                DefTypeError::UnknownBaseType,
            ),
            base_type_named(base_type@) is Some && modifier_of(array_size, bitfield_size) is None
                ==> r == Err::<DefType, DefTypeError>(DefTypeError::InvalidInteger),
            base_type_named(base_type@) is Some && modifier_of(array_size, bitfield_size) is Some
                ==> r is Ok && r->Ok_0.name@ == name@ && r->Ok_0.base_type == base_type_named(
                base_type@,
            )->0 && r->Ok_0.modifier == modifier_of(array_size, bitfield_size)->0,
            r is Ok ==> r->Ok_0.wf(),
    {
        let base = match DefBaseType::from_str(base_type) {
            Some(b) => b,
            None => return Err(DefTypeError::UnknownBaseType),
        };
        let modifier = match array_size {
            Some(a) => match a {
                Some(n) => if n <= MAX_MODIFIER {
                    DefTypeModifier::Array(n)
                } else {
                    return Err(DefTypeError::InvalidInteger);
                },
                None => return Err(DefTypeError::InvalidInteger),
            },
            None => match bitfield_size {
                Some(b) => match b {
                    Some(n) => if n <= MAX_MODIFIER {
                        DefTypeModifier::Bitfield(n)
                    } else {
                        return Err(DefTypeError::InvalidInteger);
                    },
                    None => return Err(DefTypeError::InvalidInteger),
                },
                None => DefTypeModifier::Plain,
            },
        };
        Ok(DefType { name: name.to_owned(), base_type: base, modifier })
    }

    /// Parses a field definition such as `u8 flags: 3` or `fixstr name[32] = ""`.
    pub fn parse(s: &str) -> (r: Result<DefType, DefTypeError>)
        ensures
            def_parts_of(s@) is None ==> r == Err::<DefType, DefTypeError>(
                DefTypeError::NotAFieldDefinition,
            ),
            def_parts_of(s@) is Some ==> {
                let p = def_parts_of(s@)->0;
                let m = modifier_of(parsed_opt(p.2), parsed_opt(p.3));
                &&& base_type_named(p.0) is None ==> r == Err::<DefType, DefTypeError>(
                    DefTypeError::UnknownBaseType,
                )
                &&& base_type_named(p.0) is Some && m is None ==> r == Err::<DefType, DefTypeError>(
                    DefTypeError::InvalidInteger,
                )
                &&& base_type_named(p.0) is Some && m is Some ==> r is Ok && r->Ok_0.name@ == p.1
                    && r->Ok_0.base_type == base_type_named(p.0)->0 && r->Ok_0.modifier == m->0
            },
    {
        let parts = match split_def(s) {
            Some(p) => p,
            None => return Err(DefTypeError::NotAFieldDefinition),
        };
        let array_size = match &parts.array_size {
            Some(x) => Some(parse_usize(x.as_str())),
            None => None,
        };
        let bitfield_size = match &parts.bitfield_size {
            Some(x) => Some(parse_usize(x.as_str())),
            None => None,
        };
        DefType::from_parts(parts.base_type.as_str(), parts.name.as_str(), array_size, bitfield_size)
    }

}

} // verus!
