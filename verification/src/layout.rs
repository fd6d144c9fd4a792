//! Typed layout constants for the Nextion `.HMI` and `.tft` formats: the
//! shapes and offsets of the records, with no I/O and no parsing logic.

use vstd::prelude::*;

pub mod tft_text_record_offset;

verus! {

// ----------------------------------------------------------------------------
// .HMI -- component attribute record: `name(16) + value(N) + type(1) + pad(3)`
// ----------------------------------------------------------------------------

/// Length of an attribute record's NUL-padded name.
pub const HMI_ATTR_NAME_LEN: usize = 16;

/// Number of zero bytes after an attribute record's type byte.
pub const HMI_ATTR_PAD_LEN: usize = 3;

/// The zero padding after an attribute record's type byte.
pub const HMI_ATTR_PAD_BYTES: [u8; 3] = [0x00, 0x00, 0x00];

/// The two attribute value types catalogued so far.
#[derive(Debug, Clone, Copy, PartialEq, Eq, Structural)]
pub enum HmiAttrType {
    /// type byte 0x11 -- value is ASCII bytes, length = value_len.
    Str,
    /// type byte 0x12 -- value is a little-endian unsigned int, except the
    /// `txt` attribute, which uses this type byte for packed ASCII bytes.
    /// Callers must check the attribute name, not just the type byte, to
    /// know which interpretation applies.
    Int,
}

/// The type byte that stands for each attribute type.
pub open spec fn spec_attr_type_byte(t: HmiAttrType) -> u8 {
    match t {
        HmiAttrType::Str => 0x11,
        HmiAttrType::Int => 0x12,
    }
}

/// The attribute type a type byte names, if it names one.
pub open spec fn spec_attr_type_from_byte(b: u8) -> Option<HmiAttrType> {
    if b == 0x11 {
        Some(HmiAttrType::Str)
    } else if b == 0x12 {
        Some(HmiAttrType::Int)
    } else {
        None
    }
}

impl HmiAttrType {
    /// The attribute type a type byte names, if it names one.
    pub fn from_byte(b: u8) -> (r: Option<Self>)
        ensures
            r == spec_attr_type_from_byte(b),
    {
        match b {
            0x11 => Some(Self::Str),
            0x12 => Some(Self::Int),
            _ => None,
        }
    }

    /// The type byte written for this attribute type.
    pub fn to_byte(self) -> (b: u8)
        ensures
            b == spec_attr_type_byte(self),
    {
        match self {
            Self::Str => 0x11,
            Self::Int => 0x12,
        }
    }
}

/// Reading back the byte written for a type gives that type, and a byte that
/// names a type is the byte written for it.
pub proof fn lemma_attr_type_byte_roundtrip(t: HmiAttrType, b: u8)
    ensures
        spec_attr_type_from_byte(spec_attr_type_byte(t)) == Some(t),
        spec_attr_type_from_byte(b) matches Some(u) ==> spec_attr_type_byte(u) == b,
{
}

/// One decoded `.HMI` attribute record.
#[derive(Debug, Clone)]
pub struct HmiAttrRecord {
    pub name: String,
    pub kind: HmiAttrType,
    /// Raw value bytes, pre-interpretation.
    pub value: Vec<u8>,
    /// Offset of the name field's first byte.
    pub file_offset: usize,
}

// ----------------------------------------------------------------------------
// .HMI -- container block layout
// ----------------------------------------------------------------------------

/// Size of one flash block of the `.HMI` container (512 KiB).
pub const HMI_BLOCK_SIZE: usize = 0x80000;

/// Index of the first directory block.
pub const HMI_DIRECTORY_BLOCK_A: usize = 0;

/// Index of the mirrored directory block (identical to block A).
pub const HMI_DIRECTORY_BLOCK_B: usize = 1;

// ----------------------------------------------------------------------------
// .tft -- file header
// ----------------------------------------------------------------------------

/// The fields of a `.tft` header that are understood.
#[derive(Debug, Clone, Copy)]
pub struct TftHeader {
    /// Offset 0x0C, LE.
    pub width: u16,
    /// Offset 0x0E, LE.
    pub height: u16,
    /// Offset 0x3C, LE -- equal to the file's length.
    pub total_size: u32,
}

/// The `"DN"` magic at offset 0x02.
pub const TFT_HEADER_MAGIC: [u8; 2] = [0x44, 0x4e];

/// Offset of the width field.
pub const TFT_WIDTH_OFFSET: usize = 0x0C;

/// Offset of the height field.
pub const TFT_HEIGHT_OFFSET: usize = 0x0E;

/// Offset of the total-size field.
pub const TFT_TOTAL_SIZE_OFFSET: usize = 0x3C;

// ----------------------------------------------------------------------------
// .tft -- text-component record, 84 bytes
// ----------------------------------------------------------------------------

/// Length of a text-component record.
pub const TFT_TEXT_RECORD_LEN: usize = 0x54;

/// The fields of an 84-byte text-component record. Record start = offset
/// of the `x,y,w,h` quad minus 0x10.
#[derive(Debug, Clone, Copy)]
pub struct TftTextRecord {
    /// +0x00. Unique per component; purpose not yet known.
    pub unique_tag: u16,
    /// +0x0A. Alpha/opacity, matches the `.HMI`'s `aph`.
    pub alpha: u16,
    /// +0x10 .. +0x1B: x, y, w, h, endx, endy. endx/endy are stored
    /// explicitly and must equal x + w - 1 and y + h - 1.
    pub x: u16,
    pub y: u16,
    pub w: u16,
    pub h: u16,
    pub endx: u16,
    pub endy: u16,
    /// +0x20. Flag, 1 on all samples so far.
    pub flag_0x20: u8,
    /// +0x25. Font id, matches the `.HMI`'s `font`.
    pub font: u8,
    /// +0x28. Text color (RGB565), matches the `.HMI`'s `pco`.
    pub pco: u16,
    /// +0x2E. Max text length, matches the `.HMI`'s `txt_maxl`.
    pub txt_maxl: u16,
    /// +0x30. Byte offset into the page's text pool, relative to a fixed
    /// per-page base address. Not the text itself.
    pub text_pool_offset: u16,
    /// +0x3D. Increments per component in the page, roughly id+1.
    pub component_index: u8,
}

// ----------------------------------------------------------------------------
// .tft -- text pool
// ----------------------------------------------------------------------------

/// Length of one text-pool slot.
pub const TFT_TEXT_SLOT_LEN: usize = 104;

/// A page's text pool: `text_address = page_base + record.text_pool_offset`.
pub struct TftTextPool;

impl TftTextPool {
    /// Absolute address of a text slot from the page's base and a record's
    /// pool pointer.
    pub fn slot_address(page_base: usize, record_pointer: u16) -> (a: usize)
        requires
            page_base + record_pointer <= usize::MAX,
        ensures
            a == page_base + record_pointer,
    {
        page_base + record_pointer as usize
    }
}

} // verus!
