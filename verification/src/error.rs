//! Error types returned by the library's parsers and patchers.

use vstd::prelude::*;

use crate::target::UnknownTargetError;


verus! {

/// Why parsing a decimal, hexadecimal, octal or binary integer failed.
#[derive(Debug, Clone, Copy, PartialEq, Eq, Structural)]
pub enum IntParseError {
    /// The digits were empty.
    Empty,
    /// A character was not a digit of the radix.
    InvalidDigit,
    /// The value does not fit the target integer type.
    Overflow,
}

/// Errors from decoding or patching a `.zi` font file.
#[derive(Debug, Clone, Copy, PartialEq, Eq, Structural)]
pub enum ZiError {
    /// The file is shorter than its header or its glyph table.
    Truncated,
    /// Header byte 0 is not `4`.
    BadMagic(u8),
    /// A glyph's packed data lies outside the file.
    GlyphOutOfBounds { char_id: u16 },
    /// A glyph decoded to a different number of pixels than its cell holds.
    PixelCountMismatch { char_id: u16, expected: usize, actual: usize },
    /// The first packed byte names neither the bilevel nor the grey3 scheme.
    UnknownPackingScheme(u8),
}

/// Errors from decoding or patching a `.HMI` file.
#[derive(Debug, Clone, PartialEq, Eq)]
pub enum HmiError {
    /// No non-zero block was found past the mirrored directory.
    PayloadNotFound,
    /// No attribute matches the selector.
    AttrNotFound { selector: String, page: Option<String>, objname: Option<String>, attr: String },
    /// A `--set` argument is not of the form `PAGE:OBJNAME:ATTR=VALUE`.
    BadSetSpec(String),
    /// A string attribute would change length.
    LengthMismatch {
        selector: String,
        old_len: usize,
        old_value: String,
        new_len: usize,
        new_value: String,
    },
    /// An integer attribute has zero width in the source file.
    ZeroWidth { selector: String },
    /// An integer does not fit the attribute's existing width.
    ValueTooWide { selector: String, value: u64, width: usize },
    /// The attribute's kind cannot be patched.
    UnsupportedPatchKind { selector: String, kind: String },
    /// The new value of an integer attribute is not an integer literal.
    InvalidInt(String, IntParseError),
}

/// Errors from parsing or patching a `.tft` file.
#[derive(Debug, Clone, PartialEq, Eq)]
pub enum TftError {
    /// The file is shorter than a header.
    TooSmall(usize),
    /// The magic bytes at 0x02 are not `44 4e`.
    BadMagic(u8, u8),
    /// The header's dimensions are not the target's.
    DimensionMismatch {
        width: u16,
        height: u16,
        target: String,
        target_width: u16,
        target_height: u16,
    },
    /// The header's total-size field is not the file's length.
    SizeMismatch { header_size: u32, actual_size: usize },
    /// A `--set` argument is not of the form `OLDTEXT=NEWTEXT`.
    BadTextSetSpec(String),
    /// A `--set` argument is not of the form `X,Y,W,H=NEWX,NEWY,NEWW,NEWH`.
    BadGeomSetSpec(String),
    /// The new text is longer than the old one.
    TextTooLong(String, usize),
    /// The searched bytes do not occur.
    NotFound(String),
    /// The searched bytes occur more than once.
    Ambiguous { needle: String, count: usize, offsets: Vec<usize>, hint: String },
    /// The offset given to disambiguate is not one of the matches.
    OffsetNotAMatch(usize, Vec<String>),
}

/// Errors from the `compile` pipeline.
#[derive(Debug, Clone, PartialEq, Eq)]
pub enum SpecError {
    /// The spec names a target this toolkit does not support.
    InvalidTarget(UnknownTargetError),
    Hmi(HmiError),
    Tft(TftError),
    /// A spec component is not in the scaffold `.HMI`.
    ComponentNotInScaffold { objname: String },
    /// A color/font change was asked of a component type whose compiled
    /// record layout does not hold that field.
    ColorFontUnsupportedForType { objname: String, field: String, component_type: String },
    /// The scaffold has no geometry to search for.
    MissingScaffoldGeometry { objname: String },
}

// ---------------------------------------------------------------------------
// Errors as plain values
// ---------------------------------------------------------------------------

/// The view of an optional string.
pub open spec fn opt_chars(o: Option<String>) -> Option<Seq<char>> {
    match o {
        Some(s) => Some(s@),
        None => None,
    }
}

/// An [`HmiError`] as plain values.
pub enum HmiErrorModel {
    PayloadNotFound,
    AttrNotFound {
        selector: Seq<char>,
        page: Option<Seq<char>>,
        objname: Option<Seq<char>>,
        attr: Seq<char>,
    },
    BadSetSpec(Seq<char>),
    LengthMismatch {
        selector: Seq<char>,
        old_len: usize,
        old_value: Seq<char>,
        new_len: usize,
        new_value: Seq<char>,
    },
    ZeroWidth { selector: Seq<char> },
    ValueTooWide { selector: Seq<char>, value: u64, width: usize },
    UnsupportedPatchKind { selector: Seq<char>, kind: Seq<char> },
    InvalidInt(Seq<char>, IntParseError),
}

impl View for HmiError {
    type V = HmiErrorModel;

    open spec fn view(&self) -> HmiErrorModel {
        match self {
            HmiError::PayloadNotFound => HmiErrorModel::PayloadNotFound,
            HmiError::AttrNotFound { selector, page, objname, attr } => HmiErrorModel::AttrNotFound {
                selector: selector@,
                page: opt_chars(*page),
                objname: opt_chars(*objname),
                attr: attr@,
            },
            HmiError::BadSetSpec(s) => HmiErrorModel::BadSetSpec(s@),
            HmiError::LengthMismatch { selector, old_len, old_value, new_len, new_value } =>
                HmiErrorModel::LengthMismatch {
                selector: selector@,
                old_len: *old_len,
                old_value: old_value@,
                new_len: *new_len,
                new_value: new_value@,
            },
            HmiError::ZeroWidth { selector } => HmiErrorModel::ZeroWidth { selector: selector@ },
            HmiError::ValueTooWide { selector, value, width } => HmiErrorModel::ValueTooWide {
                selector: selector@,
                value: *value,
                width: *width,
            },
            HmiError::UnsupportedPatchKind { selector, kind } =>
                HmiErrorModel::UnsupportedPatchKind { selector: selector@, kind: kind@ },
            HmiError::InvalidInt(s, e) => HmiErrorModel::InvalidInt(s@, *e),
        }
    }
}

/// A [`TftError`] as plain values.
pub enum TftErrorModel {
    TooSmall(usize),
    BadMagic(u8, u8),
    DimensionMismatch {
        width: u16,
        height: u16,
        target: Seq<char>,
        target_width: u16,
        target_height: u16,
    },
    SizeMismatch { header_size: u32, actual_size: usize },
    BadTextSetSpec(Seq<char>),
    BadGeomSetSpec(Seq<char>),
    TextTooLong(Seq<char>, usize),
    NotFound(Seq<char>),
    Ambiguous { needle: Seq<char>, count: usize, offsets: Seq<usize>, hint: Seq<char> },
    OffsetNotAMatch(usize, Seq<Seq<char>>),
}

impl View for TftError {
    type V = TftErrorModel;

    open spec fn view(&self) -> TftErrorModel {
        match self {
            TftError::TooSmall(n) => TftErrorModel::TooSmall(*n),
            TftError::BadMagic(a, b) => TftErrorModel::BadMagic(*a, *b),
            TftError::DimensionMismatch { width, height, target, target_width, target_height } =>
                TftErrorModel::DimensionMismatch {
                width: *width,
                height: *height,
                target: target@,
                target_width: *target_width,
                target_height: *target_height,
            },
            TftError::SizeMismatch { header_size, actual_size } => TftErrorModel::SizeMismatch {
                header_size: *header_size,
                actual_size: *actual_size,
            },
            TftError::BadTextSetSpec(s) => TftErrorModel::BadTextSetSpec(s@),
            TftError::BadGeomSetSpec(s) => TftErrorModel::BadGeomSetSpec(s@),
            TftError::TextTooLong(s, n) => TftErrorModel::TextTooLong(s@, *n),
            TftError::NotFound(s) => TftErrorModel::NotFound(s@),
            TftError::Ambiguous { needle, count, offsets, hint } => TftErrorModel::Ambiguous {
                needle: needle@,
                count: *count,
                offsets: offsets@,
                hint: hint@,
            },
            TftError::OffsetNotAMatch(o, v) => TftErrorModel::OffsetNotAMatch(
                *o,
                v@.map_values(|s: String| s@),
            ),
        }
    }
}

/// A [`SpecError`] as plain values.
pub enum SpecErrorModel {
    InvalidTarget(Seq<char>),
    Hmi(HmiErrorModel),
    Tft(TftErrorModel),
    ComponentNotInScaffold { objname: Seq<char> },
    ColorFontUnsupportedForType { objname: Seq<char>, field: Seq<char>, component_type: Seq<char> },
    MissingScaffoldGeometry { objname: Seq<char> },
}

impl View for SpecError {
    type V = SpecErrorModel;

    open spec fn view(&self) -> SpecErrorModel {
        match self {
            SpecError::InvalidTarget(e) => SpecErrorModel::InvalidTarget(e.0@),
            SpecError::Hmi(e) => SpecErrorModel::Hmi(e@),
            SpecError::Tft(e) => SpecErrorModel::Tft(e@),
            SpecError::ComponentNotInScaffold { objname } =>
                SpecErrorModel::ComponentNotInScaffold { objname: objname@ },
            SpecError::ColorFontUnsupportedForType { objname, field, component_type } =>
                SpecErrorModel::ColorFontUnsupportedForType {
                objname: objname@,
                field: field@,
                component_type: component_type@,
            },
            SpecError::MissingScaffoldGeometry { objname } =>
                SpecErrorModel::MissingScaffoldGeometry { objname: objname@ },
        }
    }
}

} // verus!
