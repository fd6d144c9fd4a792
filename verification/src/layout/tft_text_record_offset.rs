//! Byte offsets within the 84-byte text-component record, for slicing a
//! record in place without deserializing it.

use vstd::prelude::*;

verus! {

pub const UNIQUE_TAG: usize = 0x00;
pub const ALPHA: usize = 0x0A;
pub const X: usize = 0x10;
pub const Y: usize = 0x12;
pub const W: usize = 0x14;
pub const H: usize = 0x16;
pub const ENDX: usize = 0x18;
pub const ENDY: usize = 0x1A;
pub const FLAG_0X20: usize = 0x20;
pub const FONT: usize = 0x25;
pub const PCO: usize = 0x28;
pub const TXT_MAXL: usize = 0x2E;
pub const TEXT_POOL_OFFSET: usize = 0x30;
/// Constant 0x74 on text records.
pub const TRAILER_MARKER: usize = 0x3C;
pub const COMPONENT_INDEX: usize = 0x3D;
/// Constant 0x01.
pub const TRAILER_CONST_1: usize = 0x3E;
/// Constant 0x37.
pub const TRAILER_TYPE_TAG: usize = 0x3F;

} // verus!
