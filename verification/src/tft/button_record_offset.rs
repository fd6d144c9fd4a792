//! Byte offsets within the 84-byte button-component record confirmed for
//! geometry, font and background colors, relative to the record's start.

use vstd::prelude::*;

verus! {

pub const UNIQUE_TAG: usize = 0x00;
/// Sequential per-record counter.
pub const RECORD_COUNTER: usize = 0x04;
pub const X: usize = 0x10;
pub const Y: usize = 0x12;
pub const W: usize = 0x14;
pub const H: usize = 0x16;
pub const ENDX: usize = 0x18;
pub const ENDY: usize = 0x1A;
pub const FONT: usize = 0x25;
/// Background color, normal state (RGB565).
pub const BCO: usize = 0x26;
/// Background color, pressed state (RGB565).
pub const BCO2: usize = 0x28;
pub const COMPONENT_INDEX: usize = 0x3D;

} // verus!
