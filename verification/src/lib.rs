//! Decode and patch Nextion `.HMI` project files and compiled `.tft`
//! firmware -- for the NX8048P050-011R-Y display only.
//!
//! This is not a general Nextion compiler: no font pipeline, text-type and
//! button-type components only for color/font patching, same-length-only
//! `.HMI` patches.

pub mod args;
pub mod error;
pub mod hmi;
pub mod html;
pub mod layout;
pub mod spec;
pub mod strings;
pub mod target;
pub mod tft;
pub mod zi;

pub use error::{HmiError, SpecError, TftError, ZiError};
pub use target::Target;
