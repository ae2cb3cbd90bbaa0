//! A type-directed codec between little-endian byte buffers and dynamic
//! host objects, driven by descriptors of C-compatible data layouts.

pub mod decode;
pub mod descriptor;
pub mod encode;
pub mod endian;
pub mod error;
pub mod laws;
pub mod resolve;
pub mod value;
