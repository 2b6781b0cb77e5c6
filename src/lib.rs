//! A C-library compatibility layer: nul-terminated byte-sequence algorithms,
//! the C error convention, flag decoding and the decisions of `waitpid` and
//! of the file-ownership, `statx` and `copy_file_range` entry points.
//!
//! Buffers are byte slices; a C pointer into a buffer is a position in it.
use vstd::prelude::*;

pub mod context;
pub mod flags;
pub mod fs;
pub mod ntbs;
pub mod wait;

verus! {

} // verus!
