//! A single-writer ring allocator over a fixed region of 32-bit cells.
//!
//! The ring carves variable-sized segments out of its region. Each segment is
//! one header cell followed by its payload cells; the header word holds the
//! payload's size in cells and a busy bit. A producer takes segments through
//! the ring, fills them, and hands them on as buffers; when the last holder
//! of a buffer lets go, the segment is free again and a later scan may merge
//! it with its free neighbours.
use vstd::prelude::*;

pub mod buffer;
pub mod bytes;
pub mod header;
pub mod laws;
pub mod layout;
pub mod ring;
pub mod scan;
pub mod state;

pub use buffer::{Buffer, BufferMut, BufferWriter};
pub use header::{HeaderMut, HeaderRo};
pub use ring::{Ringal, WriteError};

verus! {

/// Bytes in one cell.
pub const U32SIZE: usize = 4;

/// One more than the largest payload, in cells, that a request may ask for;
/// also the largest capacity that a header word can hold.
pub const MAXALLOC: u32 = 0x7fff_ffff;

/// The largest payload of one segment, in bytes.
pub const MAXALLOCBYTES: u64 = 0x1_ffff_fffc;

/// The smallest payload of a segment, in cells.
pub const MINALLOC: u32 = 8;

/// The smallest payload of a segment, in bytes.
pub const MINALLOCBYTES: usize = 32;

} // verus!
