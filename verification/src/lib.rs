//! Columnar codec for FITS tables.
//!
//! The crate converts between the on-disk byte layout of FITS binary and
//! ASCII table extensions and a typed, in-memory columnar representation.
//! It parses per-column format tokens, plans row layouts, decodes and
//! encodes row-major buffers in row-aligned partitions, and keeps every
//! data unit aligned to the 2880-byte FITS block.

use vstd::prelude::*;

pub mod ascii;
pub mod blocks;
pub mod cell;
pub mod column;
pub mod datatypes;
pub mod derive;
pub mod format;
pub mod layout;
pub mod transcode;
pub mod wire;

verus! {

/// Everything that can go wrong while opening, decoding or encoding a
/// table.
///
/// - `InvalidFormat`: a TFORM or TBCOL entry cannot be parsed; opening the
///   table stops.
/// - `LayoutMismatch`: a cell was handed bytes (or a value) whose size
///   disagrees with the planned cell width; nothing is truncated or padded
///   silently.
/// - `UnsupportedType`: a recognized type letter whose handling this codec
///   does not implement; surfaced instead of substituting another type.
/// - `TruncatedBuffer`: fewer bytes than `nrows * bytes_per_row`; carries
///   both counts so the caller sees the exact shortfall.
/// - `DecodeFailed`: one structured error for a table whose cell text could
///   not be parsed, naming the offending column and row.
#[derive(Clone, Copy, Debug, PartialEq, Eq, Structural)]
pub enum FitsError {
    InvalidFormat,
    LayoutMismatch { expected: usize, got: usize },
    UnsupportedType,
    TruncatedBuffer { expected: usize, got: usize },
    DecodeFailed { column: usize, row: usize },
}

} // verus!
