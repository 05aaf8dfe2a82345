//! The parallel transcoder: whole tables to bytes and back.
//!
//! A table body is `nrows` rows of `bytes_per_row` bytes.  Decoding
//! partitions the byte range into row-aligned chunks, decodes every chunk
//! independently — in parallel when asked to — and joins the chunk
//! outputs in partition order, never in completion order, so row order is
//! input order whatever the thread schedule did.  Encoding mirrors this
//! and pads the result to the 2880-byte block boundary.

use vstd::prelude::*;
use vstd::slice::slice_subrange;
use rayon::iter::IntoParallelRefIterator;
use rayon::iter::ParallelIterator;
use crate::FitsError;
use crate::format::TableKind;
use crate::layout::RowLayout;
use crate::layout::spec_layout_wf;
use crate::cell::CellV;
use crate::cell::spec_decode_cell;
use crate::cell::spec_cell_parse_ok;
use crate::cell::spec_storage_of;
use crate::column::ColumnBuffer;
use crate::column::TypedColumn;
use crate::cell::StorageClass;
use crate::cell::spec_resolve_cell;
use crate::cell::spec_resolve_elem_class;
use crate::cell::spec_desc_in_bounds;

verus! {

/// The bytes of the cell at row `r`, column `c` inside the whole body.
pub open spec fn spec_cell_bytes(l: RowLayout, bytes: Seq<u8>, r: int, c: int) -> Seq<u8> {
    let col = l.cols@[c];
    bytes.subrange(
        r * l.bytes_per_row + col.start_offset,
        r * l.bytes_per_row + col.start_offset + col.fspec.cell_width,
    )
}

/// Every cell in rows `r0..r1` parses.
pub open spec fn spec_range_parse_ok(l: RowLayout, bytes: Seq<u8>, r0: int, r1: int) -> bool {
    forall|r: int, c: int|
        r0 <= r < r1 && 0 <= c < l.cols@.len() ==> spec_cell_parse_ok(
            l.kind,
            l.cols@[c].fspec,
            #[trigger] spec_cell_bytes(l, bytes, r, c),
        )
}

/// Column `c` decoded over rows `r0..r1`, local index 0 standing for row
/// `r0`.
pub open spec fn spec_decoded_col_range(
    l: RowLayout,
    bytes: Seq<u8>,
    r0: int,
    r1: int,
    c: int,
) -> Seq<CellV> {
    Seq::new(
        (r1 - r0) as nat,
        |r: int| spec_decode_cell(l.kind, l.cols@[c].fspec, spec_cell_bytes(l, bytes, r0 + r, c)),
    )
}

/// Decoding a split range and joining the parts in order is decoding the
/// whole range.
pub proof fn lemma_decoded_col_range_concat(
    l: RowLayout,
    bytes: Seq<u8>,
    r0: int,
    r1: int,
    r2: int,
    c: int,
)
    requires
        r0 <= r1 <= r2,
    ensures
        spec_decoded_col_range(l, bytes, r0, r1, c) + spec_decoded_col_range(l, bytes, r1, r2, c)
            == spec_decoded_col_range(l, bytes, r0, r2, c),
{
    assert(spec_decoded_col_range(l, bytes, r0, r1, c) + spec_decoded_col_range(
        l,
        bytes,
        r1,
        r2,
        c,
    ) =~= spec_decoded_col_range(l, bytes, r0, r2, c));
}

/// Every column of the layout has a storage shape here.
pub open spec fn spec_all_storages_ok(l: RowLayout) -> bool {
    forall|c: int|
        0 <= c < l.cols@.len() ==> spec_storage_of(l.kind, (#[trigger] l.cols@[c]).fspec) is Some
}

/// What a chunk decode returns: on success, one buffer per column holding
/// exactly the decoded cells of the chunk's rows; on failure, either the
/// unsupported-shape error or a parse failure naming a cell inside the
/// chunk.
pub open spec fn spec_chunk_post(
    l: RowLayout,
    bytes: Seq<u8>,
    r0: int,
    rows: int,
    result: Result<Vec<ColumnBuffer>, FitsError>,
) -> bool {
    match result {
        Ok(bufs) => {
            &&& spec_all_storages_ok(l)
            &&& spec_range_parse_ok(l, bytes, r0, r0 + rows)
            &&& bufs@.len() == l.cols@.len()
            &&& forall|c: int|
                0 <= c < l.cols@.len() ==> {
                    let b = #[trigger] bufs@[c];
                    &&& b.wf()
                    &&& b.kind == l.kind
                    &&& b.fspec == l.cols@[c].fspec
                    &&& b.col_index == c
                    &&& b.cells() == spec_decoded_col_range(l, bytes, r0, r0 + rows, c)
                }
        },
        Err(FitsError::UnsupportedType) => !spec_all_storages_ok(l),
        Err(FitsError::DecodeFailed { column, row }) => {
            &&& spec_all_storages_ok(l)
            &&& 0 <= column < l.cols@.len()
            &&& r0 <= row < r0 + rows
            &&& !spec_cell_parse_ok(
                l.kind,
                l.cols@[column as int].fspec,
                spec_cell_bytes(l, bytes, row as int, column as int),
            )
        },
        _ => false,
    }
}

/// Where one inner partition boundary falls: the naive split point —
/// `nbufs` bytes past the range's start — snapped up to the next
/// multiple of `row_size`, held at `buffer_size` when the snap would
/// pass the end.
pub open spec fn spec_snap_split(
    start: nat,
    nbufs: nat,
    row_size: nat,
    buffer_size: nat,
) -> nat {
    let naive = start + nbufs;
    if naive > buffer_size {
        buffer_size
    } else {
        let rem = naive % row_size;
        if rem == 0 {
            naive as nat
        } else if naive + (row_size - rem) > buffer_size {
            buffer_size
        } else {
            (naive + (row_size - rem)) as nat
        }
    }
}

/// Splits `[0, buffer_size)` into `n` contiguous ranges whose inner
/// boundaries are snapped up to the next multiple of `row_size`, so no
/// row is ever split across two ranges.  Every inner boundary is exactly
/// [`spec_snap_split`] of its range's start and the naive chunk size
/// `buffer_size / n`; the last range always ends at `buffer_size`.
pub fn partition_ranges(buffer_size: usize, n: usize, row_size: usize) -> (r: Vec<(usize, usize)>)
    requires
        n >= 1,
        row_size >= 1,
    ensures
        r@.len() == n,
        r@[0].0 == 0,
        r@[n - 1].1 == buffer_size,
        forall|i: int| 0 <= i < n ==> (#[trigger] r@[i]).0 <= r@[i].1 <= buffer_size,
        forall|i: int| 0 <= i < n - 1 ==> (#[trigger] r@[i]).1 == r@[i + 1].0,
        forall|i: int|
            0 <= i < n - 1 ==> (#[trigger] r@[i]).1 == spec_snap_split(
                r@[i].0 as nat,
                (buffer_size / n) as nat,
                row_size as nat,
                buffer_size as nat,
            ),
        forall|i: int|
            0 <= i < n ==> ((#[trigger] r@[i]).1 % row_size == 0 || r@[i].1 == buffer_size),
        forall|i: int|
            0 <= i < n ==> ((#[trigger] r@[i]).0 % row_size == 0 || r@[i].0 == buffer_size),
{
    let mut limits: Vec<(usize, usize)> = Vec::new();
    let nbufs = buffer_size / n;
    let mut start: usize = 0;
    let mut i: usize = 0;
    while i < n
        invariant
            i <= n,
            n >= 1,
            row_size >= 1,
            nbufs == buffer_size / n,
            limits@.len() == i,
            i == 0 ==> start == 0,
            i > 0 ==> start == limits@[i - 1].1,
            i == n ==> start == buffer_size,
            start <= buffer_size,
            start % row_size == 0 || start == buffer_size,
            forall|j: int| 0 <= j < i ==> (#[trigger] limits@[j]).0 <= limits@[j].1 <= buffer_size,
            forall|j: int| 0 <= j < i - 1 ==> (#[trigger] limits@[j]).1 == limits@[j + 1].0,
            forall|j: int|
                0 <= j < i && j < n - 1 ==> (#[trigger] limits@[j]).1 == spec_snap_split(
                    limits@[j].0 as nat,
                    nbufs as nat,
                    row_size as nat,
                    buffer_size as nat,
                ),
            i > 0 ==> limits@[0].0 == 0,
            forall|j: int|
                0 <= j < i ==> ((#[trigger] limits@[j]).1 % row_size == 0 || limits@[j].1
                    == buffer_size),
            forall|j: int|
                0 <= j < i ==> ((#[trigger] limits@[j]).0 % row_size == 0 || limits@[j].0
                    == buffer_size),
        decreases n - i,
    {
        let end: usize;
        if i == n - 1 {
            end = buffer_size;
        } else {
            // snap the naive split point up to the next row boundary,
            // never past the end of the buffer
            if start > buffer_size - nbufs {
                proof {
                    assert(nbufs <= buffer_size);
                    assert(start + nbufs > buffer_size);
                }
                end = buffer_size;
            } else {
                let naive = start + nbufs;
                let rem = naive % row_size;
                if rem == 0 {
                    end = naive;
                } else if row_size - rem > buffer_size - naive {
                    end = buffer_size;
                } else {
                    end = naive + (row_size - rem);
                    proof {
                        assert(end == spec_snap_split(
                            start as nat,
                            nbufs as nat,
                            row_size as nat,
                            buffer_size as nat,
                        ));
                        let rs = row_size as int;
                        let nv = naive as int;
                        let q = nv / rs;
                        vstd::arithmetic::div_mod::lemma_fundamental_div_mod(nv, rs);
                        assert(nv + (rs - rem) == (q + 1) * rs) by (nonlinear_arith)
                            requires
                                nv == rs * q + rem,
                        {
                        }
                        vstd::arithmetic::div_mod::lemma_mod_multiples_basic(q + 1, rs);
                    }
                }
            }
        }
        limits.push((start, end));
        start = end;
        i += 1;
    }
    limits
}

/// Splits a buffer into `n` chunks aligned to `row_size`, the classic
/// entry point with narrow count types.
pub fn split_buffer(buffer_size: usize, n: u16, row_size: u16) -> (r: Vec<(usize, usize)>)
    requires
        n >= 1,
        row_size >= 1,
    ensures
        r@.len() == n,
        r@[0].0 == 0,
        r@[n - 1].1 == buffer_size,
        forall|i: int| 0 <= i < n ==> (#[trigger] r@[i]).0 <= r@[i].1 <= buffer_size,
        forall|i: int| 0 <= i < n as int - 1 ==> (#[trigger] r@[i]).1 == r@[i + 1].0,
        forall|i: int|
            0 <= i < n as int - 1 ==> (#[trigger] r@[i]).1 == spec_snap_split(
                r@[i].0 as nat,
                (buffer_size / (n as usize)) as nat,
                row_size as nat,
                buffer_size as nat,
            ),
        forall|i: int|
            0 <= i < n ==> ((#[trigger] r@[i]).1 % (row_size as usize) == 0 || r@[i].1
                == buffer_size),
{
    partition_ranges(buffer_size, n as usize, row_size as usize)
}


/// Decodes rows `first_row .. first_row + rows` of the body into one
/// freshly allocated buffer per column.
///
/// This is the sequential unit of work: the parallel path runs it once
/// per partition, the single-threaded path once for the whole body, and
/// both produce exactly the cells [`spec_decoded_col_range`] names.
#[verifier::rlimit(100)]
pub fn decode_chunk(layout: &RowLayout, bytes: &[u8], first_row: usize, rows: usize) -> (r: Result<
    Vec<ColumnBuffer>,
    FitsError,
>)
    requires
        spec_layout_wf(*layout),
        (first_row + rows) * layout.bytes_per_row <= bytes@.len(),
    ensures
        spec_chunk_post(*layout, bytes@, first_row as int, rows as int, r),
{
    let ncols = layout.cols.len();
    let bpr = layout.bytes_per_row;
    let bl = bytes.len();
    proof {
        assert((first_row + rows) * bpr >= first_row + rows) by (nonlinear_arith)
            requires
                bpr >= 1,
                first_row + rows >= 0,
        {
        }
    }
    // first pass: one buffer per column, so an unsupported shape is found
    // before any row is touched
    let mut bufs: Vec<ColumnBuffer> = Vec::new();
    let mut c: usize = 0;
    while c < ncols
        invariant
            c <= ncols,
            ncols == layout.cols@.len(),
            spec_layout_wf(*layout),
            bufs@.len() == c,
            forall|j: int|
                0 <= j < c ==> {
                    let b = #[trigger] bufs@[j];
                    &&& b.wf()
                    &&& b.kind == layout.kind
                    &&& b.fspec == layout.cols@[j].fspec
                    &&& b.col_index == j
                    &&& b.cells().len() == rows
                },
        decreases ncols - c,
    {
        let col = &layout.cols[c];
        let buf = match ColumnBuffer::new(layout.kind, col.fspec, c, rows) {
            Ok(b) => b,
            Err(_) => {
                proof {
                    assert(!spec_all_storages_ok(*layout));
                }
                return Err(FitsError::UnsupportedType);
            },
        };
        bufs.push(buf);
        c += 1;
    }
    proof {
        assert forall|j: int| 0 <= j < ncols implies spec_storage_of(
            layout.kind,
            (#[trigger] layout.cols@[j]).fspec,
        ) is Some by {
            assert(bufs@[j].wf());
        }
    }
    // second pass: fill the buffers column by column
    let mut out: Vec<ColumnBuffer> = Vec::new();
    let mut c: usize = 0;
    while c < ncols
        invariant
            c <= ncols,
            ncols == layout.cols@.len(),
            spec_layout_wf(*layout),
            spec_all_storages_ok(*layout),
            bpr == layout.bytes_per_row,
            bl == bytes@.len(),
            (first_row + rows) * bpr <= bl,
            first_row + rows <= usize::MAX,
            bufs@.len() == ncols - c,
            forall|j: int|
                0 <= j < ncols - c ==> {
                    let b = #[trigger] bufs@[j];
                    &&& b.wf()
                    &&& b.kind == layout.kind
                    &&& b.fspec == layout.cols@[j + c].fspec
                    &&& b.col_index == j + c
                    &&& b.cells().len() == rows
                },
            out@.len() == c,
            forall|j: int|
                0 <= j < c ==> {
                    let b = #[trigger] out@[j];
                    &&& b.wf()
                    &&& b.kind == layout.kind
                    &&& b.fspec == layout.cols@[j].fspec
                    &&& b.col_index == j
                    &&& b.cells() == spec_decoded_col_range(
                        *layout,
                        bytes@,
                        first_row as int,
                        first_row + rows,
                        j,
                    )
                },
            forall|r2: int, j: int|
                first_row <= r2 < first_row + rows && 0 <= j < c ==> spec_cell_parse_ok(
                    layout.kind,
                    layout.cols@[j].fspec,
                    #[trigger] spec_cell_bytes(*layout, bytes@, r2, j),
                ),
        decreases ncols - c,
    {
        let col = &layout.cols[c];
        let off = col.start_offset;
        let w = col.fspec.cell_width;
        let mut buf = bufs.remove(0);
        let mut r: usize = 0;
        while r < rows
            invariant
                r <= rows,
                ncols == layout.cols@.len(),
                0 <= c < ncols,
                spec_layout_wf(*layout),
                spec_all_storages_ok(*layout),
                bpr == layout.bytes_per_row,
                bl == bytes@.len(),
                (first_row + rows) * bpr <= bl,
                first_row + rows <= usize::MAX,
                off == layout.cols@[c as int].start_offset,
                w == layout.cols@[c as int].fspec.cell_width,
                off + w <= bpr,
                buf.wf(),
                buf.kind == layout.kind,
                buf.fspec == layout.cols@[c as int].fspec,
                buf.col_index == c,
                buf.cells().len() == rows,
                forall|q: int|
                    0 <= q < r ==> #[trigger] buf.cells()[q] == spec_decode_cell(
                        layout.kind,
                        layout.cols@[c as int].fspec,
                        spec_cell_bytes(*layout, bytes@, first_row + q, c as int),
                    ),
                forall|q: int|
                    0 <= q < r ==> spec_cell_parse_ok(
                        layout.kind,
                        layout.cols@[c as int].fspec,
                        #[trigger] spec_cell_bytes(*layout, bytes@, first_row + q, c as int),
                    ),
            decreases rows - r,
        {
            proof {
                crate::column::mul_in_range((first_row + r) as nat, (first_row + rows) as nat, bpr as nat);
            }
            let base = (first_row + r) * bpr;
            let s = slice_subrange(bytes, base + off, base + off + w);
            proof {
                assert(s@ == spec_cell_bytes(*layout, bytes@, first_row + r, c as int));
            }
            match buf.write_at(r, s) {
                Ok(()) => {},
                Err(FitsError::DecodeFailed { column: _, row: _ }) => {
                    return Err(FitsError::DecodeFailed { column: c, row: first_row + r });
                },
                Err(_) => {
                    proof {
                        assert(false);
                    }
                    return Err(FitsError::UnsupportedType);
                },
            }
            proof {
                assert(forall|q: int|
                    0 <= q < r ==> #[trigger] buf.cells()[q] == spec_decode_cell(
                        layout.kind,
                        layout.cols@[c as int].fspec,
                        spec_cell_bytes(*layout, bytes@, first_row + q, c as int),
                    ));
            }
            r += 1;
        }
        proof {
            assert(buf.cells() =~= spec_decoded_col_range(
                *layout,
                bytes@,
                first_row as int,
                first_row + rows,
                c as int,
            ));
            assert forall|r2: int| first_row <= r2 < first_row + rows implies spec_cell_parse_ok(
                layout.kind,
                layout.cols@[c as int].fspec,
                #[trigger] spec_cell_bytes(*layout, bytes@, r2, c as int),
            ) by {
                let q = r2 - first_row;
                assert(spec_cell_parse_ok(
                    layout.kind,
                    layout.cols@[c as int].fspec,
                    spec_cell_bytes(*layout, bytes@, first_row + q, c as int),
                ));
            }
        }
        out.push(buf);
        c += 1;
    }
    Ok(out)
}

/// Relies on num_cpus::get: the number of logical CPUs available to this
/// process, always at least one.
#[verifier::external_body]
fn available_parallelism() -> (r: usize)
    ensures
        r >= 1,
{
    num_cpus::get()
}

/// Relies on rayon's parallel iterator over a vector with an indexed
/// map-collect: the collected vector holds, in input order, one result
/// per job, each produced by one call of [`decode_chunk`] on that job.
#[verifier::external_body]
fn par_decode_chunks(layout: &RowLayout, bytes: &[u8], jobs: &Vec<(usize, usize)>) -> (r: Vec<
    Result<Vec<ColumnBuffer>, FitsError>,
>)
    requires
        spec_layout_wf(*layout),
        forall|i: int|
            0 <= i < jobs@.len() ==> ((#[trigger] jobs@[i]).0 + jobs@[i].1) * layout.bytes_per_row
                <= bytes@.len(),
    ensures
        r@.len() == jobs@.len(),
        forall|i: int|
            0 <= i < jobs@.len() ==> spec_chunk_post(
                *layout,
                bytes@,
                (#[trigger] jobs@[i]).0 as int,
                jobs@[i].1 as int,
                r@[i],
            ),
{
    jobs.par_iter().map(|j| decode_chunk(layout, bytes, j.0, j.1)).collect()
}


/// A decoded table: one named, typed column per table field.
#[derive(Debug)]
pub struct FitsTable {
    pub cols: Vec<TypedColumn>,
}

/// Every variable-length column's element type is supported and every
/// descriptor in rows `0..nrows` points inside the heap.
pub open spec fn spec_heap_ok(l: RowLayout, bytes: Seq<u8>, heap: Seq<u8>, nrows: int) -> bool {
    forall|c: int|
        0 <= c < l.cols@.len() && spec_storage_of(l.kind, (#[trigger] l.cols@[c]).fspec) == Some(
            StorageClass::Desc,
        ) ==> {
            let elem = l.cols@[c].fspec.heap_elem.unwrap();
            &&& spec_resolve_elem_class(elem) is Some
            &&& forall|r: int|
                0 <= r < nrows ==> spec_desc_in_bounds(
                    elem,
                    heap.len(),
                    #[trigger] spec_decoded_col_range(l, bytes, 0, nrows, c)[r],
                )
        }
}

/// Whether a whole table body decodes: enough bytes, a supported shape
/// for every column, every cell parsing, and every descriptor resolving
/// inside the heap.
pub open spec fn spec_table_ok(l: RowLayout, bytes: Seq<u8>, heap: Seq<u8>, nrows: int) -> bool {
    &&& nrows * l.bytes_per_row <= bytes.len()
    &&& spec_all_storages_ok(l)
    &&& spec_range_parse_ok(l, bytes, 0, nrows)
    &&& spec_heap_ok(l, bytes, heap, nrows)
}

/// The cells of column `c` of the decoded table: the fixed-block decode,
/// with descriptor columns resolved against the heap.
pub open spec fn spec_table_col(
    l: RowLayout,
    bytes: Seq<u8>,
    heap: Seq<u8>,
    nrows: int,
    c: int,
) -> Seq<CellV> {
    let base = spec_decoded_col_range(l, bytes, 0, nrows, c);
    if spec_storage_of(l.kind, l.cols@[c].fspec) == Some(StorageClass::Desc) {
        Seq::new(
            nrows as nat,
            |r: int| spec_resolve_cell(l.cols@[c].fspec.heap_elem.unwrap(), heap, base[r]),
        )
    } else {
        base
    }
}

/// What table decoding returns, whatever the partition count was: the
/// one table [`spec_table_col`] describes, or the error class whose
/// condition holds.  Row order is input order; nothing here depends on
/// how many workers ran.
pub open spec fn spec_table_post(
    l: RowLayout,
    bytes: Seq<u8>,
    heap: Seq<u8>,
    nrows: int,
    r: Result<FitsTable, FitsError>,
) -> bool {
    match r {
        Ok(t) => {
            &&& spec_table_ok(l, bytes, heap, nrows)
            &&& t.cols@.len() == l.cols@.len()
            &&& forall|c: int|
                0 <= c < l.cols@.len() ==> (#[trigger] t.cols@[c]).name == l.cols@[c].desc.name
            &&& forall|c: int|
                0 <= c < l.cols@.len() ==> (#[trigger] t.cols@[c]).data.cells() == spec_table_col(
                    l,
                    bytes,
                    heap,
                    nrows,
                    c,
                )
        },
        Err(e) => {
            &&& !spec_table_ok(l, bytes, heap, nrows)
            // the error class follows the first check that fails: the
            // byte count, then the column shapes, then the cells, then
            // the heap
            &&& (nrows * l.bytes_per_row > bytes.len() ==> (e matches FitsError::TruncatedBuffer {
                expected,
                got,
            } && got == bytes.len() && expected == (
            if nrows * l.bytes_per_row <= usize::MAX {
                nrows * l.bytes_per_row
            } else {
                usize::MAX as int
            })))
            &&& (nrows * l.bytes_per_row <= bytes.len() && !spec_all_storages_ok(l) ==> e
                == FitsError::UnsupportedType)
            &&& (nrows * l.bytes_per_row <= bytes.len() && spec_all_storages_ok(l)
                && !spec_range_parse_ok(l, bytes, 0, nrows) ==> e is DecodeFailed)
            &&& (nrows * l.bytes_per_row <= bytes.len() && spec_all_storages_ok(l)
                && spec_range_parse_ok(l, bytes, 0, nrows) ==> (e is UnsupportedType
                || e is TruncatedBuffer))
            &&& (e is TruncatedBuffer ==> (nrows * l.bytes_per_row > bytes.len() || !spec_heap_ok(
                l,
                bytes,
                heap,
                nrows,
            )))
            &&& (e is UnsupportedType ==> (!spec_all_storages_ok(l) || !spec_heap_ok(
                l,
                bytes,
                heap,
                nrows,
            )))
            &&& (e matches FitsError::DecodeFailed { column, row } ==> {
                &&& 0 <= column < l.cols@.len()
                &&& 0 <= row < nrows
                &&& !spec_cell_parse_ok(
                    l.kind,
                    l.cols@[column as int].fspec,
                    spec_cell_bytes(l, bytes, row as int, column as int),
                )
            })
        },
    }
}

/// Decodes a table body with a chosen partition count.
///
/// The body is split into `n_chunks` row-aligned partitions (one when
/// `n_chunks` is zero or one), each partition is decoded independently —
/// in parallel across the worker pool when there is more than one — and
/// the partition outputs are joined in partition index order.  The
/// postcondition does not mention the partition count at all: any two
/// calls on the same buffer return identical tables in identical row
/// order.
#[verifier::rlimit(100)]
pub fn decode_table_with_chunks(
    layout: &RowLayout,
    bytes: &[u8],
    nrows: usize,
    heap: &[u8],
    n_chunks: usize,
) -> (r: Result<FitsTable, FitsError>)
    requires
        spec_layout_wf(*layout),
    ensures
        spec_table_post(*layout, bytes@, heap@, nrows as int, r),
{
    let bpr = layout.bytes_per_row;
    let ncols = layout.cols.len();
    let bl = bytes.len();
    if nrows > bl / bpr {
        proof {
            crate::column::lemma_div_mul_le(nrows as nat, bl as nat, bpr as nat);
        }
        let expected: usize = if nrows <= usize::MAX / bpr {
            proof {
                crate::column::lemma_div_mul_le(nrows as nat, usize::MAX as nat, bpr as nat);
            }
            nrows * bpr
        } else {
            proof {
                crate::column::lemma_div_mul_le(nrows as nat, usize::MAX as nat, bpr as nat);
            }
            usize::MAX
        };
        return Err(FitsError::TruncatedBuffer { expected, got: bl });
    }
    proof {
        crate::column::lemma_div_mul_le(nrows as nat, bl as nat, bpr as nat);
    }
    let total = nrows * bpr;
    let nn: usize = if n_chunks == 0 {
        1
    } else {
        n_chunks
    };
    let ranges = partition_ranges(total, nn, bpr);
    proof {
        vstd::arithmetic::div_mod::lemma_mod_multiples_basic(nrows as int, bpr as int);
    }
    // byte ranges to row ranges: every boundary is a whole number of rows
    let mut jobs: Vec<(usize, usize)> = Vec::new();
    let mut i: usize = 0;
    while i < nn
        invariant
            i <= nn,
            nn >= 1,
            bpr >= 1,
            total == nrows * bpr,
            total % bpr == 0,
            ranges@.len() == nn,
            jobs@.len() == i,
            ranges@[0].0 == 0,
            ranges@[nn - 1].1 == total,
            forall|j: int| 0 <= j < nn ==> (#[trigger] ranges@[j]).0 <= ranges@[j].1 <= total,
            forall|j: int| 0 <= j < nn - 1 ==> (#[trigger] ranges@[j]).1 == ranges@[j + 1].0,
            forall|j: int|
                0 <= j < nn ==> ((#[trigger] ranges@[j]).1 % bpr == 0 || ranges@[j].1 == total),
            forall|j: int|
                0 <= j < nn ==> ((#[trigger] ranges@[j]).0 % bpr == 0 || ranges@[j].0 == total),
            forall|j: int|
                0 <= j < i ==> {
                    &&& ((#[trigger] jobs@[j]).0 * bpr) == ranges@[j].0
                    &&& (jobs@[j].1 * bpr) == ranges@[j].1 - ranges@[j].0
                    &&& jobs@[j].0 + jobs@[j].1 <= nrows
                    &&& (jobs@[j].0 + jobs@[j].1) * bpr == ranges@[j].1
                },
        decreases nn - i,
    {
        let rg = ranges[i];
        proof {
            lemma_exact_div(rg.0 as nat, bpr as nat, total as nat, nrows as nat);
            lemma_exact_div(rg.1 as nat, bpr as nat, total as nat, nrows as nat);
        }
        let fr = rg.0 / bpr;
        let er = rg.1 / bpr;
        proof {
            assert(fr * bpr == rg.0 && er * bpr == rg.1);
            assert(fr <= er) by (nonlinear_arith)
                requires
                    fr * bpr <= er * bpr,
                    bpr >= 1,
                    fr >= 0,
                    er >= 0,
            {
            }
            assert(er <= nrows) by (nonlinear_arith)
                requires
                    er * bpr <= nrows * bpr,
                    bpr >= 1,
                    er >= 0,
                    nrows >= 0,
            {
            }
            assert((er - fr) * bpr == rg.1 - rg.0) by (nonlinear_arith)
                requires
                    fr * bpr == rg.0,
                    er * bpr == rg.1,
            {
            }
        }
        jobs.push((fr, er - fr));
        i += 1;
    }
    proof {
        // the byte partition divides exactly into a row partition
        lemma_mul_cancel(jobs@[0].0 as int, 0, bpr as int);
        assert forall|j: int| 0 <= j < nn - 1 implies ((#[trigger] jobs@[j]).0 + jobs@[j].1)
            == jobs@[j + 1].0 by {
            lemma_mul_cancel(
                jobs@[j].0 + jobs@[j].1,
                jobs@[j + 1].0 as int,
                bpr as int,
            );
        }
        lemma_mul_cancel(jobs@[nn - 1].0 + jobs@[nn - 1].1, nrows as int, bpr as int);
    }
    // decode each partition, sequentially for one chunk, in parallel
    // otherwise
    let results: Vec<Result<Vec<ColumnBuffer>, FitsError>> = if nn == 1 {
        let mut v: Vec<Result<Vec<ColumnBuffer>, FitsError>> = Vec::new();
        let one = decode_chunk(layout, bytes, 0, nrows);
        v.push(one);
        v
    } else {
        proof {
            assert forall|j: int| 0 <= j < jobs@.len() implies ((#[trigger] jobs@[j]).0
                + jobs@[j].1) * layout.bytes_per_row <= bytes@.len() by {}
        }
        par_decode_chunks(layout, bytes, &jobs)
    };
    let ghost gjobs = jobs@;
    // join partitions in partition index order
    let nres = results.len();
    proof {
        assert(gjobs.len() == nn);
    }
    let mut results = results;
    let mut merged: Vec<ColumnBuffer> = Vec::new();
    let mut done: usize = 0;
    let mut i: usize = 0;
    while i < nres
        invariant
            i <= nres,
            nres >= 1,
            nres == gjobs.len(),
            jobs@ == gjobs,
            ncols == layout.cols@.len(),
            spec_layout_wf(*layout),
            bpr == layout.bytes_per_row,
            nrows * bpr <= bytes@.len(),
            results@.len() == nres - i,
            forall|j: int|
                0 <= j < nres - i ==> spec_chunk_post(
                    *layout,
                    bytes@,
                    gjobs[j + i].0 as int,
                    gjobs[j + i].1 as int,
                    #[trigger] results@[j],
                ),
            forall|j: int|
                0 <= j < nres ==> (#[trigger] gjobs[j]).0 + gjobs[j].1 <= nrows,
            i < nres ==> done == gjobs[i as int].0,
            i == nres ==> done == nrows,
            gjobs[0].0 == 0,
            forall|j: int| 0 <= j < nres - 1 ==> ((#[trigger] gjobs[j]).0 + gjobs[j].1) == gjobs[j + 1].0,
            gjobs[nres - 1].0 + gjobs[nres - 1].1 == nrows,
            i > 0 ==> {
                &&& merged@.len() == ncols
                &&& spec_all_storages_ok(*layout)
                &&& spec_range_parse_ok(*layout, bytes@, 0, done as int)
                &&& forall|c: int|
                    0 <= c < ncols ==> {
                        let b = #[trigger] merged@[c];
                        &&& b.wf()
                        &&& b.kind == layout.kind
                        &&& b.fspec == layout.cols@[c].fspec
                        &&& b.col_index == c
                        &&& b.cells() == spec_decoded_col_range(*layout, bytes@, 0, done as int, c)
                    }
            },
            i == 0 ==> done == 0,
        decreases nres - i,
    {
        let res_i = results.remove(0);
        let bufs_i = match res_i {
            Ok(b) => b,
            Err(e) => {
                proof {
                    match e {
                        FitsError::UnsupportedType => {},
                        FitsError::DecodeFailed { column, row } => {
                            assert(!spec_range_parse_ok(*layout, bytes@, 0, nrows as int));
                        },
                        _ => {
                            assert(false);
                        },
                    }
                }
                return Err(e);
            },
        };
        let rows_i = jobs[i].1;
        if i == 0 {
            merged = bufs_i;
        } else {
            let mut bufs_i = bufs_i;
            let mut nm: Vec<ColumnBuffer> = Vec::new();
            let ghost d0 = done as int;
            let ghost fr_i = gjobs[i as int].0 as int;
            let ghost rws = gjobs[i as int].1 as int;
            let mut c: usize = 0;
            while c < ncols
                invariant
                    c <= ncols,
                    ncols == layout.cols@.len(),
                    spec_layout_wf(*layout),
                    merged@.len() == ncols - c,
                    bufs_i@.len() == ncols - c,
                    nm@.len() == c,
                    d0 == fr_i,
                    0 <= d0,
                    0 <= rws,
                    forall|j: int|
                        0 <= j < ncols - c ==> {
                            let b = #[trigger] merged@[j];
                            &&& b.wf()
                            &&& b.kind == layout.kind
                            &&& b.fspec == layout.cols@[j + c].fspec
                            &&& b.col_index == j + c
                            &&& b.cells() == spec_decoded_col_range(*layout, bytes@, 0, d0, j + c)
                        },
                    forall|j: int|
                        0 <= j < ncols - c ==> {
                            let b = #[trigger] bufs_i@[j];
                            &&& b.wf()
                            &&& b.kind == layout.kind
                            &&& b.fspec == layout.cols@[j + c].fspec
                            &&& b.col_index == j + c
                            &&& b.cells() == spec_decoded_col_range(
                                *layout,
                                bytes@,
                                d0,
                                d0 + rws,
                                j + c,
                            )
                        },
                    forall|j: int|
                        0 <= j < c ==> {
                            let b = #[trigger] nm@[j];
                            &&& b.wf()
                            &&& b.kind == layout.kind
                            &&& b.fspec == layout.cols@[j].fspec
                            &&& b.col_index == j
                            &&& b.cells() == spec_decoded_col_range(
                                *layout,
                                bytes@,
                                0,
                                d0 + rws,
                                j,
                            )
                        },
                decreases ncols - c,
            {
                let mut m = merged.remove(0);
                let b = bufs_i.remove(0);
                m.append_from(b);
                proof {
                    lemma_decoded_col_range_concat(*layout, bytes@, 0, d0, d0 + rws, c as int);
                }
                nm.push(m);
                c += 1;
            }
            merged = nm;
        }
        proof {
            if i < nres - 1 {
                assert(gjobs[i as int].0 + gjobs[i as int].1 == gjobs[i + 1].0);
            }
        }
        done = done + rows_i;
        i += 1;
    }
    // resolve the variable-length columns and name everything
    let mut cols_out: Vec<TypedColumn> = Vec::new();
    let mut c: usize = 0;
    while c < ncols
        invariant
            c <= ncols,
            ncols == layout.cols@.len(),
            spec_layout_wf(*layout),
            bpr == layout.bytes_per_row,
            nrows * bpr <= bytes@.len(),
            spec_all_storages_ok(*layout),
            spec_range_parse_ok(*layout, bytes@, 0, nrows as int),
            merged@.len() == ncols - c,
            forall|j: int|
                0 <= j < ncols - c ==> {
                    let b = #[trigger] merged@[j];
                    &&& b.wf()
                    &&& b.kind == layout.kind
                    &&& b.fspec == layout.cols@[j + c].fspec
                    &&& b.col_index == j + c
                    &&& b.cells() == spec_decoded_col_range(
                        *layout,
                        bytes@,
                        0,
                        nrows as int,
                        j + c,
                    )
                },
            cols_out@.len() == c,
            forall|j: int|
                0 <= j < c ==> (#[trigger] cols_out@[j]).name == layout.cols@[j].desc.name,
            forall|j: int|
                0 <= j < c ==> (#[trigger] cols_out@[j]).data.cells() == spec_table_col(
                    *layout,
                    bytes@,
                    heap@,
                    nrows as int,
                    j,
                ),
            forall|j: int|
                0 <= j < c && spec_storage_of(layout.kind, (#[trigger] layout.cols@[j]).fspec)
                    == Some(StorageClass::Desc) ==> {
                    let elem = layout.cols@[j].fspec.heap_elem.unwrap();
                    &&& spec_resolve_elem_class(elem) is Some
                    &&& forall|r: int|
                        0 <= r < nrows ==> spec_desc_in_bounds(
                            elem,
                            heap@.len(),
                            #[trigger] spec_decoded_col_range(
                                *layout,
                                bytes@,
                                0,
                                nrows as int,
                                j,
                            )[r],
                        )
                },
        decreases ncols - c,
    {
        let mut buf = merged.remove(0);
        match buf.resolve_heap(heap) {
            Ok(()) => {},
            Err(e) => {
                proof {
                    assert(!spec_heap_ok(*layout, bytes@, heap@, nrows as int));
                }
                return Err(e);
            },
        }
        let name = layout.cols[c].desc.name.clone();
        proof {
            assert(buf.data.cells() == spec_table_col(*layout, bytes@, heap@, nrows as int, c as int));
        }
        let tc = buf.into_typed_column(name);
        cols_out.push(tc);
        c += 1;
    }
    Ok(FitsTable { cols: cols_out })
}

/// Equal multiples of a positive factor have equal multipliers.
proof fn lemma_mul_cancel(a: int, b: int, c: int)
    requires
        a * c == b * c,
        c >= 1,
        a >= 0,
        b >= 0,
    ensures
        a == b,
{
    if a < b {
        assert(a * c < b * c) by (nonlinear_arith)
            requires
                a < b,
                c >= 1,
        {
        }
    }
    if a > b {
        assert(a * c > b * c) by (nonlinear_arith)
            requires
                a > b,
                c >= 1,
        {
        }
    }
}

/// A multiple of `b` at or below another multiple divides exactly.
proof fn lemma_exact_div(x: nat, b: nat, total: nat, q: nat)
    requires
        b >= 1,
        x % b == 0 || x == total,
        total == q * b,
        x <= total,
    ensures
        x % b == 0,
        (x / b) * b == x,
        x / b <= q,
{
    if x == total {
        vstd::arithmetic::div_mod::lemma_mod_multiples_basic(q as int, b as int);
    }
    vstd::arithmetic::div_mod::lemma_fundamental_div_mod(x as int, b as int);
    assert(x == b * (x / b) + x % b);
    assert(b * (x / b) == (x / b) * b) by (nonlinear_arith);
    assert(x / b <= q) by (nonlinear_arith)
        requires
            (x / b) * b == x,
            x <= q * b,
            b >= 1,
            x / b >= 0,
            q >= 0,
    {
    }
}

/// Decodes a table body, choosing the partition count the way the
/// transcoder always does: the machine's parallelism, but never more
/// than one partition per ten rows, and at least one.  Because
/// [`decode_table_with_chunks`] pins the result independently of the
/// count, decoding here returns exactly the same table a single-threaded
/// run returns.
pub fn decode_table(layout: &RowLayout, bytes: &[u8], nrows: usize, heap: &[u8]) -> (r: Result<
    FitsTable,
    FitsError,
>)
    requires
        spec_layout_wf(*layout),
    ensures
        spec_table_post(*layout, bytes@, heap@, nrows as int, r),
{
    let cpus = available_parallelism();
    let by_rows = if nrows / 10 >= 1 {
        nrows / 10
    } else {
        1
    };
    let n = if cpus < by_rows {
        cpus
    } else {
        by_rows
    };
    decode_table_with_chunks(layout, bytes, nrows, heap, n)
}


/// Bytes of slack after each field: ASCII tables keep one pad column per
/// field, binary tables pack tightly.
pub open spec fn spec_field_pad(kind: TableKind) -> nat {
    if kind is Ascii {
        crate::layout::ASCII_FIELD_PAD as nat
    } else {
        0
    }
}

/// Offset at which field `k` of a packed row starts.
pub open spec fn spec_packed_offset(l: RowLayout, k: int) -> nat
    decreases k,
{
    if k <= 0 {
        0
    } else {
        (spec_packed_offset(l, k - 1) + l.cols@[k - 1].fspec.cell_width + spec_field_pad(
            l.kind,
        )) as nat
    }
}

/// A writer's layout: consecutive fields with the standard pad, the row
/// exactly their total.  Layouts planned from freshly derived columns
/// have this shape; it is what row encoding assumes.
pub open spec fn spec_packed(l: RowLayout) -> bool {
    &&& l.cols@.len() >= 1
    &&& forall|c: int|
        0 <= c < l.cols@.len() ==> (#[trigger] l.cols@[c].start_offset) == spec_packed_offset(l, c)
    &&& l.bytes_per_row == spec_packed_offset(l, l.cols@.len() as int)
}

/// One field of an encoded row: the cell's bytes plus the field pad.
pub open spec fn spec_field_bytes(l: RowLayout, c: int, cell: CellV) -> Seq<u8> {
    if l.kind is Ascii {
        crate::cell::spec_encode_cell(l.kind, l.cols@[c].fspec, cell) + crate::ascii::spec_spaces(
            spec_field_pad(l.kind),
        )
    } else {
        crate::cell::spec_encode_cell(l.kind, l.cols@[c].fspec, cell)
    }
}

/// Row `r` of a table, encoded: the fields in column order.
pub open spec fn spec_encode_row(l: RowLayout, cols: Seq<TypedColumn>, r: int) -> Seq<u8> {
    crate::cell::spec_cat(
        l.cols@.len(),
        |c: int| spec_field_bytes(l, c, cols[c].data.cells()[r]),
    )
}

/// Rows `r0..r1` of a table, encoded and concatenated in row order.
pub open spec fn spec_encode_rows(l: RowLayout, cols: Seq<TypedColumn>, r0: int, r1: int) -> Seq<
    u8,
> {
    crate::cell::spec_cat((r1 - r0) as nat, |r: int| spec_encode_row(l, cols, r0 + r))
}

/// The table's columns have the shapes the layout demands and `nrows`
/// rows each.
pub open spec fn spec_cols_wf(l: RowLayout, cols: Seq<TypedColumn>, nrows: int) -> bool {
    &&& cols.len() == l.cols@.len()
    &&& forall|c: int|
        0 <= c < cols.len() ==> spec_storage_of(l.kind, l.cols@[c].fspec) == Some(
            (#[trigger] cols[c]).data.class(),
        )
    &&& forall|c: int| 0 <= c < cols.len() ==> (#[trigger] cols[c]).data.cells().len() == nrows
}

/// Every cell of rows `r0..r1` can be written under its column's format.
pub open spec fn spec_range_encodable(
    l: RowLayout,
    cols: Seq<TypedColumn>,
    r0: int,
    r1: int,
) -> bool {
    forall|r: int, c: int|
        r0 <= r < r1 && 0 <= c < l.cols@.len() ==> #[trigger] crate::cell::spec_cell_encodable(
            l.kind,
            l.cols@[c].fspec,
            cols[c].data.cells()[r],
        )
}

/// An encodable packed row is exactly `bytes_per_row` bytes: the fields
/// of the first `k` columns end where field `k` begins.
pub proof fn lemma_encode_row_prefix_len(l: RowLayout, cols: Seq<TypedColumn>, r: int, k: int)
    requires
        spec_layout_wf(l),
        spec_packed(l),
        0 <= k <= l.cols@.len(),
        forall|c: int|
            0 <= c < l.cols@.len() ==> crate::cell::spec_cell_encodable(
                l.kind,
                l.cols@[c].fspec,
                (#[trigger] cols[c]).data.cells()[r],
            ),
    ensures
        crate::cell::spec_cat(
            k as nat,
            |c: int| spec_field_bytes(l, c, cols[c].data.cells()[r]),
        ).len() == spec_packed_offset(l, k),
    decreases k,
{
    let f = |c: int| spec_field_bytes(l, c, cols[c].data.cells()[r]);
    if k > 0 {
        lemma_encode_row_prefix_len(l, cols, r, k - 1);
        crate::cell::lemma_encode_cell_len(l.kind, l.cols@[k - 1].fspec, cols[k - 1].data.cells()[r]);
        assert(f(k - 1).len() == l.cols@[k - 1].fspec.cell_width + spec_field_pad(l.kind));
    }
}

/// Encodes rows `first_row .. first_row + rows` of a table into one
/// row-major byte block of exactly `rows * bytes_per_row` bytes.
#[verifier::rlimit(100)]
pub fn encode_chunk(layout: &RowLayout, cols: &Vec<TypedColumn>, first_row: usize, rows: usize) -> (r:
    Result<Vec<u8>, FitsError>)
    requires
        spec_layout_wf(*layout),
        spec_packed(*layout),
        cols@.len() == layout.cols@.len(),
        forall|c: int|
            0 <= c < cols@.len() ==> spec_storage_of(layout.kind, layout.cols@[c].fspec) == Some(
                (#[trigger] cols@[c]).data.class(),
            ),
        forall|c: int|
            0 <= c < cols@.len() ==> (#[trigger] cols@[c]).data.cells().len() >= first_row + rows,
        first_row + rows <= usize::MAX,
        (first_row + rows) * layout.bytes_per_row <= usize::MAX,
    ensures
        match r {
            Ok(b) => {
                &&& spec_range_encodable(*layout, cols@, first_row as int, first_row + rows)
                &&& b@ == spec_encode_rows(*layout, cols@, first_row as int, first_row + rows)
                &&& b@.len() == rows * layout.bytes_per_row
            },
            Err(e) => {
                &&& e is LayoutMismatch
                &&& !spec_range_encodable(*layout, cols@, first_row as int, first_row + rows)
            },
        },
{
    let ncols = layout.cols.len();
    let bpr = layout.bytes_per_row;
    let is_ascii = match layout.kind {
        TableKind::Ascii => true,
        TableKind::Binary => false,
    };
    let mut out: Vec<u8> = Vec::new();
    let mut r: usize = 0;
    while r < rows
        invariant
            r <= rows,
            ncols == layout.cols@.len(),
            spec_layout_wf(*layout),
            spec_packed(*layout),
            cols@.len() == layout.cols@.len(),
            forall|c2: int|
                0 <= c2 < cols@.len() ==> spec_storage_of(layout.kind, layout.cols@[c2].fspec)
                    == Some((#[trigger] cols@[c2]).data.class()),
            forall|c2: int|
                0 <= c2 < cols@.len() ==> (#[trigger] cols@[c2]).data.cells().len() >= first_row
                    + rows,
            first_row + rows <= usize::MAX,
            (first_row + rows) * bpr <= usize::MAX,
            bpr == layout.bytes_per_row,
            is_ascii == (layout.kind is Ascii),
            out@ =~= spec_encode_rows(*layout, cols@, first_row as int, first_row + r),
            out@.len() == r * bpr,
            spec_range_encodable(*layout, cols@, first_row as int, first_row + r),
        decreases rows - r,
    {
        let mut rowbuf: Vec<u8> = Vec::new();
        let mut c: usize = 0;
        while c < ncols
            invariant
                c <= ncols,
                r < rows,
                ncols == layout.cols@.len(),
                spec_layout_wf(*layout),
                spec_packed(*layout),
                cols@.len() == layout.cols@.len(),
                forall|c2: int|
                    0 <= c2 < cols@.len() ==> spec_storage_of(layout.kind, layout.cols@[c2].fspec)
                        == Some((#[trigger] cols@[c2]).data.class()),
                forall|c2: int|
                    0 <= c2 < cols@.len() ==> (#[trigger] cols@[c2]).data.cells().len()
                        >= first_row + rows,
                first_row + rows <= usize::MAX,
                bpr == layout.bytes_per_row,
                is_ascii == (layout.kind is Ascii),
                rowbuf@ =~= crate::cell::spec_cat(
                    c as nat,
                    |c2: int| spec_field_bytes(
                        *layout,
                        c2,
                        cols@[c2].data.cells()[first_row + r],
                    ),
                ),
                forall|c2: int|
                    0 <= c2 < c ==> crate::cell::spec_cell_encodable(
                        layout.kind,
                        layout.cols@[c2].fspec,
                        (#[trigger] cols@[c2]).data.cells()[first_row + r],
                    ),
            decreases ncols - c,
        {
            let col = &cols[c];
            let fs = &layout.cols[c].fspec;
            let mut cellbytes = match crate::column::encode_cell(
                layout.kind,
                fs,
                &col.data,
                first_row + r,
            ) {
                Ok(b) => b,
                Err(e) => {
                    match e {
                        FitsError::LayoutMismatch { expected, got } => {
                            return Err(FitsError::LayoutMismatch { expected, got });
                        },
                        _ => {
                            proof {
                                assert(false);
                            }
                            return Err(FitsError::LayoutMismatch { expected: 0, got: 0 });
                        },
                    }
                },
            };
            rowbuf.append(&mut cellbytes);
            if is_ascii {
                let ghost rb0 = rowbuf@;
                let mut p: usize = 0;
                while p < crate::layout::ASCII_FIELD_PAD
                    invariant
                        p <= crate::layout::ASCII_FIELD_PAD,
                        rowbuf@ =~= rb0 + crate::ascii::spec_spaces(p as nat),
                    decreases crate::layout::ASCII_FIELD_PAD - p,
                {
                    rowbuf.push(0x20);
                    proof {
                        assert(rowbuf@ =~= rb0 + crate::ascii::spec_spaces((p + 1) as nat));
                    }
                    p += 1;
                }
            }
            proof {
                assert(rowbuf@ =~= crate::cell::spec_cat(
                    (c + 1) as nat,
                    |c2: int| spec_field_bytes(
                        *layout,
                        c2,
                        cols@[c2].data.cells()[first_row + r],
                    ),
                ));
            }
            c += 1;
        }
        proof {
            lemma_encode_row_prefix_len(*layout, cols@, first_row + r, ncols as int);
            assert(rowbuf@.len() == bpr);
            crate::column::mul_in_range(r as nat, rows as nat, bpr as nat);
            assert((r + 1) * bpr == r * bpr + bpr) by (nonlinear_arith);
            assert(out@ + rowbuf@ =~= spec_encode_rows(
                *layout,
                cols@,
                first_row as int,
                first_row + r + 1,
            ));
        }
        let mut rowbuf = rowbuf;
        out.append(&mut rowbuf);
        r += 1;
    }
    Ok(out)
}


/// What one encode partition returns.
pub open spec fn spec_encode_chunk_post(
    l: RowLayout,
    cols: Seq<TypedColumn>,
    r0: int,
    rows: int,
    result: Result<Vec<u8>, FitsError>,
) -> bool {
    match result {
        Ok(b) => {
            &&& spec_range_encodable(l, cols, r0, r0 + rows)
            &&& b@ == spec_encode_rows(l, cols, r0, r0 + rows)
            &&& b@.len() == rows * l.bytes_per_row
        },
        Err(e) => e is LayoutMismatch && !spec_range_encodable(l, cols, r0, r0 + rows),
    }
}

/// Relies on rayon's parallel iterator over a vector with an indexed
/// map-collect: the collected vector holds, in input order, one result
/// per job, each produced by one call of [`encode_chunk`] on that job.
#[verifier::external_body]
fn par_encode_chunks(layout: &RowLayout, cols: &Vec<TypedColumn>, jobs: &Vec<(usize, usize)>) -> (r:
    Vec<Result<Vec<u8>, FitsError>>)
    requires
        spec_layout_wf(*layout),
        spec_packed(*layout),
        cols@.len() == layout.cols@.len(),
        forall|c: int|
            0 <= c < cols@.len() ==> spec_storage_of(layout.kind, layout.cols@[c].fspec) == Some(
                (#[trigger] cols@[c]).data.class(),
            ),
        forall|i: int|
            0 <= i < jobs@.len() ==> {
                &&& forall|c: int|
                    0 <= c < cols@.len() ==> (#[trigger] cols@[c]).data.cells().len() >= (
                    #[trigger] jobs@[i]).0 + jobs@[i].1
                &&& jobs@[i].0 + jobs@[i].1 <= usize::MAX
                &&& (jobs@[i].0 + jobs@[i].1) * layout.bytes_per_row <= usize::MAX
            },
    ensures
        r@.len() == jobs@.len(),
        forall|i: int|
            0 <= i < jobs@.len() ==> spec_encode_chunk_post(
                *layout,
                cols@,
                (#[trigger] jobs@[i]).0 as int,
                jobs@[i].1 as int,
                r@[i],
            ),
{
    jobs.par_iter().map(|j| encode_chunk(layout, cols, j.0, j.1)).collect()
}

/// The fill byte a table body is padded with: zero for binary tables,
/// ASCII space for ASCII tables.
pub open spec fn spec_body_fill(kind: TableKind) -> u8 {
    if kind is Ascii {
        0x20
    } else {
        0x00
    }
}

/// What table encoding produces: the rows in order, then the heap bytes,
/// then block padding — always a whole number of 2880-byte blocks.
pub open spec fn spec_encode_table_post(
    l: RowLayout,
    cols: Seq<TypedColumn>,
    nrows: int,
    heap: Seq<u8>,
    r: Result<Vec<u8>, FitsError>,
) -> bool {
    match r {
        Ok(out) => {
            &&& spec_cols_wf(l, cols, nrows)
            &&& spec_range_encodable(l, cols, 0, nrows)
            &&& out@ == spec_encode_rows(l, cols, 0, nrows) + heap + crate::blocks::spec_fill(
                crate::blocks::spec_block_padding((nrows * l.bytes_per_row + heap.len()) as nat),
                spec_body_fill(l.kind),
            )
            &&& out@.len() % 2880 == 0
        },
        Err(e) => {
            &&& e is LayoutMismatch
            &&& !(spec_cols_wf(l, cols, nrows) && spec_range_encodable(l, cols, 0, nrows))
        },
    }
}

/// Encodes a whole table with a chosen partition count: the row range is
/// split, every partition is encoded into its own buffer — in parallel
/// when there is more than one — and the buffers are joined in partition
/// index order, followed by the heap bytes and the block padding.
///
/// A column whose storage shape disagrees with the layout is refused as
/// a `LayoutMismatch` carrying that column's index in both fields; a
/// column with the wrong row count carries the expected and actual
/// counts.
///
/// As with decoding, the postcondition never mentions the partition
/// count: the bytes written are the same for any count, which is what
/// makes the single-threaded and the parallel paths interchangeable.
#[verifier::rlimit(100)]
pub fn encode_table_with_chunks(
    layout: &RowLayout,
    table: &FitsTable,
    nrows: usize,
    heap: &[u8],
    n_chunks: usize,
) -> (r: Result<Vec<u8>, FitsError>)
    requires
        spec_layout_wf(*layout),
        spec_packed(*layout),
        nrows * layout.bytes_per_row + heap@.len() + 2880 <= usize::MAX,
    ensures
        spec_encode_table_post(*layout, table.cols@, nrows as int, heap@, r),
{
    let bpr = layout.bytes_per_row;
    let ncols = layout.cols.len();
    // the table must have exactly the layout's columns, each shaped as
    // its format demands and holding exactly `nrows` cells
    if table.cols.len() != ncols {
        return Err(
            FitsError::LayoutMismatch { expected: ncols, got: table.cols.len() },
        );
    }
    let mut c: usize = 0;
    while c < ncols
        invariant
            c <= ncols,
            ncols == layout.cols@.len(),
            ncols == table.cols@.len(),
            spec_layout_wf(*layout),
            forall|j: int|
                0 <= j < c ==> spec_storage_of(layout.kind, layout.cols@[j].fspec) == Some(
                    (#[trigger] table.cols@[j]).data.class(),
                ) && table.cols@[j].data.cells().len() == nrows,
        decreases ncols - c,
    {
        let want = crate::column::storage_of(layout.kind, layout.cols[c].fspec);
        let have = data_class(&table.cols[c].data);
        let ok = match want {
            Some(w) => storage_class_eq(w, have),
            None => false,
        };
        if !ok {
            return Err(FitsError::LayoutMismatch { expected: c, got: c });
        }
        let len_c = data_len(&table.cols[c].data);
        if len_c != nrows {
            return Err(FitsError::LayoutMismatch { expected: nrows, got: len_c });
        }
        c += 1;
    }
    proof {
        vstd::arithmetic::div_mod::lemma_mod_multiples_basic(nrows as int, 1int);
    }
    let nn: usize = if n_chunks == 0 {
        1
    } else {
        n_chunks
    };
    // partition the row index range
    let ranges = partition_ranges(nrows, nn, 1);
    proof {
        assert forall|j: int| 0 <= j < nn implies ((#[trigger] ranges@[j]).0 + (ranges@[j].1
            - ranges@[j].0)) * bpr <= usize::MAX by {
            assert(ranges@[j].1 <= nrows);
            crate::column::mul_in_range2(ranges@[j].1 as nat, nrows as nat, bpr as nat);
        }
    }
    let mut jobs: Vec<(usize, usize)> = Vec::new();
    let mut i: usize = 0;
    while i < nn
        invariant
            i <= nn,
            nn >= 1,
            ranges@.len() == nn,
            jobs@.len() == i,
            nrows * bpr + heap@.len() + 2880 <= usize::MAX,
            ranges@[0].0 == 0,
            ranges@[nn - 1].1 == nrows,
            forall|j: int| 0 <= j < nn ==> (#[trigger] ranges@[j]).0 <= ranges@[j].1 <= nrows,
            forall|j: int| 0 <= j < nn - 1 ==> (#[trigger] ranges@[j]).1 == ranges@[j + 1].0,
            forall|j: int|
                0 <= j < i ==> (#[trigger] jobs@[j]).0 == ranges@[j].0 && jobs@[j].1 == ranges@[
                    j
                ].1 - ranges@[j].0,
        decreases nn - i,
    {
        let rg = ranges[i];
        jobs.push((rg.0, rg.1 - rg.0));
        i += 1;
    }
    let ghost gjobs = jobs@;
    let results: Vec<Result<Vec<u8>, FitsError>> = if nn == 1 {
        let mut v: Vec<Result<Vec<u8>, FitsError>> = Vec::new();
        proof {
            crate::column::mul_in_range2(nrows as nat, nrows as nat, bpr as nat);
        }
        let one = encode_chunk(layout, &table.cols, 0, nrows);
        v.push(one);
        v
    } else {
        proof {
            assert forall|j: int| 0 <= j < gjobs.len() implies {
                &&& (#[trigger] gjobs[j]).0 + gjobs[j].1 <= usize::MAX
                &&& (gjobs[j].0 + gjobs[j].1) * bpr <= usize::MAX
            } by {
                assert(gjobs[j].0 + gjobs[j].1 == ranges@[j].1);
                crate::column::mul_in_range2(ranges@[j].1 as nat, nrows as nat, bpr as nat);
            }
        }
        par_encode_chunks(layout, &table.cols, &jobs)
    };
    // join the partition buffers in partition index order
    let nres = results.len();
    let mut results = results;
    let mut out: Vec<u8> = Vec::new();
    let mut done: usize = 0;
    let mut i: usize = 0;
    while i < nres
        invariant
            i <= nres,
            nres >= 1,
            nres == gjobs.len(),
            jobs@ == gjobs,
            spec_layout_wf(*layout),
            spec_packed(*layout),
            bpr == layout.bytes_per_row,
            nrows * bpr + heap@.len() + 2880 <= usize::MAX,
            results@.len() == nres - i,
            forall|j: int|
                0 <= j < nres - i ==> spec_encode_chunk_post(
                    *layout,
                    table.cols@,
                    gjobs[j + i].0 as int,
                    gjobs[j + i].1 as int,
                    #[trigger] results@[j],
                ),
            gjobs[0].0 == 0,
            forall|j: int|
                0 <= j < nres - 1 ==> ((#[trigger] gjobs[j]).0 + gjobs[j].1) == gjobs[j + 1].0,
            gjobs[nres - 1].0 + gjobs[nres - 1].1 == nrows,
            forall|j: int| 0 <= j < nres ==> (#[trigger] gjobs[j]).0 + gjobs[j].1 <= nrows,
            i < nres ==> done == gjobs[i as int].0,
            i == nres ==> done == nrows,
            out@ =~= spec_encode_rows(*layout, table.cols@, 0, done as int),
            out@.len() == done * bpr,
            spec_range_encodable(*layout, table.cols@, 0, done as int),
        decreases nres - i,
    {
        let res_i = results.remove(0);
        let mut b_i = match res_i {
            Ok(b) => b,
            Err(e) => {
                return Err(e);
            },
        };
        let ghost d0 = done as int;
        let ghost rws = gjobs[i as int].1 as int;
        proof {
            lemma_encode_rows_concat(*layout, table.cols@, 0, d0, d0 + rws);
            assert((d0 + rws) * bpr == d0 * bpr + rws * bpr) by (nonlinear_arith);
            if i < nres - 1 {
                assert(gjobs[i as int].0 + gjobs[i as int].1 == gjobs[i + 1].0);
            }
        }
        out.append(&mut b_i);
        done = done + jobs[i].1;
        i += 1;
    }
    // heap bytes, then block padding
    let mut heap_v = vstd::slice::slice_to_vec(heap);
    out.append(&mut heap_v);
    crate::blocks::pad_buffer_to_fits_block(&mut out, body_fill(layout.kind));
    Ok(out)
}

/// Joining two encoded row ranges in order encodes the whole range.
pub proof fn lemma_encode_rows_concat(
    l: RowLayout,
    cols: Seq<TypedColumn>,
    r0: int,
    r1: int,
    r2: int,
)
    requires
        r0 <= r1 <= r2,
    ensures
        spec_encode_rows(l, cols, r0, r1) + spec_encode_rows(l, cols, r1, r2) == spec_encode_rows(
            l,
            cols,
            r0,
            r2,
        ),
{
    let f = |r: int| spec_encode_row(l, cols, r0 + r);
    crate::cell::lemma_cat_split((r1 - r0) as nat, (r2 - r1) as nat, f);
    let g = |i: int| f((r1 - r0) + i);
    let h = |r: int| spec_encode_row(l, cols, r1 + r);
    crate::cell::lemma_cat_congruence((r2 - r1) as nat, g, h);
}

/// Executable twin of [`spec_body_fill`].
fn body_fill(kind: TableKind) -> (r: u8)
    ensures
        r == spec_body_fill(kind),
{
    match kind {
        TableKind::Ascii => 0x20,
        TableKind::Binary => 0x00,
    }
}

/// The variant tag of a column store.
pub fn data_class(d: &crate::cell::ColumnData) -> (r: StorageClass)
    ensures
        r == d.class(),
{
    match d {
        crate::cell::ColumnData::Logical(_) => StorageClass::Logical,
        crate::cell::ColumnData::Bit(_) => StorageClass::Bit,
        crate::cell::ColumnData::Byte(_) => StorageClass::Byte,
        crate::cell::ColumnData::Short(_) => StorageClass::Short,
        crate::cell::ColumnData::Int(_) => StorageClass::Int,
        crate::cell::ColumnData::Long(_) => StorageClass::Long,
        crate::cell::ColumnData::Float(_) => StorageClass::Float,
        crate::cell::ColumnData::Double(_) => StorageClass::Double,
        crate::cell::ColumnData::Complex(_) => StorageClass::Complex,
        crate::cell::ColumnData::DComplex(_) => StorageClass::DComplex,
        crate::cell::ColumnData::Text(_) => StorageClass::Text,
        crate::cell::ColumnData::LogicalArr(_) => StorageClass::LogicalArr,
        crate::cell::ColumnData::BitArr(_) => StorageClass::BitArr,
        crate::cell::ColumnData::ByteArr(_) => StorageClass::ByteArr,
        crate::cell::ColumnData::ShortArr(_) => StorageClass::ShortArr,
        crate::cell::ColumnData::IntArr(_) => StorageClass::IntArr,
        crate::cell::ColumnData::LongArr(_) => StorageClass::LongArr,
        crate::cell::ColumnData::FloatArr(_) => StorageClass::FloatArr,
        crate::cell::ColumnData::DoubleArr(_) => StorageClass::DoubleArr,
        crate::cell::ColumnData::Desc(_) => StorageClass::Desc,
    }
}

/// Number of rows a column store holds.
pub fn data_len(d: &crate::cell::ColumnData) -> (r: usize)
    ensures
        r == d.cells().len(),
{
    match d {
        crate::cell::ColumnData::Logical(v) => v.len(),
        crate::cell::ColumnData::Bit(v) => v.len(),
        crate::cell::ColumnData::Byte(v) => v.len(),
        crate::cell::ColumnData::Short(v) => v.len(),
        crate::cell::ColumnData::Int(v) => v.len(),
        crate::cell::ColumnData::Long(v) => v.len(),
        crate::cell::ColumnData::Float(v) => v.len(),
        crate::cell::ColumnData::Double(v) => v.len(),
        crate::cell::ColumnData::Complex(v) => v.len(),
        crate::cell::ColumnData::DComplex(v) => v.len(),
        crate::cell::ColumnData::Text(v) => v.len(),
        crate::cell::ColumnData::LogicalArr(v) => v.len(),
        crate::cell::ColumnData::BitArr(v) => v.len(),
        crate::cell::ColumnData::ByteArr(v) => v.len(),
        crate::cell::ColumnData::ShortArr(v) => v.len(),
        crate::cell::ColumnData::IntArr(v) => v.len(),
        crate::cell::ColumnData::LongArr(v) => v.len(),
        crate::cell::ColumnData::FloatArr(v) => v.len(),
        crate::cell::ColumnData::DoubleArr(v) => v.len(),
        crate::cell::ColumnData::Desc(v) => v.len(),
    }
}

/// Whether two storage tags are the same.
fn storage_class_eq(a: StorageClass, b: StorageClass) -> (r: bool)
    ensures
        r == (a == b),
{
    a == b
}

/// Encodes a whole table, choosing the partition count the way the
/// transcoder always does (the machine's parallelism, at most one
/// partition per ten rows, at least one).  The output bytes are pinned
/// by the postcondition independently of that choice.
pub fn encode_table(layout: &RowLayout, table: &FitsTable, nrows: usize, heap: &[u8]) -> (r: Result<
    Vec<u8>,
    FitsError,
>)
    requires
        spec_layout_wf(*layout),
        spec_packed(*layout),
        nrows * layout.bytes_per_row + heap@.len() + 2880 <= usize::MAX,
    ensures
        spec_encode_table_post(*layout, table.cols@, nrows as int, heap@, r),
{
    let cpus = available_parallelism();
    let by_rows = if nrows / 10 >= 1 {
        nrows / 10
    } else {
        1
    };
    let n = if cpus < by_rows {
        cpus
    } else {
        by_rows
    };
    encode_table_with_chunks(layout, table, nrows, heap, n)
}


/// The encode/decode round trip for whole tables.
///
/// For every table whose columns match a packed layout and whose cells
/// are valid — shapes as declared, arrays exactly their declared length,
/// text that trimming does not touch — decoding the encoded body gives
/// back every column bit for bit, whatever heap bytes accompany it.
/// Variable-length descriptor columns live outside this statement: their
/// payloads travel through the heap, which this law's layouts do not
/// carry.
#[verifier::rlimit(100)]
pub proof fn lemma_table_round_trip(
    l: RowLayout,
    cols: Seq<TypedColumn>,
    nrows: int,
    heap: Seq<u8>,
)
    requires
        spec_layout_wf(l),
        spec_packed(l),
        spec_cols_wf(l, cols, nrows),
        nrows >= 0,
        forall|c: int|
            0 <= c < l.cols@.len() ==> spec_storage_of(l.kind, (#[trigger] l.cols@[c]).fspec)
                != Some(StorageClass::Desc),
        forall|r: int, c: int|
            0 <= r < nrows && 0 <= c < l.cols@.len() ==> #[trigger] crate::cell::spec_cell_valid(
                l.kind,
                l.cols@[c].fspec,
                cols[c].data.cells()[r],
            ),
    ensures
        spec_table_ok(l, spec_encode_rows(l, cols, 0, nrows), heap, nrows),
        forall|c: int|
            0 <= c < l.cols@.len() ==> spec_table_col(
                l,
                spec_encode_rows(l, cols, 0, nrows),
                heap,
                nrows,
                c,
            ) == (#[trigger] cols[c]).data.cells(),
{
    let body = spec_encode_rows(l, cols, 0, nrows);
    let ncols = l.cols@.len() as int;
    let bpr = l.bytes_per_row as int;
    let rowfn = |r: int| spec_encode_row(l, cols, 0 + r);
    // each cell of each row is encodable, so each row is bytes_per_row long
    assert forall|r: int, c: int|
        0 <= r < nrows && 0 <= c < ncols implies #[trigger] crate::cell::spec_cell_encodable(
        l.kind,
        l.cols@[c].fspec,
        cols[c].data.cells()[r],
    ) by {
        crate::cell::lemma_valid_is_encodable(l.kind, l.cols@[c].fspec, cols[c].data.cells()[r]);
    }
    assert forall|r: int| 0 <= r < nrows implies (#[trigger] rowfn(r)).len() == bpr by {
        lemma_encode_row_prefix_len(l, cols, r, ncols);
    }
    crate::cell::lemma_cat_len(nrows as nat, rowfn, l.bytes_per_row as nat);
    assert(body.len() == nrows * bpr);
    // the bytes of cell (r, c) inside the body are exactly the cell's
    // encoding
    assert forall|r: int, c: int| 0 <= r < nrows && 0 <= c < ncols implies #[trigger]
    spec_cell_bytes(l, body, r, c) == crate::cell::spec_encode_cell(
        l.kind,
        l.cols@[c].fspec,
        cols[c].data.cells()[r],
    ) by {
        let fs = l.cols@[c].fspec;
        let cell = cols[c].data.cells()[r];
        let fieldfn = |c2: int| spec_field_bytes(l, c2, cols[c2].data.cells()[r]);
        let row = spec_encode_row(l, cols, r);
        // the whole row stands at its slot in the body
        crate::column::mul_in_range(r as nat, nrows as nat, l.bytes_per_row as nat);
        crate::cell::lemma_cat_slice(nrows as nat, rowfn, l.bytes_per_row as nat, r);
        assert(rowfn(r) == row);
        assert(body.subrange(r * bpr, r * bpr + bpr) == row);
        // the field stands at its offset in the row
        lemma_encode_row_prefix_len(l, cols, r, c);
        crate::cell::lemma_cat_slice_at(ncols as nat, fieldfn, c);
        let off = l.cols@[c].start_offset as int;
        let w = fs.cell_width as int;
        assert(crate::cell::spec_cat(c as nat, fieldfn).len() == off);
        crate::cell::lemma_encode_cell_len(l.kind, fs, cell);
        let field = fieldfn(c);
        assert(rowfn(r).len() == bpr);
        assert(field.len() >= w);
        assert(off + field.len() <= bpr) by {
            lemma_encode_row_prefix_len(l, cols, r, c + 1);
            assert(crate::cell::spec_cat((c + 1) as nat, fieldfn) == crate::cell::spec_cat(
                c as nat,
                fieldfn,
            ) + fieldfn(c));
            lemma_packed_offset_mono(l, c + 1, ncols);
        }
        assert(row.subrange(off, off + field.len() as int) == field);
        // the cell's bytes open the field
        assert(field.subrange(0, w) =~= crate::cell::spec_encode_cell(l.kind, fs, cell));
        // chain the three subranges together
        assert(off + w <= bpr);
        assert forall|i: int| 0 <= i < w implies body[r * bpr + off + i] == field[i] by {
            assert(field[i] == row.subrange(off, off + field.len() as int)[i]);
            assert(row[off + i] == field[i]);
            assert(row == body.subrange(r * bpr, r * bpr + bpr));
            assert(body[r * bpr + off + i] == row[off + i]);
        }
        assert(spec_cell_bytes(l, body, r, c) =~= field.subrange(0, w));
    }
    // decoding returns each cell, and every cell parses
    assert forall|r: int, c: int|
        0 <= r < nrows && 0 <= c < ncols implies spec_cell_parse_ok(
        l.kind,
        l.cols@[c].fspec,
        #[trigger] spec_cell_bytes(l, body, r, c),
    ) by {
        crate::cell::lemma_cell_round_trip(l.kind, l.cols@[c].fspec, cols[c].data.cells()[r]);
    }
    assert forall|c: int| 0 <= c < ncols implies spec_table_col(l, body, heap, nrows, c) == (
    #[trigger] cols[c]).data.cells() by {
        assert forall|r: int| 0 <= r < nrows implies spec_decode_cell(
            l.kind,
            l.cols@[c].fspec,
            #[trigger] spec_cell_bytes(l, body, r, c),
        ) == cols[c].data.cells()[r] by {
            crate::cell::lemma_cell_round_trip(l.kind, l.cols@[c].fspec, cols[c].data.cells()[r]);
        }
        assert(spec_table_col(l, body, heap, nrows, c) =~= cols[c].data.cells());
    }
    assert(nrows * l.bytes_per_row <= body.len());
    assert(spec_all_storages_ok(l)) by {
        assert forall|c: int| 0 <= c < ncols implies spec_storage_of(
            l.kind,
            (#[trigger] l.cols@[c]).fspec,
        ) is Some by {
            assert(spec_storage_of(l.kind, l.cols@[c].fspec) == Some(cols[c].data.class()));
        }
    }
    assert(spec_range_parse_ok(l, body, 0, nrows));
    assert(spec_heap_ok(l, body, heap, nrows));
}


/// Packed offsets never decrease column to column.
proof fn lemma_packed_offset_mono(l: RowLayout, i: int, j: int)
    requires
        i <= j,
    ensures
        spec_packed_offset(l, i) <= spec_packed_offset(l, j),
    decreases j - i,
{
    if i < j {
        lemma_packed_offset_mono(l, i, j - 1);
    }
}


/// A freshly planned binary layout is packed: its offsets are the
/// running sums the row encoder assumes.
pub proof fn lemma_binary_plan_packed(l: RowLayout, descs: Seq<crate::layout::ColumnDescriptor>)
    requires
        l.kind == TableKind::Binary,
        l.cols@.len() == descs.len(),
        descs.len() >= 1,
        forall|j: int|
            0 <= j < descs.len() ==> Some((#[trigger] l.cols@[j]).fspec)
                == crate::layout::spec_col_format(TableKind::Binary, descs[j]),
        forall|j: int|
            0 <= j < descs.len() ==> (#[trigger] l.cols@[j]).start_offset
                == crate::layout::spec_binary_offset(descs, j),
        l.bytes_per_row == crate::layout::spec_binary_offset(descs, descs.len() as int),
    ensures
        spec_packed(l),
{
    assert forall|j: int| 0 <= j <= descs.len() implies crate::layout::spec_binary_offset(
        descs,
        j,
    ) == spec_packed_offset(l, j) by {
        lemma_binary_offsets_agree(l, descs, j);
    }
}

proof fn lemma_binary_offsets_agree(
    l: RowLayout,
    descs: Seq<crate::layout::ColumnDescriptor>,
    j: int,
)
    requires
        l.kind == TableKind::Binary,
        l.cols@.len() == descs.len(),
        0 <= j <= descs.len(),
        forall|j2: int|
            0 <= j2 < descs.len() ==> Some((#[trigger] l.cols@[j2]).fspec)
                == crate::layout::spec_col_format(TableKind::Binary, descs[j2]),
    ensures
        crate::layout::spec_binary_offset(descs, j) == spec_packed_offset(l, j),
    decreases j,
{
    if j > 0 {
        lemma_binary_offsets_agree(l, descs, j - 1);
    }
}


/// Row-order determinism: any two table decodes of the same buffer —
/// whatever their worker or partition counts were — return the same
/// column names and the same cells in the same row order, and fail
/// together.  This is immediate from [`spec_table_post`], which pins the
/// outcome by the buffer alone; it is stated here because it is the
/// single most important property of the concurrency design.
pub proof fn lemma_decode_deterministic(
    l: RowLayout,
    bytes: Seq<u8>,
    heap: Seq<u8>,
    nrows: int,
    r1: Result<FitsTable, FitsError>,
    r2: Result<FitsTable, FitsError>,
)
    requires
        spec_table_post(l, bytes, heap, nrows, r1),
        spec_table_post(l, bytes, heap, nrows, r2),
    ensures
        r1 is Ok <==> r2 is Ok,
        (r1 is Ok && r2 is Ok) ==> {
            let t1 = r1->Ok_0;
            let t2 = r2->Ok_0;
            &&& t1.cols@.len() == t2.cols@.len()
            &&& forall|c: int|
                0 <= c < t1.cols@.len() ==> (#[trigger] t1.cols@[c]).name == t2.cols@[c].name
                    && t1.cols@[c].data.cells() == t2.cols@[c].data.cells()
        },
{
}

} // verus!
