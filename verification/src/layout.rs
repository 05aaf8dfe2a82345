//! The column layout planner.
//!
//! Given the ordered column descriptions of a table, the planner parses
//! each format token and assigns every column its byte width and start
//! offset inside a row.  Binary table columns pack tightly; ASCII table
//! columns stand at the 1-based character position their TBCOL entry
//! names, and each row carries [`ASCII_FIELD_PAD`] bytes of slack after
//! its last field.

use vstd::prelude::*;
use vstd::string::StringSliceAdditionalSpecFns;
use vstd::utf8::encode_utf8;
use crate::FitsError;
use crate::format::FormatSpec;
use crate::format::TableKind;
use crate::format::spec_parse_format;
use crate::format::spec_wf_format;
use crate::format::parse_format;

verus! {

/// Pad bytes after the last ASCII table field of a row.  FITS practice
/// varies between one pad byte and none; this codec fixes the convention
/// in one place instead of hiding it in the arithmetic.
pub const ASCII_FIELD_PAD: usize = 1;

/// One column of a table, as the header or the caller describes it.
///
/// `ascii_start_column` is the 1-based TBCOL character position and is
/// only meaningful for ASCII tables.
#[derive(Debug)]
pub struct ColumnDescriptor {
    pub name: String,
    pub format_token: String,
    pub unit: Option<String>,
    pub display: Option<String>,
    pub ascii_start_column: Option<u32>,
}

/// A planned column: its description, parsed format and row offset.
#[derive(Debug)]
pub struct LayoutColumn {
    pub desc: ColumnDescriptor,
    pub fspec: FormatSpec,
    pub start_offset: usize,
}

/// The planned layout of one table row.
#[derive(Debug)]
pub struct RowLayout {
    pub kind: TableKind,
    pub cols: Vec<LayoutColumn>,
    pub bytes_per_row: usize,
}

impl Clone for ColumnDescriptor {
    /// A clone carries exactly the same description.
    fn clone(&self) -> (r: Self)
        ensures
            r == *self,
    {
        ColumnDescriptor {
            name: self.name.clone(),
            format_token: self.format_token.clone(),
            unit: match &self.unit {
                Some(u) => Some(u.clone()),
                None => None,
            },
            display: match &self.display {
                Some(d) => Some(d.clone()),
                None => None,
            },
            ascii_start_column: self.ascii_start_column,
        }
    }
}

/// The format a column's token parses to under `kind`.
pub open spec fn spec_col_format(kind: TableKind, c: ColumnDescriptor) -> Option<FormatSpec> {
    spec_parse_format(kind, encode_utf8(c.format_token@))
}

/// Every layout this module hands out satisfies this: formats are
/// well-formed, every cell lies inside the row, binary cells are ordered
/// and disjoint, and a row is at least one byte wide.
pub open spec fn spec_layout_wf(l: RowLayout) -> bool {
    &&& forall|i: int|
        0 <= i < l.cols@.len() ==> spec_wf_format(l.kind, #[trigger] l.cols@[i].fspec)
    &&& forall|i: int|
        0 <= i < l.cols@.len() ==> (#[trigger] l.cols@[i].start_offset)
            + l.cols@[i].fspec.cell_width <= l.bytes_per_row
    &&& (l.kind == TableKind::Binary ==> forall|i: int|
        0 <= i < l.cols@.len() - 1 ==> (#[trigger] l.cols@[i].start_offset)
            + l.cols@[i].fspec.cell_width <= l.cols@[i + 1].start_offset)
    &&& l.bytes_per_row >= 1
}

/// Sum of the planned cell widths of `cols`.
pub open spec fn spec_sum_cell_widths(cols: Seq<LayoutColumn>) -> nat
    decreases cols.len(),
{
    if cols.len() == 0 {
        0
    } else {
        (spec_sum_cell_widths(cols.drop_last()) + cols.last().fspec.cell_width) as nat
    }
}

/// Under a well-formed binary layout, two distinct columns' byte ranges
/// never overlap: the earlier column ends at or before the later begins.
pub proof fn lemma_binary_columns_disjoint(l: RowLayout, i: int, j: int)
    requires
        spec_layout_wf(l),
        l.kind == TableKind::Binary,
        0 <= i < j < l.cols@.len(),
    ensures
        l.cols@[i].start_offset + l.cols@[i].fspec.cell_width <= l.cols@[j].start_offset,
    decreases j - i,
{
    if j == i + 1 {
    } else {
        lemma_binary_columns_disjoint(l, i, j - 1);
    }
}

/// Under a well-formed binary layout the cell widths of the first `k`
/// columns fit below the start of column `k`, and the total cell width
/// fits in a row.
pub proof fn lemma_sum_cell_widths_le_bytes_per_row(l: RowLayout)
    requires
        spec_layout_wf(l),
        l.kind == TableKind::Binary,
    ensures
        spec_sum_cell_widths(l.cols@) <= l.bytes_per_row,
{
    lemma_sum_prefix(l, l.cols@.len() as int);
    assert(l.cols@.take(l.cols@.len() as int) =~= l.cols@);
}

proof fn lemma_sum_prefix(l: RowLayout, k: int)
    requires
        spec_layout_wf(l),
        l.kind == TableKind::Binary,
        0 <= k <= l.cols@.len(),
    ensures
        k < l.cols@.len() ==> spec_sum_cell_widths(l.cols@.take(k)) <= l.cols@[k].start_offset,
        k == l.cols@.len() ==> spec_sum_cell_widths(l.cols@.take(k)) <= l.bytes_per_row,
    decreases k,
{
    if k == 0 {
    } else {
        lemma_sum_prefix(l, k - 1);
        assert(l.cols@.take(k).drop_last() =~= l.cols@.take(k - 1));
        assert(l.cols@.take(k).last() == l.cols@[k - 1]);
        if k < l.cols@.len() {
            assert(l.cols@[k - 1].start_offset + l.cols@[k - 1].fspec.cell_width <= l.cols@[
                k
            ].start_offset);
        } else {
            assert(l.cols@[k - 1].start_offset + l.cols@[k - 1].fspec.cell_width
                <= l.bytes_per_row);
        }
    }
}

/// Whether the binary planner succeeds on `cols`, starting at offset
/// `start`: every token parses and the running offset never leaves
/// `usize`.
pub open spec fn spec_plan_binary_ok(cols: Seq<ColumnDescriptor>, start: nat) -> bool
    decreases cols.len(),
{
    if cols.len() == 0 {
        true
    } else {
        match spec_col_format(TableKind::Binary, cols[0]) {
            None => false,
            Some(fs) => start + fs.cell_width <= usize::MAX && spec_plan_binary_ok(
                cols.drop_first(),
                (start + fs.cell_width) as nat,
            ),
        }
    }
}

/// Total width of the first `i` binary columns (their tokens must parse).
pub open spec fn spec_binary_offset(cols: Seq<ColumnDescriptor>, i: int) -> nat
    decreases i,
{
    if i <= 0 {
        0
    } else {
        (spec_binary_offset(cols, i - 1) + spec_col_format(TableKind::Binary, cols[i - 1])
            .unwrap().cell_width) as nat
    }
}

/// Whether the ASCII planner succeeds: every token parses, every TBCOL is
/// present and at least one, and every field end fits in `usize` along
/// with the row pad.
pub open spec fn spec_plan_ascii_ok(cols: Seq<ColumnDescriptor>) -> bool {
    forall|i: int|
        0 <= i < cols.len() ==> {
            &&& (#[trigger] spec_col_format(TableKind::Ascii, cols[i])) is Some
            &&& cols[i].ascii_start_column matches Some(t) && t >= 1
            &&& (cols[i].ascii_start_column.unwrap() - 1) + spec_col_format(
                TableKind::Ascii,
                cols[i],
            ).unwrap().cell_width + ASCII_FIELD_PAD <= usize::MAX
        }
}

/// The widest field extent of the first `i` ASCII columns.
pub open spec fn spec_ascii_extent(cols: Seq<ColumnDescriptor>, i: int) -> nat
    decreases i,
{
    if i <= 0 {
        0
    } else {
        let prev = spec_ascii_extent(cols, i - 1);
        let this = (cols[i - 1].ascii_start_column.unwrap() - 1) + spec_col_format(
            TableKind::Ascii,
            cols[i - 1],
        ).unwrap().cell_width;
        if this > prev {
            this as nat
        } else {
            prev
        }
    }
}

/// Plans the row layout of a table.
///
/// Binary columns pack tightly in declaration order, so column offsets are
/// the running sums of the cell widths and the row is their total.  ASCII
/// columns sit at `TBCOL - 1` and the row is the widest field end plus
/// [`ASCII_FIELD_PAD`].  Fails with `InvalidFormat` exactly when a format
/// token is rejected, an ASCII column lacks a usable TBCOL, an offset
/// leaves the machine's address range, or the planned row is empty.
pub fn plan(kind: TableKind, columns: &Vec<ColumnDescriptor>) -> (r: Result<RowLayout, FitsError>)
    ensures
        match r {
            Ok(l) => {
                &&& spec_layout_wf(l)
                &&& l.kind == kind
                &&& l.cols@.len() == columns@.len()
                &&& forall|i: int| 0 <= i < columns@.len() ==> #[trigger] l.cols@[i].desc == columns@[i]
                &&& forall|i: int|
                    0 <= i < columns@.len() ==> Some(#[trigger] l.cols@[i].fspec) == spec_col_format(
                        kind,
                        columns@[i],
                    )
                &&& (kind == TableKind::Binary ==> {
                    &&& spec_plan_binary_ok(columns@, 0)
                    &&& forall|i: int|
                        0 <= i < columns@.len() ==> (#[trigger] l.cols@[i].start_offset)
                            == spec_binary_offset(columns@, i)
                    &&& l.bytes_per_row == spec_binary_offset(columns@, columns@.len() as int)
                })
                &&& (kind == TableKind::Ascii ==> {
                    &&& spec_plan_ascii_ok(columns@)
                    &&& forall|i: int|
                        0 <= i < columns@.len() ==> (#[trigger] l.cols@[i].start_offset) == (
                        columns@[i].ascii_start_column.unwrap() - 1)
                    &&& l.bytes_per_row == spec_ascii_extent(columns@, columns@.len() as int)
                        + ASCII_FIELD_PAD
                })
                &&& l.bytes_per_row >= 1
            },
            Err(e) => {
                &&& e == FitsError::InvalidFormat
                &&& (kind == TableKind::Binary ==> !(spec_plan_binary_ok(columns@, 0)
                    && spec_binary_offset(columns@, columns@.len() as int) >= 1))
                &&& (kind == TableKind::Ascii ==> !spec_plan_ascii_ok(columns@))
            },
        },
{
    match kind {
        TableKind::Binary => plan_binary(columns),
        TableKind::Ascii => plan_ascii(columns),
    }
}

#[verifier::rlimit(100)]
fn plan_binary(columns: &Vec<ColumnDescriptor>) -> (r: Result<RowLayout, FitsError>)
    ensures
        match r {
            Ok(l) => {
                &&& spec_layout_wf(l)
                &&& l.kind == TableKind::Binary
                &&& l.cols@.len() == columns@.len()
                &&& forall|i: int| 0 <= i < columns@.len() ==> #[trigger] l.cols@[i].desc == columns@[i]
                &&& forall|i: int|
                    0 <= i < columns@.len() ==> Some(#[trigger] l.cols@[i].fspec) == spec_col_format(
                        TableKind::Binary,
                        columns@[i],
                    )
                &&& spec_plan_binary_ok(columns@, 0)
                &&& forall|i: int|
                    0 <= i < columns@.len() ==> (#[trigger] l.cols@[i].start_offset)
                        == spec_binary_offset(columns@, i)
                &&& l.bytes_per_row == spec_binary_offset(columns@, columns@.len() as int)
                &&& l.bytes_per_row >= 1
            },
            Err(e) => {
                &&& e == FitsError::InvalidFormat
                &&& !(spec_plan_binary_ok(columns@, 0) && spec_binary_offset(
                    columns@,
                    columns@.len() as int,
                ) >= 1)
            },
        },
{
    let n = columns.len();
    let mut cols: Vec<LayoutColumn> = Vec::new();
    let mut offset: usize = 0;
    let mut i: usize = 0;
    while i < n
        invariant
            i <= n,
            n == columns@.len(),
            cols@.len() == i,
            offset == spec_binary_offset(columns@, i as int),
            spec_plan_binary_prefix_ok(columns@, i as int),
            forall|j: int| 0 <= j < i ==> #[trigger] cols@[j].desc == columns@[j],
            forall|j: int|
                0 <= j < i ==> Some(#[trigger] cols@[j].fspec) == spec_col_format(
                    TableKind::Binary,
                    columns@[j],
                ),
            forall|j: int|
                0 <= j < i ==> (#[trigger] cols@[j].start_offset) == spec_binary_offset(
                    columns@,
                    j,
                ),
        decreases n - i,
    {
        let c = &columns[i];
        let fs = match parse_format(TableKind::Binary, c.format_token.as_str()) {
            Ok(fs) => fs,
            Err(_) => {
                proof {
                    lemma_plan_binary_prefix_bad(columns@, i as int);
                }
                return Err(FitsError::InvalidFormat);
            },
        };
        if offset > usize::MAX - fs.cell_width {
            proof {
                lemma_plan_binary_prefix_bad(columns@, i as int);
            }
            return Err(FitsError::InvalidFormat);
        }
        cols.push(LayoutColumn { desc: c.clone(), fspec: fs, start_offset: offset });
        offset = offset + fs.cell_width;
        i += 1;
        proof {
            lemma_plan_binary_prefix_step(columns@, i as int);
        }
    }
    if offset == 0 {
        proof {
            lemma_plan_binary_ok_of_prefix(columns@, n as int);
        }
        return Err(FitsError::InvalidFormat);
    }
    let l = RowLayout { kind: TableKind::Binary, cols, bytes_per_row: offset };
    proof {
        lemma_plan_binary_ok_of_prefix(columns@, n as int);
        assert forall|i: int| 0 <= i < l.cols@.len() implies (#[trigger] l.cols@[i].start_offset)
            + l.cols@[i].fspec.cell_width <= l.bytes_per_row by {
            assert(spec_binary_offset(columns@, i + 1) == spec_binary_offset(columns@, i)
                + l.cols@[i].fspec.cell_width);
            lemma_binary_offset_mono(columns@, i + 1, n as int);
        }
        assert forall|i: int| 0 <= i < l.cols@.len() - 1 implies (#[trigger] l.cols@[
            i
        ].start_offset) + l.cols@[i].fspec.cell_width <= l.cols@[i + 1].start_offset by {
            assert(spec_binary_offset(columns@, i + 1) == spec_binary_offset(columns@, i)
                + l.cols@[i].fspec.cell_width);
        }
    }
    Ok(l)
}

/// The running binary offset never decreases.
proof fn lemma_binary_offset_mono(cols: Seq<ColumnDescriptor>, i: int, j: int)
    requires
        0 <= i <= j,
    ensures
        spec_binary_offset(cols, i) <= spec_binary_offset(cols, j),
    decreases j - i,
{
    if i < j {
        lemma_binary_offset_mono(cols, i, j - 1);
    }
}

/// The first `i` columns plan cleanly starting at offset zero.
pub open spec fn spec_plan_binary_prefix_ok(cols: Seq<ColumnDescriptor>, i: int) -> bool {
    &&& 0 <= i <= cols.len()
    &&& forall|j: int|
        0 <= j < i ==> (#[trigger] spec_col_format(TableKind::Binary, cols[j])) is Some
    &&& forall|j: int|
        0 <= j < i ==> spec_binary_offset(cols, j) + spec_col_format(
            TableKind::Binary,
            #[trigger] cols[j],
        ).unwrap().cell_width <= usize::MAX
}

proof fn lemma_plan_binary_prefix_step(cols: Seq<ColumnDescriptor>, i: int)
    requires
        0 < i <= cols.len(),
        spec_plan_binary_prefix_ok(cols, i - 1),
        spec_col_format(TableKind::Binary, cols[i - 1]) is Some,
        spec_binary_offset(cols, i - 1) + spec_col_format(
            TableKind::Binary,
            cols[i - 1],
        ).unwrap().cell_width <= usize::MAX,
    ensures
        spec_plan_binary_prefix_ok(cols, i),
{
}

/// A clean prefix of the whole list means the planner predicate holds; a
/// failure inside the prefix means it cannot.
pub(crate) proof fn lemma_plan_binary_ok_of_prefix(cols: Seq<ColumnDescriptor>, n: int)
    requires
        n == cols.len(),
        spec_plan_binary_prefix_ok(cols, n),
    ensures
        spec_plan_binary_ok(cols, 0),
{
    lemma_plan_binary_ok_of_prefix_from(cols, 0);
    assert(cols.skip(0) =~= cols);
}

proof fn lemma_plan_binary_ok_of_prefix_from(cols: Seq<ColumnDescriptor>, k: int)
    requires
        0 <= k <= cols.len(),
        spec_plan_binary_prefix_ok(cols, cols.len() as int),
    ensures
        spec_plan_binary_ok(cols.skip(k), spec_binary_offset(cols, k)),
    decreases cols.len() - k,
{
    if k == cols.len() {
        assert(cols.skip(k).len() == 0);
    } else {
        lemma_plan_binary_ok_of_prefix_from(cols, k + 1);
        assert(cols.skip(k)[0] == cols[k]);
        assert(cols.skip(k).drop_first() =~= cols.skip(k + 1));
    }
}

/// A failure at column `i` (bad token or offset overflow) refutes the
/// planner predicate.
proof fn lemma_plan_binary_prefix_bad(cols: Seq<ColumnDescriptor>, i: int)
    requires
        0 <= i < cols.len(),
        spec_plan_binary_prefix_ok(cols, i),
        !(spec_col_format(TableKind::Binary, cols[i]) is Some && spec_binary_offset(cols, i)
            + spec_col_format(TableKind::Binary, cols[i]).unwrap().cell_width <= usize::MAX),
    ensures
        !spec_plan_binary_ok(cols, 0),
{
    lemma_plan_binary_bad_from(cols, 0, i);
    assert(cols.skip(0) =~= cols);
}

proof fn lemma_plan_binary_bad_from(cols: Seq<ColumnDescriptor>, k: int, i: int)
    requires
        0 <= k <= i < cols.len(),
        spec_plan_binary_prefix_ok(cols, i),
        !(spec_col_format(TableKind::Binary, cols[i]) is Some && spec_binary_offset(cols, i)
            + spec_col_format(TableKind::Binary, cols[i]).unwrap().cell_width <= usize::MAX),
    ensures
        !spec_plan_binary_ok(cols.skip(k), spec_binary_offset(cols, k)),
    decreases i - k,
{
    assert(cols.skip(k)[0] == cols[k]);
    assert(cols.skip(k).drop_first() =~= cols.skip(k + 1));
    if k == i {
    } else {
        lemma_plan_binary_bad_from(cols, k + 1, i);
    }
}

#[verifier::rlimit(60)]
fn plan_ascii(columns: &Vec<ColumnDescriptor>) -> (r: Result<RowLayout, FitsError>)
    ensures
        match r {
            Ok(l) => {
                &&& spec_layout_wf(l)
                &&& l.kind == TableKind::Ascii
                &&& l.cols@.len() == columns@.len()
                &&& forall|i: int| 0 <= i < columns@.len() ==> #[trigger] l.cols@[i].desc == columns@[i]
                &&& forall|i: int|
                    0 <= i < columns@.len() ==> Some(#[trigger] l.cols@[i].fspec) == spec_col_format(
                        TableKind::Ascii,
                        columns@[i],
                    )
                &&& spec_plan_ascii_ok(columns@)
                &&& forall|i: int|
                    0 <= i < columns@.len() ==> (#[trigger] l.cols@[i].start_offset) == (
                    columns@[i].ascii_start_column.unwrap() - 1)
                &&& l.bytes_per_row == spec_ascii_extent(columns@, columns@.len() as int)
                    + ASCII_FIELD_PAD
                &&& l.bytes_per_row >= 1
            },
            Err(e) => {
                &&& e == FitsError::InvalidFormat
                &&& !spec_plan_ascii_ok(columns@)
            },
        },
{
    let n = columns.len();
    let mut cols: Vec<LayoutColumn> = Vec::new();
    let mut extent: usize = 0;
    let mut i: usize = 0;
    while i < n
        invariant
            i <= n,
            n == columns@.len(),
            cols@.len() == i,
            extent == spec_ascii_extent(columns@, i as int),
            extent <= usize::MAX - ASCII_FIELD_PAD,
            forall|j: int|
                0 <= j < i ==> {
                    &&& (#[trigger] spec_col_format(TableKind::Ascii, columns@[j])) is Some
                    &&& columns@[j].ascii_start_column matches Some(t) && t >= 1
                    &&& (columns@[j].ascii_start_column.unwrap() - 1) + spec_col_format(
                        TableKind::Ascii,
                        columns@[j],
                    ).unwrap().cell_width + ASCII_FIELD_PAD <= usize::MAX
                },
            forall|j: int| 0 <= j < i ==> #[trigger] cols@[j].desc == columns@[j],
            forall|j: int|
                0 <= j < i ==> Some(#[trigger] cols@[j].fspec) == spec_col_format(
                    TableKind::Ascii,
                    columns@[j],
                ),
            forall|j: int|
                0 <= j < i ==> (#[trigger] cols@[j].start_offset) == (
                columns@[j].ascii_start_column.unwrap() - 1),
        decreases n - i,
    {
        let c = &columns[i];
        let fs = match parse_format(TableKind::Ascii, c.format_token.as_str()) {
            Ok(fs) => fs,
            Err(_) => {
                proof {
                    assert(spec_col_format(TableKind::Ascii, columns@[i as int]) is None);
                    assert(!spec_plan_ascii_ok(columns@));
                }
                return Err(FitsError::InvalidFormat);
            },
        };
        let tbcol: u32 = match c.ascii_start_column {
            Some(t) => t,
            None => {
                proof {
                    assert(columns@[i as int].ascii_start_column is None);
                    assert(!spec_plan_ascii_ok(columns@));
                }
                return Err(FitsError::InvalidFormat);
            },
        };
        if tbcol < 1 {
            proof {
                assert(!(columns@[i as int].ascii_start_column matches Some(t) && t >= 1));
                assert(!spec_plan_ascii_ok(columns@));
            }
            return Err(FitsError::InvalidFormat);
        }
        let off: usize = (tbcol - 1) as usize;
        if fs.cell_width > usize::MAX - ASCII_FIELD_PAD || off > usize::MAX - ASCII_FIELD_PAD
            - fs.cell_width {
            proof {
                assert(Some(fs) == spec_col_format(TableKind::Ascii, columns@[i as int]));
                assert((columns@[i as int].ascii_start_column.unwrap() - 1) + spec_col_format(
                    TableKind::Ascii,
                    columns@[i as int],
                ).unwrap().cell_width + ASCII_FIELD_PAD > usize::MAX);
                assert(!spec_plan_ascii_ok(columns@));
            }
            return Err(FitsError::InvalidFormat);
        }
        let end = off + fs.cell_width;
        cols.push(LayoutColumn { desc: c.clone(), fspec: fs, start_offset: off });
        if end > extent {
            extent = end;
        }
        i += 1;
    }
    let bpr = extent + ASCII_FIELD_PAD;
    proof {
        assert forall|i: int| 0 <= i < cols@.len() implies (#[trigger] cols@[i].start_offset)
            + cols@[i].fspec.cell_width <= bpr by {
            lemma_ascii_extent_covers(columns@, i, n as int);
        }
    }
    Ok(RowLayout { kind: TableKind::Ascii, cols, bytes_per_row: bpr })
}

/// Every planned ASCII field ends at or before the running extent.
proof fn lemma_ascii_extent_covers(cols: Seq<ColumnDescriptor>, i: int, n: int)
    requires
        0 <= i < n <= cols.len(),
    ensures
        (cols[i].ascii_start_column.unwrap() - 1) + spec_col_format(
            TableKind::Ascii,
            cols[i],
        ).unwrap().cell_width <= spec_ascii_extent(cols, n),
    decreases n,
{
    if i == n - 1 {
    } else {
        lemma_ascii_extent_covers(cols, i, n - 1);
    }
}

} // verus!
