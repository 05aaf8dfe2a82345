//! Deriving a layout from data.
//!
//! The write path may start from a table alone: the column descriptions
//! and the row layout are regenerated from the data, so a header can be
//! rebuilt without one.  Replanning the derived descriptions reproduces
//! the derived layout, which is what lets a writer recompute offsets from
//! data alone.

use vstd::prelude::*;
use vstd::string::StringSliceAdditionalSpecFns;
use vstd::utf8::encode_utf8;
use vstd::utf8::is_ascii_chars;
use vstd::utf8::is_ascii_chars_encode_utf8;
use crate::FitsError;
use crate::format::FormatSpec;
use crate::format::TableKind;
use crate::format::TypeCode;
use crate::format::spec_scalar_code;
use crate::format::spec_ascii_code;
use crate::format::spec_element_width;
use crate::format::spec_parse_binary_format;
use crate::format::spec_parse_ascii_format;
use crate::format::spec_digits_prefix_len;
use crate::format::spec_is_digit;
use crate::format::spec_dec_value;
use crate::format::lemma_digits_prefix_characterize;
use crate::ascii::spec_udec;
use crate::ascii::format_u64;
use crate::ascii::lemma_udec_shape;
use crate::ascii::lemma_dec_value_of_udec;
use crate::cell::ColumnData;
use crate::layout::ColumnDescriptor;
use crate::layout::RowLayout;
use crate::layout::spec_layout_wf;
use crate::layout::spec_col_format;
use crate::layout::plan;
use crate::transcode::FitsTable;

verus! {

/// The repeat count a column's data calls for: the first row's element
/// count for array columns, the longest text rounded up to an even
/// length for character columns, one for scalars.
pub open spec fn spec_measured_repeat(d: ColumnData) -> nat {
    match d {
        ColumnData::Text(v) => {
            let m = spec_max_text_len(v@.map_values(|x: Vec<u8>| x@));
            if m % 2 == 0 {
                m
            } else {
                (m + 1) as nat
            }
        },
        ColumnData::LogicalArr(v) => spec_first_len(v@.map_values(|x: Vec<bool>| x@.len())),
        ColumnData::BitArr(v) => spec_first_len(v@.map_values(|x: Vec<u8>| x@.len())),
        ColumnData::ByteArr(v) => spec_first_len(v@.map_values(|x: Vec<i8>| x@.len())),
        ColumnData::ShortArr(v) => spec_first_len(v@.map_values(|x: Vec<i16>| x@.len())),
        ColumnData::IntArr(v) => spec_first_len(v@.map_values(|x: Vec<i32>| x@.len())),
        ColumnData::LongArr(v) => spec_first_len(v@.map_values(|x: Vec<i64>| x@.len())),
        ColumnData::FloatArr(v) => spec_first_len(v@.map_values(|x: Vec<u32>| x@.len())),
        ColumnData::DoubleArr(v) => spec_first_len(v@.map_values(|x: Vec<u64>| x@.len())),
        _ => 1,
    }
}

/// The first entry of a sequence of lengths, or zero when there is none.
pub open spec fn spec_first_len(lens: Seq<nat>) -> nat {
    if lens.len() == 0 {
        0
    } else {
        lens[0]
    }
}

/// The longest of a sequence of texts.
pub open spec fn spec_max_text_len(texts: Seq<Seq<u8>>) -> nat
    decreases texts.len(),
{
    if texts.len() == 0 {
        0
    } else {
        let rest = spec_max_text_len(texts.drop_last());
        if texts.last().len() > rest {
            texts.last().len()
        } else {
            rest
        }
    }
}

/// The binary type letter a column's storage writes under.
pub open spec fn spec_derived_letter(d: ColumnData) -> Option<u8> {
    match d {
        ColumnData::Logical(_) | ColumnData::LogicalArr(_) => Some(0x4c),
        ColumnData::Bit(_) | ColumnData::BitArr(_) => Some(0x58),
        ColumnData::Byte(_) | ColumnData::ByteArr(_) => Some(0x42),
        ColumnData::Short(_) | ColumnData::ShortArr(_) => Some(0x49),
        ColumnData::Int(_) | ColumnData::IntArr(_) => Some(0x4a),
        ColumnData::Long(_) | ColumnData::LongArr(_) => Some(0x4b),
        ColumnData::Float(_) | ColumnData::FloatArr(_) => Some(0x45),
        ColumnData::Double(_) | ColumnData::DoubleArr(_) => Some(0x44),
        ColumnData::Complex(_) => Some(0x43),
        ColumnData::DComplex(_) => Some(0x4d),
        ColumnData::Text(_) => Some(0x41),
        ColumnData::Desc(_) => None,
    }
}

/// The format a derived binary column carries: the measured repeat count
/// and the storage's type letter.  `None` for descriptor columns, whose
/// element type the data alone cannot name.
pub open spec fn spec_derived_binary_format(d: ColumnData) -> Option<FormatSpec> {
    match spec_derived_letter(d) {
        None => None,
        Some(letter) => {
            let code = spec_scalar_code(letter).unwrap();
            let rep = spec_measured_repeat(d);
            let ew = spec_element_width(code);
            if rep <= usize::MAX && rep * ew <= usize::MAX {
                Some(
                    FormatSpec {
                        repeat_count: rep as usize,
                        type_code: code,
                        element_width: ew as usize,
                        cell_width: (rep * ew) as usize,
                        heap_elem: None,
                    },
                )
            } else {
                None
            }
        },
    }
}

/// A repeat-then-letter token (`10E`) parses back to exactly the format
/// it was written for.
pub proof fn lemma_binary_token_parses(rep: nat, letter: u8, code: TypeCode)
    requires
        spec_scalar_code(letter) == Some(code),
        rep <= usize::MAX,
        rep * spec_element_width(code) <= usize::MAX,
    ensures
        spec_parse_binary_format(spec_udec(rep) + seq![letter]) == Some(
            FormatSpec {
                repeat_count: rep as usize,
                type_code: code,
                element_width: spec_element_width(code) as usize,
                cell_width: (rep * spec_element_width(code)) as usize,
                heap_elem: None,
            },
        ),
{
    let t = spec_udec(rep) + seq![letter];
    let d = spec_udec(rep);
    lemma_udec_shape(rep);
    assert(!spec_is_digit(letter));
    assert forall|j: int| 0 <= j < d.len() implies spec_is_digit(t[j]) by {
        assert(t[j] == d[j]);
    }
    assert(t[d.len() as int] == letter);
    lemma_digits_prefix_characterize(t, d.len() as int);
    assert(t.take(d.len() as int) =~= d);
    lemma_dec_value_of_udec(rep);
    assert(t.skip(d.len() as int + 1).len() == 0);
    assert(letter != 0x50 && letter != 0x51);
}

/// A letter-then-width token (`I12`) parses back to exactly the ASCII
/// format it was written for.
pub proof fn lemma_ascii_token_parses(width: nat, letter: u8, code: TypeCode)
    requires
        spec_ascii_code(letter) == Some(code),
        1 <= width <= usize::MAX,
    ensures
        spec_parse_ascii_format(seq![letter] + spec_udec(width)) == Some(
            FormatSpec {
                repeat_count: width as usize,
                type_code: code,
                element_width: 1,
                cell_width: width as usize,
                heap_elem: None,
            },
        ),
{
    let t = seq![letter] + spec_udec(width);
    let d = spec_udec(width);
    lemma_udec_shape(width);
    assert(t[0] == letter);
    let rest = t.skip(1);
    assert(rest =~= d);
    assert forall|j: int| 0 <= j < d.len() implies spec_is_digit(rest[j]) by {
        assert(rest[j] == d[j]);
    }
    lemma_digits_prefix_characterize(rest, d.len() as int);
    assert(rest.take(d.len() as int) =~= d);
    lemma_dec_value_of_udec(width);
    assert(spec_dec_value(rest.take(spec_digits_prefix_len(rest) as int)) == width);
    assert(rest.skip(d.len() as int).len() == 0);
}

/// Relies on String::from_utf8: ASCII bytes are valid UTF-8 and decode
/// to one character per byte.
#[verifier::external_body]
fn ascii_to_string(v: &Vec<u8>) -> (r: String)
    requires
        forall|i: int| 0 <= i < v@.len() ==> v@[i] < 0x80,
    ensures
        r@.len() == v@.len(),
        forall|i: int| 0 <= i < v@.len() ==> r@[i] == v@[i] as char,
{
    String::from_utf8(v.clone()).unwrap_or_default()
}

/// The token bytes of a derived binary format: the repeat count's
/// digits, then the type letter.
fn binary_token(rep: usize, letter: u8) -> (r: String)
    requires
        0x41 <= letter <= 0x5a,
    ensures
        encode_utf8(r@) == spec_udec(rep as nat) + seq![letter],
{
    let mut v = format_u64(rep as u64);
    proof {
        lemma_udec_shape(rep as nat);
    }
    v.push(letter);
    proof {
        assert(v@ =~= spec_udec(rep as nat) + seq![letter]);
        assert(forall|i: int| 0 <= i < v@.len() ==> v@[i] < 0x80);
    }
    let s = ascii_to_string(&v);
    proof {
        assert(is_ascii_chars(s@));
        is_ascii_chars_encode_utf8(s@);
        assert(encode_utf8(s@) =~= v@);
    }
    s
}

/// The token bytes of a derived ASCII format: the type letter, then the
/// field width's digits.
fn ascii_token(letter: u8, width: usize) -> (r: String)
    requires
        0x41 <= letter <= 0x5a,
    ensures
        encode_utf8(r@) == seq![letter] + spec_udec(width as nat),
{
    let digits = format_u64(width as u64);
    proof {
        lemma_udec_shape(width as nat);
    }
    let mut v: Vec<u8> = Vec::new();
    v.push(letter);
    let mut i: usize = 0;
    let n = digits.len();
    while i < n
        invariant
            i <= n,
            n == digits@.len(),
            v@ =~= seq![letter] + digits@.take(i as int),
        decreases n - i,
    {
        v.push(digits[i]);
        proof {
            assert(v@ =~= seq![letter] + digits@.take(i + 1));
        }
        i += 1;
    }
    proof {
        assert(digits@.take(n as int) =~= digits@);
        assert(forall|i2: int| 0 <= i2 < v@.len() ==> v@[i2] < 0x80);
    }
    let s = ascii_to_string(&v);
    proof {
        assert(is_ascii_chars(s@));
        is_ascii_chars_encode_utf8(s@);
        assert(encode_utf8(s@) =~= v@);
    }
    s
}


/// The format a derived ASCII column carries: integers as a 12-character
/// field (a sign and ten digits always fit), text at its longest length
/// rounded up to an even width, at least one.
pub open spec fn spec_derived_ascii_format(d: ColumnData) -> Option<FormatSpec> {
    match d {
        ColumnData::Int(_) => Some(
            FormatSpec {
                repeat_count: 12,
                type_code: TypeCode::Int32,
                element_width: 1,
                cell_width: 12,
                heap_elem: None,
            },
        ),
        ColumnData::Text(v) => {
            let m = spec_measured_repeat(d);
            let w = if m == 0 {
                1
            } else {
                m
            };
            if w <= usize::MAX {
                Some(
                    FormatSpec {
                        repeat_count: w as usize,
                        type_code: TypeCode::CharText,
                        element_width: 1,
                        cell_width: w as usize,
                        heap_elem: None,
                    },
                )
            } else {
                None
            }
        },
        _ => None,
    }
}

/// Measures the repeat count a column's data calls for; `None` when it
/// does not fit this machine.
fn measured_repeat(d: &ColumnData) -> (r: Option<usize>)
    ensures
        match r {
            Some(v) => v == spec_measured_repeat(*d),
            None => spec_measured_repeat(*d) > usize::MAX,
        },
{
    match d {
        ColumnData::Text(v) => {
            let n = v.len();
            let mut m: usize = 0;
            let mut i: usize = 0;
            while i < n
                invariant
                    i <= n,
                    n == v@.len(),
                    m == spec_max_text_len(v@.map_values(|x: Vec<u8>| x@).take(i as int)),
                decreases n - i,
            {
                let li = v[i].len();
                if li > m {
                    m = li;
                }
                proof {
                    let texts = v@.map_values(|x: Vec<u8>| x@);
                    assert(texts.take(i + 1).drop_last() =~= texts.take(i as int));
                    assert(texts.take(i + 1).last() == texts[i as int]);
                }
                i += 1;
            }
            proof {
                assert(v@.map_values(|x: Vec<u8>| x@).take(n as int) =~= v@.map_values(
                    |x: Vec<u8>| x@,
                ));
            }
            if m % 2 == 0 {
                Some(m)
            } else {
                if m == usize::MAX {
                    return None;
                }
                Some(m + 1)
            }
        },
        ColumnData::LogicalArr(v) => Some(first_row_len_bool(v)),
        ColumnData::BitArr(v) => Some(first_row_len_u8(v)),
        ColumnData::ByteArr(v) => Some(first_row_len_i8(v)),
        ColumnData::ShortArr(v) => Some(first_row_len_i16(v)),
        ColumnData::IntArr(v) => Some(first_row_len_i32(v)),
        ColumnData::LongArr(v) => Some(first_row_len_i64(v)),
        ColumnData::FloatArr(v) => Some(first_row_len_u32(v)),
        ColumnData::DoubleArr(v) => Some(first_row_len_u64(v)),
        _ => Some(1),
    }
}

fn first_row_len_bool(v: &Vec<Vec<bool>>) -> (r: usize)
    ensures
        r == spec_first_len(v@.map_values(|x: Vec<bool>| x@.len())),
{
    if v.len() == 0 {
        0
    } else {
        v[0].len()
    }
}

fn first_row_len_u8(v: &Vec<Vec<u8>>) -> (r: usize)
    ensures
        r == spec_first_len(v@.map_values(|x: Vec<u8>| x@.len())),
{
    if v.len() == 0 {
        0
    } else {
        v[0].len()
    }
}

fn first_row_len_i8(v: &Vec<Vec<i8>>) -> (r: usize)
    ensures
        r == spec_first_len(v@.map_values(|x: Vec<i8>| x@.len())),
{
    if v.len() == 0 {
        0
    } else {
        v[0].len()
    }
}

fn first_row_len_i16(v: &Vec<Vec<i16>>) -> (r: usize)
    ensures
        r == spec_first_len(v@.map_values(|x: Vec<i16>| x@.len())),
{
    if v.len() == 0 {
        0
    } else {
        v[0].len()
    }
}

fn first_row_len_i32(v: &Vec<Vec<i32>>) -> (r: usize)
    ensures
        r == spec_first_len(v@.map_values(|x: Vec<i32>| x@.len())),
{
    if v.len() == 0 {
        0
    } else {
        v[0].len()
    }
}

fn first_row_len_i64(v: &Vec<Vec<i64>>) -> (r: usize)
    ensures
        r == spec_first_len(v@.map_values(|x: Vec<i64>| x@.len())),
{
    if v.len() == 0 {
        0
    } else {
        v[0].len()
    }
}

fn first_row_len_u32(v: &Vec<Vec<u32>>) -> (r: usize)
    ensures
        r == spec_first_len(v@.map_values(|x: Vec<u32>| x@.len())),
{
    if v.len() == 0 {
        0
    } else {
        v[0].len()
    }
}

fn first_row_len_u64(v: &Vec<Vec<u64>>) -> (r: usize)
    ensures
        r == spec_first_len(v@.map_values(|x: Vec<u64>| x@.len())),
{
    if v.len() == 0 {
        0
    } else {
        v[0].len()
    }
}

/// Derives the column descriptions and the row layout of a table from
/// its data alone, so a writer can rebuild header cards without one.
///
/// Success is owed exactly when the table derives ([`spec_can_derive`]):
/// every column's data has a format on this kind — descriptor columns do
/// not, their element type is no longer in the data — and the planned
/// row stays inside the machine.  The derived descriptions carry the
/// canonical token text, binary offsets are the packed running sums,
/// ASCII columns stand at consecutive 1-based TBCOLs, and replanning the
/// returned descriptions reproduces this very layout, [`plan`] being
/// pinned by its own contract.
pub fn derive_layout_from_table(kind: TableKind, table: &FitsTable) -> (r: Result<
    (Vec<ColumnDescriptor>, RowLayout),
    FitsError,
>)
    ensures
        match r {
            Ok((descs, l)) => {
                &&& spec_can_derive(kind, table.cols@)
                &&& descs@.len() == table.cols@.len()
                &&& forall|c: int|
                    0 <= c < descs@.len() ==> (#[trigger] descs@[c]).name == table.cols@[c].name
                &&& spec_layout_wf(l)
                &&& l.kind == kind
                &&& l.cols@.len() == descs@.len()
                &&& forall|c: int| 0 <= c < descs@.len() ==> (#[trigger] l.cols@[c]).desc == descs@[c]
                &&& forall|c: int|
                    0 <= c < descs@.len() ==> Some((#[trigger] l.cols@[c]).fspec)
                        == spec_col_format(kind, descs@[c])
                &&& table.cols@.len() >= 1 ==> crate::transcode::spec_packed(l)
                &&& (kind == TableKind::Binary ==> {
                    &&& forall|c: int|
                        0 <= c < descs@.len() ==> Some((#[trigger] l.cols@[c]).fspec)
                            == spec_derived_binary_format(table.cols@[c].data)
                    &&& forall|c: int|
                        0 <= c < descs@.len() ==> encode_utf8((#[trigger] descs@[c]).format_token@)
                            == spec_derived_binary_token(table.cols@[c].data)
                    &&& forall|c: int|
                        0 <= c < descs@.len() ==> (#[trigger] l.cols@[c]).start_offset
                            == spec_derived_width_sum(table.cols@, c)
                    &&& l.bytes_per_row == spec_derived_width_sum(
                        table.cols@,
                        table.cols@.len() as int,
                    )
                })
                &&& (kind == TableKind::Ascii ==> {
                    &&& forall|c: int|
                        0 <= c < descs@.len() ==> Some((#[trigger] l.cols@[c]).fspec)
                            == spec_derived_ascii_format(table.cols@[c].data)
                    &&& forall|c: int|
                        0 <= c < descs@.len() ==> encode_utf8((#[trigger] descs@[c]).format_token@)
                            == spec_derived_ascii_token(table.cols@[c].data)
                    &&& forall|c: int|
                        0 <= c < descs@.len() ==> (#[trigger] descs@[c]).ascii_start_column
                            == Some(spec_derived_tbcol(table.cols@, c) as u32)
                    &&& forall|c: int|
                        0 <= c < descs@.len() ==> (#[trigger] l.cols@[c]).start_offset
                            == spec_derived_tbcol(table.cols@, c) - 1
                    &&& (table.cols@.len() >= 1 ==> l.bytes_per_row == spec_derived_tbcol(
                        table.cols@,
                        table.cols@.len() as int,
                    ) - 1)
                })
            },
            Err(e) => {
                &&& (e == FitsError::InvalidFormat || e == FitsError::UnsupportedType)
                &&& !spec_can_derive(kind, table.cols@)
            },
        },
{
    match kind {
        TableKind::Binary => derive_binary_layout(table),
        TableKind::Ascii => derive_ascii_layout(table),
    }
}

fn derive_binary_layout(table: &FitsTable) -> (r: Result<
    (Vec<ColumnDescriptor>, RowLayout),
    FitsError,
>)
    ensures
        match r {
            Ok((descs, l)) => {
                &&& spec_can_derive_binary(table.cols@)
                &&& descs@.len() == table.cols@.len()
                &&& forall|c: int|
                    0 <= c < descs@.len() ==> (#[trigger] descs@[c]).name == table.cols@[c].name
                &&& spec_layout_wf(l)
                &&& l.kind == TableKind::Binary
                &&& l.cols@.len() == descs@.len()
                &&& forall|c: int| 0 <= c < descs@.len() ==> (#[trigger] l.cols@[c]).desc == descs@[c]
                &&& forall|c: int|
                    0 <= c < descs@.len() ==> Some((#[trigger] l.cols@[c]).fspec)
                        == spec_col_format(TableKind::Binary, descs@[c])
                &&& forall|c: int|
                    0 <= c < descs@.len() ==> Some((#[trigger] l.cols@[c]).fspec)
                        == spec_derived_binary_format(table.cols@[c].data)
                &&& forall|c: int|
                    0 <= c < descs@.len() ==> encode_utf8((#[trigger] descs@[c]).format_token@)
                        == spec_derived_binary_token(table.cols@[c].data)
                &&& forall|c: int|
                    0 <= c < descs@.len() ==> (#[trigger] l.cols@[c]).start_offset
                        == spec_derived_width_sum(table.cols@, c)
                &&& l.bytes_per_row == spec_derived_width_sum(
                    table.cols@,
                    table.cols@.len() as int,
                )
                &&& crate::transcode::spec_packed(l)
                &&& table.cols@.len() >= 1
            },
            Err(e) => {
                &&& (e == FitsError::InvalidFormat || e == FitsError::UnsupportedType)
                &&& !spec_can_derive_binary(table.cols@)
            },
        },
{
    let ghost cols = table.cols@;
    let ncols = table.cols.len();
    let (descs, total) = match derive_binary_descs(table) {
        Ok(p) => p,
        Err(e) => {
            return Err(e);
        },
    };
    if total == 0 {
        proof {
            assert(!spec_can_derive_binary(cols));
        }
        return Err(FitsError::InvalidFormat);
    }
    proof {
        lemma_derive_binary_ok_of_prefix(cols, 0);
        assert(cols.skip(0) =~= cols);
        lemma_derive_plan_bridge_binary(descs@, cols, ncols as int);
        crate::layout::lemma_plan_binary_ok_of_prefix(descs@, ncols as int);
        lemma_derive_offsets_agree_binary(descs@, cols, ncols as int);
    }
    let layout = match plan(TableKind::Binary, &descs) {
        Ok(l) => l,
        Err(_) => {
            proof {
                assert(false);
            }
            return Err(FitsError::InvalidFormat);
        },
    };
    proof {
        assert forall|i: int| 0 <= i <= ncols implies #[trigger] crate::layout::spec_binary_offset(
            descs@,
            i,
        ) == spec_derived_width_sum(cols, i) by {
            lemma_derive_offsets_agree_binary(descs@, cols, i);
        }
        crate::transcode::lemma_binary_plan_packed(layout, descs@);
    }
    Ok((descs, layout))
}

/// Builds the derived binary descriptions and measures the total row
/// width, or finds the first column that cannot derive.
#[verifier::rlimit(100)]
fn derive_binary_descs(table: &FitsTable) -> (r: Result<(Vec<ColumnDescriptor>, usize), FitsError>)
    ensures
        match r {
            Ok((descs, total)) => {
                &&& descs@.len() == table.cols@.len()
                &&& total == spec_derived_width_sum(table.cols@, table.cols@.len() as int)
                &&& spec_derive_binary_prefix_ok(table.cols@, table.cols@.len() as int)
                &&& forall|j: int|
                    0 <= j < descs@.len() ==> (#[trigger] descs@[j]).name == table.cols@[j].name
                &&& forall|j: int|
                    0 <= j < descs@.len() ==> spec_col_format(TableKind::Binary, #[trigger] descs@[j])
                        == spec_derived_binary_format(table.cols@[j].data)
                &&& forall|j: int|
                    0 <= j < descs@.len() ==> encode_utf8((#[trigger] descs@[j]).format_token@)
                        == spec_derived_binary_token(table.cols@[j].data)
            },
            Err(e) => {
                &&& (e == FitsError::InvalidFormat || e == FitsError::UnsupportedType)
                &&& !spec_can_derive_binary(table.cols@)
            },
        },
{
    let ghost cols = table.cols@;
    let ncols = table.cols.len();
    let mut descs: Vec<ColumnDescriptor> = Vec::new();
    let mut total: usize = 0;
    let mut c: usize = 0;
    while c < ncols
        invariant
            c <= ncols,
            cols == table.cols@,
            ncols == cols.len(),
            descs@.len() == c,
            total == spec_derived_width_sum(cols, c as int),
            spec_derive_binary_prefix_ok(cols, c as int),
            forall|j: int|
                0 <= j < c ==> (#[trigger] descs@[j]).name == cols[j].name,
            forall|j: int|
                0 <= j < c ==> spec_col_format(TableKind::Binary, #[trigger] descs@[j])
                    == spec_derived_binary_format(cols[j].data),
            forall|j: int|
                0 <= j < c ==> encode_utf8((#[trigger] descs@[j]).format_token@)
                    == spec_derived_binary_token(cols[j].data),
        decreases ncols - c,
    {
        let col = &table.cols[c];
        let letter = match derived_letter(&col.data) {
            Some(b) => b,
            None => {
                proof {
                    lemma_derive_binary_bad_from(cols, 0, c as int);
                    assert(cols.skip(0) =~= cols);
                }
                return Err(FitsError::UnsupportedType);
            },
        };
        let rep = match measured_repeat(&col.data) {
            Some(v) => v,
            None => {
                proof {
                    lemma_derive_binary_bad_from(cols, 0, c as int);
                    assert(cols.skip(0) =~= cols);
                }
                return Err(FitsError::InvalidFormat);
            },
        };
        let code = crate::format::scalar_code(letter).unwrap();
        let ew = code.element_width();
        if rep > usize::MAX / ew {
            proof {
                crate::column::lemma_div_mul_le(rep as nat, usize::MAX as nat, ew as nat);
                lemma_derive_binary_bad_from(cols, 0, c as int);
                assert(cols.skip(0) =~= cols);
            }
            return Err(FitsError::InvalidFormat);
        }
        proof {
            crate::column::lemma_div_mul_le(rep as nat, usize::MAX as nat, ew as nat);
        }
        let cellw = rep * ew;
        if total > usize::MAX - cellw {
            proof {
                lemma_derive_binary_bad_from(cols, 0, c as int);
                assert(cols.skip(0) =~= cols);
            }
            return Err(FitsError::InvalidFormat);
        }
        let token = binary_token(rep, letter);
        proof {
            lemma_binary_token_parses(rep as nat, letter, code);
        }
        descs.push(
            ColumnDescriptor {
                name: col.name.clone(),
                format_token: token,
                unit: None,
                display: None,
                ascii_start_column: None,
            },
        );
        total = total + cellw;
        c += 1;
    }
    Ok((descs, total))
}

/// Descriptions whose tokens parse to the derived formats plan with the
/// derived running sums.
proof fn lemma_derive_offsets_agree_binary(
    descs: Seq<ColumnDescriptor>,
    cols: Seq<crate::column::TypedColumn>,
    i: int,
)
    requires
        descs.len() == cols.len(),
        0 <= i <= cols.len(),
        forall|j: int|
            0 <= j < cols.len() ==> spec_col_format(TableKind::Binary, #[trigger] descs[j])
                == spec_derived_binary_format(cols[j].data),
        forall|j: int|
            0 <= j < cols.len() ==> (#[trigger] spec_derived_binary_format(cols[j].data)) is Some,
    ensures
        crate::layout::spec_binary_offset(descs, i) == spec_derived_width_sum(cols, i),
    decreases i,
{
    if i > 0 {
        lemma_derive_offsets_agree_binary(descs, cols, i - 1);
    }
}

proof fn lemma_derive_plan_bridge_binary(
    descs: Seq<ColumnDescriptor>,
    cols: Seq<crate::column::TypedColumn>,
    n: int,
)
    requires
        n == descs.len() == cols.len(),
        forall|j: int|
            0 <= j < n ==> spec_col_format(TableKind::Binary, #[trigger] descs[j])
                == spec_derived_binary_format(cols[j].data),
        spec_derive_binary_prefix_ok(cols, n),
    ensures
        crate::layout::spec_plan_binary_prefix_ok(descs, n),
{
    assert forall|j: int| 0 <= j < n implies (#[trigger] spec_col_format(
        TableKind::Binary,
        descs[j],
    )) is Some by {}
    assert forall|j: int| 0 <= j < n implies crate::layout::spec_binary_offset(descs, j)
        + spec_col_format(TableKind::Binary, #[trigger] descs[j]).unwrap().cell_width
        <= usize::MAX by {
        lemma_derive_offsets_agree_binary(descs, cols, j);
    }
}

/// Executable twin of [`spec_derived_letter`].
fn derived_letter(d: &ColumnData) -> (r: Option<u8>)
    ensures
        r == spec_derived_letter(*d),
        r matches Some(b) ==> (0x41 <= b <= 0x5a && spec_scalar_code(b) is Some),
{
    match d {
        ColumnData::Logical(_) | ColumnData::LogicalArr(_) => Some(0x4c),
        ColumnData::Bit(_) | ColumnData::BitArr(_) => Some(0x58),
        ColumnData::Byte(_) | ColumnData::ByteArr(_) => Some(0x42),
        ColumnData::Short(_) | ColumnData::ShortArr(_) => Some(0x49),
        ColumnData::Int(_) | ColumnData::IntArr(_) => Some(0x4a),
        ColumnData::Long(_) | ColumnData::LongArr(_) => Some(0x4b),
        ColumnData::Float(_) | ColumnData::FloatArr(_) => Some(0x45),
        ColumnData::Double(_) | ColumnData::DoubleArr(_) => Some(0x44),
        ColumnData::Complex(_) => Some(0x43),
        ColumnData::DComplex(_) => Some(0x4d),
        ColumnData::Text(_) => Some(0x41),
        ColumnData::Desc(_) => None,
    }
}


/// One header card: a keyword and its value, both as text.
#[derive(Debug, Clone, PartialEq)]
pub struct CardSpec {
    pub keyword: String,
    pub value: String,
}

/// A keyword followed by a 1-based column number, as ASCII bytes.
fn numbered_keyword(stem: &Vec<u8>, n: usize) -> (r: String)
    requires
        forall|i: int| 0 <= i < stem@.len() ==> stem@[i] < 0x80,
        n < usize::MAX,
    ensures
        encode_utf8(r@) == stem@ + spec_udec((n + 1) as nat),
{
    let digits = format_u64((n + 1) as u64);
    proof {
        lemma_udec_shape((n + 1) as nat);
    }
    let mut v: Vec<u8> = Vec::new();
    let mut i: usize = 0;
    let sn = stem.len();
    while i < sn
        invariant
            i <= sn,
            sn == stem@.len(),
            v@ =~= stem@.take(i as int),
        decreases sn - i,
    {
        v.push(stem[i]);
        proof {
            assert(v@ =~= stem@.take(i + 1));
        }
        i += 1;
    }
    proof {
        assert(stem@.take(sn as int) =~= stem@);
    }
    let mut j: usize = 0;
    let dn = digits.len();
    while j < dn
        invariant
            j <= dn,
            dn == digits@.len(),
            v@ =~= stem@ + digits@.take(j as int),
        decreases dn - j,
    {
        v.push(digits[j]);
        proof {
            assert(v@ =~= stem@ + digits@.take(j + 1));
        }
        j += 1;
    }
    proof {
        assert(digits@.take(dn as int) =~= digits@);
        assert(forall|i2: int| 0 <= i2 < v@.len() ==> v@[i2] < 0x80);
    }
    let s = ascii_to_string(&v);
    proof {
        assert(is_ascii_chars(s@));
        is_ascii_chars_encode_utf8(s@);
        assert(encode_utf8(s@) =~= v@);
    }
    s
}

/// A decimal number as text.
fn number_string(n: usize) -> (r: String)
    ensures
        encode_utf8(r@) == spec_udec(n as nat),
{
    let digits = format_u64(n as u64);
    proof {
        lemma_udec_shape(n as nat);
    }
    let s = ascii_to_string(&digits);
    proof {
        assert(is_ascii_chars(s@));
        is_ascii_chars_encode_utf8(s@);
        assert(encode_utf8(s@) =~= digits@);
    }
    s
}

/// The keyword stems of the per-column cards.
pub open spec fn spec_ttype_stem() -> Seq<u8> {
    seq![0x54u8, 0x54u8, 0x59u8, 0x50u8, 0x45u8]
}

pub open spec fn spec_tform_stem() -> Seq<u8> {
    seq![0x54u8, 0x46u8, 0x4fu8, 0x52u8, 0x4du8]
}

pub open spec fn spec_tunit_stem() -> Seq<u8> {
    seq![0x54u8, 0x55u8, 0x4eu8, 0x49u8, 0x54u8]
}

pub open spec fn spec_tdisp_stem() -> Seq<u8> {
    seq![0x54u8, 0x44u8, 0x49u8, 0x53u8, 0x50u8]
}

pub open spec fn spec_tbcol_stem() -> Seq<u8> {
    seq![0x54u8, 0x42u8, 0x43u8, 0x4fu8, 0x4cu8]
}

/// How many cards column `c` emits: TTYPE and TFORM always, TUNIT and
/// TDISP when the description carries them, and TBCOL for an ASCII
/// column that has one.
pub open spec fn spec_col_card_count(l: RowLayout, c: int) -> nat {
    (2 + (if l.cols@[c].desc.unit is Some {
        1int
    } else {
        0
    }) + (if l.cols@[c].desc.display is Some {
        1int
    } else {
        0
    }) + (if l.kind is Ascii && l.cols@[c].desc.ascii_start_column is Some {
        1int
    } else {
        0
    })) as nat
}

/// Index of column `c`'s first card: past the eight mandatory cards and
/// every earlier column's cards.
pub open spec fn spec_card_base(l: RowLayout, c: int) -> nat
    decreases c,
{
    if c <= 0 {
        8
    } else {
        spec_card_base(l, c - 1) + spec_col_card_count(l, c - 1)
    }
}

/// The cards of column `c` stand at their base index in order: TTYPE,
/// TFORM, then the optional TUNIT, TDISP and TBCOL, each keyword the
/// stem followed by the 1-based column number, each value the
/// description's own text.
pub open spec fn spec_col_cards_ok(l: RowLayout, cards: Seq<CardSpec>, c: int) -> bool {
    let b = spec_card_base(l, c) as int;
    let u: int = if l.cols@[c].desc.unit is Some {
        1
    } else {
        0
    };
    let d: int = if l.cols@[c].desc.display is Some {
        1
    } else {
        0
    };
    &&& encode_utf8(cards[b].keyword@) == spec_ttype_stem() + spec_udec((c + 1) as nat)
    &&& cards[b].value == l.cols@[c].desc.name
    &&& encode_utf8(cards[b + 1].keyword@) == spec_tform_stem() + spec_udec((c + 1) as nat)
    &&& cards[b + 1].value == l.cols@[c].desc.format_token
    &&& (l.cols@[c].desc.unit matches Some(x) ==> (encode_utf8(cards[b + 2].keyword@)
        == spec_tunit_stem() + spec_udec((c + 1) as nat) && cards[b + 2].value == x))
    &&& (l.cols@[c].desc.display matches Some(x) ==> (encode_utf8(cards[b + 2 + u].keyword@)
        == spec_tdisp_stem() + spec_udec((c + 1) as nat) && cards[b + 2 + u].value == x))
    &&& ((l.kind is Ascii && l.cols@[c].desc.ascii_start_column is Some) ==> (encode_utf8(
        cards[b + 2 + u + d].keyword@,
    ) == spec_tbcol_stem() + spec_udec((c + 1) as nat) && encode_utf8(
        cards[b + 2 + u + d].value@,
    ) == spec_udec(l.cols@[c].desc.ascii_start_column.unwrap() as nat)))
}

/// The header cards a table body calls for, computed from the layout
/// and the row count alone: the codec never touches header state.
///
/// The first eight cards are the mandatory table-extension keywords in
/// their required order — XTENSION, BITPIX, NAXIS, NAXIS1, NAXIS2,
/// PCOUNT, GCOUNT, TFIELDS — and every column's TTYPEn/TFORMn pair
/// follows at [`spec_card_base`], with the optional TUNITn/TDISPn and
/// the ASCII TBCOLn cards behind them; nothing else is emitted.
pub fn derive_header_cards(layout: &RowLayout, nrows: usize, pcount: usize) -> (r: Vec<CardSpec>)
    requires
        layout.cols@.len() < usize::MAX,
    ensures
        r@.len() == spec_card_base(*layout, layout.cols@.len() as int),
        r@.len() >= 8,
        r@[0].keyword@ == "XTENSION"@,
        (layout.kind == TableKind::Binary ==> r@[0].value@ == "BINTABLE"@),
        (layout.kind == TableKind::Ascii ==> r@[0].value@ == "TABLE"@),
        r@[1].keyword@ == "BITPIX"@ && r@[1].value@ == "8"@,
        r@[2].keyword@ == "NAXIS"@ && r@[2].value@ == "2"@,
        r@[3].keyword@ == "NAXIS1"@ && encode_utf8(r@[3].value@) == spec_udec(
            layout.bytes_per_row as nat,
        ),
        r@[4].keyword@ == "NAXIS2"@ && encode_utf8(r@[4].value@) == spec_udec(nrows as nat),
        r@[5].keyword@ == "PCOUNT"@ && encode_utf8(r@[5].value@) == spec_udec(pcount as nat),
        r@[6].keyword@ == "GCOUNT"@ && r@[6].value@ == "1"@,
        r@[7].keyword@ == "TFIELDS"@ && encode_utf8(r@[7].value@) == spec_udec(
            layout.cols@.len(),
        ),
        forall|c: int| 0 <= c < layout.cols@.len() ==> #[trigger] spec_col_cards_ok(
            *layout,
            r@,
            c,
        ),
{
    let mut cards: Vec<CardSpec> = Vec::new();
    let xtension = match layout.kind {
        TableKind::Binary => String::from_str("BINTABLE"),
        TableKind::Ascii => String::from_str("TABLE"),
    };
    cards.push(CardSpec { keyword: String::from_str("XTENSION"), value: xtension });
    cards.push(CardSpec { keyword: String::from_str("BITPIX"), value: String::from_str("8") });
    cards.push(CardSpec { keyword: String::from_str("NAXIS"), value: String::from_str("2") });
    cards.push(
        CardSpec { keyword: String::from_str("NAXIS1"), value: number_string(layout.bytes_per_row) },
    );
    cards.push(CardSpec { keyword: String::from_str("NAXIS2"), value: number_string(nrows) });
    cards.push(CardSpec { keyword: String::from_str("PCOUNT"), value: number_string(pcount) });
    cards.push(CardSpec { keyword: String::from_str("GCOUNT"), value: String::from_str("1") });
    cards.push(
        CardSpec { keyword: String::from_str("TFIELDS"), value: number_string(layout.cols.len()) },
    );
    let ghost head = cards@;
    let ncols = layout.cols.len();
    let mut c: usize = 0;
    while c < ncols
        invariant
            c <= ncols,
            ncols == layout.cols@.len(),
            ncols < usize::MAX,
            cards@.len() == spec_card_base(*layout, c as int),
            cards@.len() >= 8,
            forall|k: int| 0 <= k < 8 ==> #[trigger] cards@[k] == head[k],
            head.len() == 8,
            forall|j: int| 0 <= j < c ==> #[trigger] spec_col_cards_ok(*layout, cards@, j),
        decreases ncols - c,
    {
        let ghost base0 = cards@.len() as int;
        let ghost cards0 = cards@;
        let col = &layout.cols[c];
        let mut ttype_stem: Vec<u8> = Vec::new();
        ttype_stem.push(0x54);
        ttype_stem.push(0x54);
        ttype_stem.push(0x59);
        ttype_stem.push(0x50);
        ttype_stem.push(0x45);
        proof {
            assert(ttype_stem@ =~= spec_ttype_stem());
        }
        cards.push(
            CardSpec {
                keyword: numbered_keyword(&ttype_stem, c),
                value: col.desc.name.clone(),
            },
        );
        let mut tform_stem: Vec<u8> = Vec::new();
        tform_stem.push(0x54);
        tform_stem.push(0x46);
        tform_stem.push(0x4f);
        tform_stem.push(0x52);
        tform_stem.push(0x4d);
        proof {
            assert(tform_stem@ =~= spec_tform_stem());
        }
        cards.push(
            CardSpec {
                keyword: numbered_keyword(&tform_stem, c),
                value: col.desc.format_token.clone(),
            },
        );
        match &col.desc.unit {
            Some(u) => {
                let mut tunit_stem: Vec<u8> = Vec::new();
                tunit_stem.push(0x54);
                tunit_stem.push(0x55);
                tunit_stem.push(0x4e);
                tunit_stem.push(0x49);
                tunit_stem.push(0x54);
                proof {
                    assert(tunit_stem@ =~= spec_tunit_stem());
                }
                cards.push(
                    CardSpec { keyword: numbered_keyword(&tunit_stem, c), value: u.clone() },
                );
            },
            None => {},
        }
        match &col.desc.display {
            Some(d) => {
                let mut tdisp_stem: Vec<u8> = Vec::new();
                tdisp_stem.push(0x54);
                tdisp_stem.push(0x44);
                tdisp_stem.push(0x49);
                tdisp_stem.push(0x53);
                tdisp_stem.push(0x50);
                proof {
                    assert(tdisp_stem@ =~= spec_tdisp_stem());
                }
                cards.push(
                    CardSpec { keyword: numbered_keyword(&tdisp_stem, c), value: d.clone() },
                );
            },
            None => {},
        }
        let is_ascii = match layout.kind {
            TableKind::Ascii => true,
            TableKind::Binary => false,
        };
        if is_ascii {
            match col.desc.ascii_start_column {
                Some(t) => {
                    let mut tbcol_stem: Vec<u8> = Vec::new();
                    tbcol_stem.push(0x54);
                    tbcol_stem.push(0x42);
                    tbcol_stem.push(0x43);
                    tbcol_stem.push(0x4f);
                    tbcol_stem.push(0x4c);
                    proof {
                        assert(tbcol_stem@ =~= spec_tbcol_stem());
                    }
                    cards.push(
                        CardSpec {
                            keyword: numbered_keyword(&tbcol_stem, c),
                            value: number_string(t as usize),
                        },
                    );
                },
                None => {},
            }
        }
        proof {
            assert(base0 == spec_card_base(*layout, c as int));
            assert(cards@.len() == base0 + spec_col_card_count(*layout, c as int));
            assert(spec_col_cards_ok(*layout, cards@, c as int));
            // the new cards sit past every index an earlier column's
            // cards occupy, so those clauses carry over unchanged
            assert forall|k: int| 0 <= k < cards0.len() implies #[trigger] cards@[k]
                == cards0[k] by {}
            assert forall|j: int| 0 <= j < c implies #[trigger] spec_col_cards_ok(
                *layout,
                cards@,
                j,
            ) by {
                lemma_card_base_mono(*layout, j + 1, c as int);
                assert(spec_card_base(*layout, j + 1) == spec_card_base(*layout, j)
                    + spec_col_card_count(*layout, j));
                assert(spec_col_cards_ok(*layout, cards0, j));
            }
        }
        c += 1;
    }
    cards
}


/// Whether every binary column from here on derives, with `start` bytes
/// of the row already assigned: each column's storage has a type letter,
/// its measured cell width exists on this machine, and the running row
/// width never leaves `usize`.
pub open spec fn spec_derive_binary_ok(cols: Seq<crate::column::TypedColumn>, start: nat) -> bool
    decreases cols.len(),
{
    if cols.len() == 0 {
        true
    } else {
        match spec_derived_binary_format(cols[0].data) {
            None => false,
            Some(fs) => start + fs.cell_width <= usize::MAX && spec_derive_binary_ok(
                cols.drop_first(),
                (start + fs.cell_width) as nat,
            ),
        }
    }
}

/// Total derived cell width of the first `i` binary columns.
pub open spec fn spec_derived_width_sum(cols: Seq<crate::column::TypedColumn>, i: int) -> nat
    decreases i,
{
    if i <= 0 {
        0
    } else {
        (spec_derived_width_sum(cols, i - 1) + spec_derived_binary_format(
            cols[i - 1].data,
        ).unwrap().cell_width) as nat
    }
}

/// A whole binary table derives exactly when every column does, the row
/// fits the machine, and the row is at least one byte wide.
pub open spec fn spec_can_derive_binary(cols: Seq<crate::column::TypedColumn>) -> bool {
    &&& spec_derive_binary_ok(cols, 0)
    &&& spec_derived_width_sum(cols, cols.len() as int) >= 1
}

/// Whether every ASCII column from here on derives, the next 1-based
/// TBCOL being `next`: each column is an integer or text column and the
/// running field positions stay inside `u32` and `usize`.
pub open spec fn spec_derive_ascii_ok(cols: Seq<crate::column::TypedColumn>, next: nat) -> bool
    decreases cols.len(),
{
    if cols.len() == 0 {
        true
    } else {
        match spec_derived_ascii_format(cols[0].data) {
            None => false,
            Some(fs) => next <= u32::MAX && next + fs.cell_width
                + crate::layout::ASCII_FIELD_PAD <= usize::MAX && spec_derive_ascii_ok(
                cols.drop_first(),
                (next + fs.cell_width + crate::layout::ASCII_FIELD_PAD) as nat,
            ),
        }
    }
}

/// The 1-based TBCOL of ASCII column `i`: consecutive fields, each
/// followed by the field pad.
pub open spec fn spec_derived_tbcol(cols: Seq<crate::column::TypedColumn>, i: int) -> nat
    decreases i,
{
    if i <= 0 {
        1
    } else {
        (spec_derived_tbcol(cols, i - 1) + spec_derived_ascii_format(cols[i - 1].data)
            .unwrap().cell_width + crate::layout::ASCII_FIELD_PAD) as nat
    }
}

/// A whole ASCII table derives exactly when every column does with the
/// consecutive TBCOL assignment starting at one.
pub open spec fn spec_can_derive_ascii(cols: Seq<crate::column::TypedColumn>) -> bool {
    spec_derive_ascii_ok(cols, 1)
}

/// Whether a table's layout can be derived from its data under a kind.
pub open spec fn spec_can_derive(kind: TableKind, cols: Seq<crate::column::TypedColumn>) -> bool {
    match kind {
        TableKind::Binary => spec_can_derive_binary(cols),
        TableKind::Ascii => spec_can_derive_ascii(cols),
    }
}

/// The token text a derived binary column carries: the measured repeat
/// count's digits, then the type letter.
pub open spec fn spec_derived_binary_token(d: ColumnData) -> Seq<u8> {
    spec_udec(spec_derived_binary_format(d).unwrap().repeat_count as nat) + seq![
        spec_derived_letter(d).unwrap(),
    ]
}

/// The type letter of a derived ASCII column.
pub open spec fn spec_derived_ascii_letter(d: ColumnData) -> u8 {
    match d {
        ColumnData::Int(_) => 0x49,
        _ => 0x41,
    }
}

/// The token text a derived ASCII column carries: the type letter, then
/// the field width's digits.
pub open spec fn spec_derived_ascii_token(d: ColumnData) -> Seq<u8> {
    seq![spec_derived_ascii_letter(d)] + spec_udec(
        spec_derived_ascii_format(d).unwrap().cell_width as nat,
    )
}

/// The first `i` binary columns derive with the row width inside the
/// machine at every step.
pub open spec fn spec_derive_binary_prefix_ok(
    cols: Seq<crate::column::TypedColumn>,
    i: int,
) -> bool {
    &&& 0 <= i <= cols.len()
    &&& forall|j: int|
        0 <= j < i ==> (#[trigger] spec_derived_binary_format(cols[j].data)) is Some
    &&& forall|j: int|
        0 <= j < i ==> spec_derived_width_sum(cols, j) + spec_derived_binary_format(
            (#[trigger] cols[j]).data,
        ).unwrap().cell_width <= usize::MAX
}

proof fn lemma_derive_binary_ok_of_prefix(cols: Seq<crate::column::TypedColumn>, k: int)
    requires
        0 <= k <= cols.len(),
        spec_derive_binary_prefix_ok(cols, cols.len() as int),
    ensures
        spec_derive_binary_ok(cols.skip(k), spec_derived_width_sum(cols, k)),
    decreases cols.len() - k,
{
    if k == cols.len() {
        assert(cols.skip(k).len() == 0);
    } else {
        lemma_derive_binary_ok_of_prefix(cols, k + 1);
        assert(cols.skip(k)[0] == cols[k]);
        assert(cols.skip(k).drop_first() =~= cols.skip(k + 1));
    }
}

proof fn lemma_derive_binary_bad_from(cols: Seq<crate::column::TypedColumn>, k: int, i: int)
    requires
        0 <= k <= i < cols.len(),
        spec_derive_binary_prefix_ok(cols, i),
        !(spec_derived_binary_format(cols[i].data) is Some && spec_derived_width_sum(cols, i)
            + spec_derived_binary_format(cols[i].data).unwrap().cell_width <= usize::MAX),
    ensures
        !spec_derive_binary_ok(cols.skip(k), spec_derived_width_sum(cols, k)),
    decreases i - k,
{
    assert(cols.skip(k)[0] == cols[k]);
    assert(cols.skip(k).drop_first() =~= cols.skip(k + 1));
    if k < i {
        lemma_derive_binary_bad_from(cols, k + 1, i);
    }
}

/// The first `i` ASCII columns derive with the TBCOL run inside range.
pub open spec fn spec_derive_ascii_prefix_ok(
    cols: Seq<crate::column::TypedColumn>,
    i: int,
) -> bool {
    &&& 0 <= i <= cols.len()
    &&& forall|j: int|
        0 <= j < i ==> (#[trigger] spec_derived_ascii_format(cols[j].data)) is Some
    &&& forall|j: int|
        0 <= j < i ==> #[trigger] spec_derived_tbcol(cols, j) <= u32::MAX
    &&& forall|j: int|
        0 <= j < i ==> spec_derived_tbcol(cols, j) + spec_derived_ascii_format(
            (#[trigger] cols[j]).data,
        ).unwrap().cell_width + crate::layout::ASCII_FIELD_PAD <= usize::MAX
}

proof fn lemma_derive_ascii_ok_of_prefix(cols: Seq<crate::column::TypedColumn>, k: int)
    requires
        0 <= k <= cols.len(),
        spec_derive_ascii_prefix_ok(cols, cols.len() as int),
    ensures
        spec_derive_ascii_ok(cols.skip(k), spec_derived_tbcol(cols, k)),
    decreases cols.len() - k,
{
    if k == cols.len() {
        assert(cols.skip(k).len() == 0);
    } else {
        lemma_derive_ascii_ok_of_prefix(cols, k + 1);
        assert(cols.skip(k)[0] == cols[k]);
        assert(cols.skip(k).drop_first() =~= cols.skip(k + 1));
    }
}

proof fn lemma_derive_ascii_bad_from(cols: Seq<crate::column::TypedColumn>, k: int, i: int)
    requires
        0 <= k <= i < cols.len(),
        spec_derive_ascii_prefix_ok(cols, i),
        !(spec_derived_ascii_format(cols[i].data) is Some && spec_derived_tbcol(cols, i)
            <= u32::MAX && spec_derived_tbcol(cols, i) + spec_derived_ascii_format(
            cols[i].data,
        ).unwrap().cell_width + crate::layout::ASCII_FIELD_PAD <= usize::MAX),
    ensures
        !spec_derive_ascii_ok(cols.skip(k), spec_derived_tbcol(cols, k)),
    decreases i - k,
{
    assert(cols.skip(k)[0] == cols[k]);
    assert(cols.skip(k).drop_first() =~= cols.skip(k + 1));
    if k < i {
        lemma_derive_ascii_bad_from(cols, k + 1, i);
    }
}


#[verifier::rlimit(100)]
fn derive_ascii_layout(table: &FitsTable) -> (r: Result<
    (Vec<ColumnDescriptor>, RowLayout),
    FitsError,
>)
    ensures
        match r {
            Ok((descs, l)) => {
                &&& spec_can_derive_ascii(table.cols@)
                &&& descs@.len() == table.cols@.len()
                &&& forall|c: int|
                    0 <= c < descs@.len() ==> (#[trigger] descs@[c]).name == table.cols@[c].name
                &&& spec_layout_wf(l)
                &&& l.kind == TableKind::Ascii
                &&& l.cols@.len() == descs@.len()
                &&& forall|c: int| 0 <= c < descs@.len() ==> (#[trigger] l.cols@[c]).desc == descs@[c]
                &&& forall|c: int|
                    0 <= c < descs@.len() ==> Some((#[trigger] l.cols@[c]).fspec)
                        == spec_col_format(TableKind::Ascii, descs@[c])
                &&& forall|c: int|
                    0 <= c < descs@.len() ==> Some((#[trigger] l.cols@[c]).fspec)
                        == spec_derived_ascii_format(table.cols@[c].data)
                &&& forall|c: int|
                    0 <= c < descs@.len() ==> encode_utf8((#[trigger] descs@[c]).format_token@)
                        == spec_derived_ascii_token(table.cols@[c].data)
                &&& forall|c: int|
                    0 <= c < descs@.len() ==> (#[trigger] descs@[c]).ascii_start_column == Some(
                        spec_derived_tbcol(table.cols@, c) as u32,
                    )
                &&& forall|c: int|
                    0 <= c < descs@.len() ==> (#[trigger] l.cols@[c]).start_offset
                        == spec_derived_tbcol(table.cols@, c) - 1
                &&& (table.cols@.len() >= 1 ==> l.bytes_per_row == spec_derived_tbcol(
                    table.cols@,
                    table.cols@.len() as int,
                ) - 1)
                &&& table.cols@.len() >= 1 ==> crate::transcode::spec_packed(l)
            },
            Err(e) => {
                &&& (e == FitsError::InvalidFormat || e == FitsError::UnsupportedType)
                &&& !spec_can_derive_ascii(table.cols@)
            },
        },
{
    let ghost cols = table.cols@;
    let ncols = table.cols.len();
    let mut descs: Vec<ColumnDescriptor> = Vec::new();
    let mut next_tbcol: usize = 1;
    let mut c: usize = 0;
    while c < ncols
        invariant
            c <= ncols,
            cols == table.cols@,
            ncols == cols.len(),
            descs@.len() == c,
            next_tbcol == spec_derived_tbcol(cols, c as int),
            spec_derive_ascii_prefix_ok(cols, c as int),
            forall|j: int|
                0 <= j < c ==> (#[trigger] descs@[j]).name == cols[j].name,
            forall|j: int|
                0 <= j < c ==> spec_col_format(TableKind::Ascii, #[trigger] descs@[j])
                    == spec_derived_ascii_format(cols[j].data),
            forall|j: int|
                0 <= j < c ==> encode_utf8((#[trigger] descs@[j]).format_token@)
                    == spec_derived_ascii_token(cols[j].data),
            forall|j: int|
                0 <= j < c ==> (#[trigger] descs@[j]).ascii_start_column == Some(
                    spec_derived_tbcol(cols, j) as u32,
                ),
        decreases ncols - c,
    {
        let col = &table.cols[c];
        let (letter, width): (u8, usize) = match &col.data {
            ColumnData::Int(_) => (0x49, 12),
            ColumnData::Text(_) => {
                let m = match measured_repeat(&col.data) {
                    Some(v) => v,
                    None => {
                        proof {
                            lemma_derive_ascii_bad_from(cols, 0, c as int);
                            assert(cols.skip(0) =~= cols);
                        }
                        return Err(FitsError::InvalidFormat);
                    },
                };
                (0x41, if m == 0 {
                    1
                } else {
                    m
                })
            },
            _ => {
                proof {
                    lemma_derive_ascii_bad_from(cols, 0, c as int);
                    assert(cols.skip(0) =~= cols);
                }
                return Err(FitsError::UnsupportedType);
            },
        };
        let code = crate::format::ascii_code(letter).unwrap();
        if next_tbcol > u32::MAX as usize {
            proof {
                lemma_derive_ascii_bad_from(cols, 0, c as int);
                assert(cols.skip(0) =~= cols);
            }
            return Err(FitsError::InvalidFormat);
        }
        let tbcol = next_tbcol as u32;
        if next_tbcol > usize::MAX - crate::layout::ASCII_FIELD_PAD || width > usize::MAX
            - crate::layout::ASCII_FIELD_PAD - next_tbcol {
            proof {
                lemma_derive_ascii_bad_from(cols, 0, c as int);
                assert(cols.skip(0) =~= cols);
            }
            return Err(FitsError::InvalidFormat);
        }
        let token = ascii_token(letter, width);
        proof {
            lemma_ascii_token_parses(width as nat, letter, code);
        }
        descs.push(
            ColumnDescriptor {
                name: col.name.clone(),
                format_token: token,
                unit: None,
                display: None,
                ascii_start_column: Some(tbcol),
            },
        );
        next_tbcol = next_tbcol + width + crate::layout::ASCII_FIELD_PAD;
        c += 1;
    }
    proof {
        lemma_derive_ascii_ok_of_prefix(cols, 0);
        assert(cols.skip(0) =~= cols);
        // every plan precondition was checked while the descriptions were
        // built, so planning cannot fail
        assert forall|j: int| 0 <= j < ncols implies {
            &&& (#[trigger] spec_col_format(TableKind::Ascii, descs@[j])) is Some
            &&& descs@[j].ascii_start_column matches Some(t) && t >= 1
            &&& (descs@[j].ascii_start_column.unwrap() - 1) + spec_col_format(
                TableKind::Ascii,
                descs@[j],
            ).unwrap().cell_width + crate::layout::ASCII_FIELD_PAD <= usize::MAX
        } by {
            assert(spec_derived_tbcol(cols, j) >= 1) by {
                lemma_derived_tbcol_mono(cols, 0, j);
            }
        }
    }
    let layout = match plan(TableKind::Ascii, &descs) {
        Ok(l) => l,
        Err(_) => {
            proof {
                assert(false);
            }
            return Err(FitsError::InvalidFormat);
        },
    };
    proof {
        if ncols > 0 {
            lemma_derive_ascii_extent(descs@, cols, ncols as int);
            lemma_derive_ascii_packed(layout, descs@, cols);
        } else {
            assert(crate::layout::spec_ascii_extent(descs@, 0) == 0);
        }
    }
    Ok((descs, layout))
}

/// Derived TBCOLs never decrease column to column.
proof fn lemma_derived_tbcol_mono(cols: Seq<crate::column::TypedColumn>, i: int, j: int)
    requires
        i <= j,
    ensures
        spec_derived_tbcol(cols, i) <= spec_derived_tbcol(cols, j),
    decreases j - i,
{
    if i < j {
        lemma_derived_tbcol_mono(cols, i, j - 1);
    }
}

/// With consecutive TBCOLs the widest field end is the last field's end.
proof fn lemma_derive_ascii_extent(
    descs: Seq<ColumnDescriptor>,
    cols: Seq<crate::column::TypedColumn>,
    n: int,
)
    requires
        descs.len() == cols.len(),
        1 <= n <= cols.len(),
        forall|j: int|
            0 <= j < cols.len() ==> spec_col_format(TableKind::Ascii, #[trigger] descs[j])
                == spec_derived_ascii_format(cols[j].data),
        forall|j: int|
            0 <= j < cols.len() ==> (#[trigger] spec_derived_ascii_format(cols[j].data)) is Some,
        forall|j: int|
            0 <= j < cols.len() ==> (#[trigger] descs[j]).ascii_start_column == Some(
                spec_derived_tbcol(cols, j) as u32,
            ),
        forall|j: int| 0 <= j < cols.len() ==> #[trigger] spec_derived_tbcol(cols, j) <= u32::MAX,
    ensures
        crate::layout::spec_ascii_extent(descs, n) == spec_derived_tbcol(cols, n)
            - crate::layout::ASCII_FIELD_PAD - 1,
    decreases n,
{
    let w = spec_derived_ascii_format(cols[n - 1].data).unwrap().cell_width;
    assert(spec_derived_tbcol(cols, n) == spec_derived_tbcol(cols, n - 1) + w
        + crate::layout::ASCII_FIELD_PAD);
    if n == 1 {
        assert(crate::layout::spec_ascii_extent(descs, 0) == 0);
    } else {
        lemma_derive_ascii_extent(descs, cols, n - 1);
        lemma_derived_tbcol_mono(cols, n - 1, n);
        assert(spec_derived_tbcol(cols, n - 1) >= spec_derived_tbcol(cols, n - 2)
            + spec_derived_ascii_format(cols[n - 2].data).unwrap().cell_width
            + crate::layout::ASCII_FIELD_PAD) by {
            assert(spec_derived_tbcol(cols, n - 1) == spec_derived_tbcol(cols, n - 2)
                + spec_derived_ascii_format(cols[n - 2].data).unwrap().cell_width
                + crate::layout::ASCII_FIELD_PAD);
        }
    }
}

/// A layout planned from consecutively derived TBCOLs is packed.
proof fn lemma_derive_ascii_packed(
    l: RowLayout,
    descs: Seq<ColumnDescriptor>,
    cols: Seq<crate::column::TypedColumn>,
)
    requires
        l.kind == TableKind::Ascii,
        l.cols@.len() == descs.len() == cols.len(),
        cols.len() >= 1,
        forall|j: int|
            0 <= j < cols.len() ==> Some((#[trigger] l.cols@[j]).fspec) == spec_derived_ascii_format(
                cols[j].data,
            ),
        forall|j: int|
            0 <= j < cols.len() ==> (#[trigger] l.cols@[j]).start_offset == spec_derived_tbcol(
                cols,
                j,
            ) - 1,
        l.bytes_per_row == spec_derived_tbcol(cols, cols.len() as int) - 1,
    ensures
        crate::transcode::spec_packed(l),
{
    assert forall|c: int| 0 <= c <= cols.len() implies #[trigger] crate::transcode::spec_packed_offset(
        l,
        c,
    ) == spec_derived_tbcol(cols, c) - 1 by {
        lemma_derive_ascii_packed_offsets(l, cols, c);
    }
}

proof fn lemma_derive_ascii_packed_offsets(
    l: RowLayout,
    cols: Seq<crate::column::TypedColumn>,
    c: int,
)
    requires
        l.kind == TableKind::Ascii,
        l.cols@.len() == cols.len(),
        0 <= c <= cols.len(),
        forall|j: int|
            0 <= j < cols.len() ==> Some((#[trigger] l.cols@[j]).fspec) == spec_derived_ascii_format(
                cols[j].data,
            ),
    ensures
        crate::transcode::spec_packed_offset(l, c) == spec_derived_tbcol(cols, c) - 1,
    decreases c,
{
    if c > 0 {
        lemma_derive_ascii_packed_offsets(l, cols, c - 1);
    }
}


/// Card bases never decrease column to column.
proof fn lemma_card_base_mono(l: RowLayout, i: int, j: int)
    requires
        i <= j,
    ensures
        spec_card_base(l, i) <= spec_card_base(l, j),
    decreases j - i,
{
    if i < j {
        lemma_card_base_mono(l, i, j - 1);
    }
}

} // verus!
