//! The column buffer: one column's decoded cells.
//!
//! A buffer is allocated with its final row count before decoding starts,
//! filled in place row by row, and finally converted into a named typed
//! column.  Variable-length columns first hold their descriptors; a second
//! pass resolves them against the heap region.

use vstd::prelude::*;
use vstd::slice::slice_index_get;
use vstd::slice::slice_subrange;
use crate::FitsError;
use crate::format::FormatSpec;
use crate::format::TableKind;
use crate::format::TypeCode;
use crate::format::spec_wf_format;
use crate::cell::CellV;
use crate::cell::CellValue;
use crate::cell::ColumnData;
use crate::cell::StorageClass;
use crate::cell::spec_storage_of;
use crate::cell::spec_decode_cell;
use crate::cell::spec_cell_parse_ok;
use crate::cell::spec_cell_encodable;
use crate::cell::spec_encode_cell;
use crate::cell::spec_resolve_elem_class;
use crate::cell::spec_resolve_cell;
use crate::cell::spec_desc_in_bounds;
use crate::cell::sdec_i16;
use crate::cell::sdec_i32;
use crate::cell::sdec_i64;
use crate::cell::sdec_u32;
use crate::cell::sdec_u64;
use crate::cell::sdec_i8;
use crate::cell::sdec_bool;
use crate::wire::i16_from_be;
use crate::wire::i32_from_be;
use crate::wire::i64_from_be;
use crate::wire::u32_from_be;
use crate::wire::u64_from_be;
use crate::wire::i8_from_be;
use crate::ascii::trim_spaces;
use crate::ascii::parse_int_text;

verus! {

/// One column's decoded cells, plus what is needed to decode more.
///
/// `col_index` is the column's position in the table, used to name the
/// column in errors.
#[derive(Debug)]
pub struct ColumnBuffer {
    pub kind: TableKind,
    pub fspec: FormatSpec,
    pub col_index: usize,
    pub data: ColumnData,
}

/// A finished column: its name and its cells.
#[derive(Debug, Clone, PartialEq)]
pub struct TypedColumn {
    pub name: String,
    pub data: ColumnData,
}

impl ColumnBuffer {
    /// The buffer's format is well-formed and its store has the shape the
    /// format demands.
    pub open spec fn wf(self) -> bool {
        &&& spec_wf_format(self.kind, self.fspec)
        &&& spec_storage_of(self.kind, self.fspec) == Some(self.data.class())
    }

    /// The decoded cells, in row order.
    pub open spec fn cells(self) -> Seq<CellV> {
        self.data.cells()
    }

    /// Allocates a buffer for `capacity` rows of a column, pre-sized to
    /// the final row count so decoding writes by index and never
    /// reallocates.  Every slot starts at its default — false, zero,
    /// empty text, the empty array, the `(0, 0)` descriptor — until a
    /// row is written whole.
    ///
    /// Fails with `UnsupportedType` exactly when the format names a shape
    /// this codec does not implement: a repeated complex column or a
    /// repeated descriptor column.
    pub fn new(kind: TableKind, fspec: FormatSpec, col_index: usize, capacity: usize) -> (r:
        Result<ColumnBuffer, FitsError>)
        requires
            spec_wf_format(kind, fspec),
        ensures
            match r {
                Ok(b) => {
                    &&& spec_storage_of(kind, fspec) is Some
                    &&& b.wf()
                    &&& b.kind == kind
                    &&& b.fspec == fspec
                    &&& b.col_index == col_index
                    &&& b.cells().len() == capacity
                    &&& forall|i: int|
                        0 <= i < capacity ==> #[trigger] b.cells()[i]
                            == crate::cell::spec_default_cell(b.data.class())
                },
                Err(e) => spec_storage_of(kind, fspec) is None && e == FitsError::UnsupportedType,
            },
    {
        let data = match new_store(kind, fspec, capacity) {
            Some(d) => d,
            None => {
                return Err(FitsError::UnsupportedType);
            },
        };
        Ok(ColumnBuffer { kind, fspec, col_index, data })
    }

    /// Reads one decoded cell.
    pub fn read_at(&self, row: usize) -> (r: CellValue)
        requires
            row < self.cells().len(),
        ensures
            r@ == self.cells()[row as int],
    {
        match &self.data {
            ColumnData::Logical(v) => CellValue::Logical(v[row]),
            ColumnData::Bit(v) => CellValue::Bit(v[row]),
            ColumnData::Byte(v) => CellValue::Byte(v[row]),
            ColumnData::Short(v) => CellValue::Short(v[row]),
            ColumnData::Int(v) => CellValue::Int(v[row]),
            ColumnData::Long(v) => CellValue::Long(v[row]),
            ColumnData::Float(v) => CellValue::Float(v[row]),
            ColumnData::Double(v) => CellValue::Double(v[row]),
            ColumnData::Complex(v) => {
                let p = v[row];
                CellValue::Complex(p.0, p.1)
            },
            ColumnData::DComplex(v) => {
                let p = v[row];
                CellValue::DComplex(p.0, p.1)
            },
            ColumnData::Text(v) => CellValue::Text(v[row].clone()),
            ColumnData::LogicalArr(v) => CellValue::LogicalArr(v[row].clone()),
            ColumnData::BitArr(v) => CellValue::BitArr(v[row].clone()),
            ColumnData::ByteArr(v) => CellValue::ByteArr(v[row].clone()),
            ColumnData::ShortArr(v) => CellValue::ShortArr(v[row].clone()),
            ColumnData::IntArr(v) => CellValue::IntArr(v[row].clone()),
            ColumnData::LongArr(v) => CellValue::LongArr(v[row].clone()),
            ColumnData::FloatArr(v) => CellValue::FloatArr(v[row].clone()),
            ColumnData::DoubleArr(v) => CellValue::DoubleArr(v[row].clone()),
            ColumnData::Desc(v) => {
                let p = v[row];
                CellValue::Desc(p.0, p.1)
            },
        }
    }
}

/// A fresh store of `capacity` default cells, or `None` for the shapes
/// the codec does not implement.
fn new_store(kind: TableKind, fspec: FormatSpec, capacity: usize) -> (r: Option<ColumnData>)
    ensures
        match r {
            Some(d) => {
                &&& spec_storage_of(kind, fspec) == Some(d.class())
                &&& d.cells().len() == capacity
                &&& forall|i: int|
                    0 <= i < capacity ==> #[trigger] d.cells()[i] == crate::cell::spec_default_cell(
                        d.class(),
                    )
            },
            None => spec_storage_of(kind, fspec) is None,
        },
{
    let class = match storage_of(kind, fspec) {
        Some(c) => c,
        None => {
            return None;
        },
    };
    let d = match class {
        StorageClass::Logical => ColumnData::Logical(vec![false; capacity]),
        StorageClass::Bit => ColumnData::Bit(vec![0u8; capacity]),
        StorageClass::Byte => ColumnData::Byte(vec![0i8; capacity]),
        StorageClass::Short => ColumnData::Short(vec![0i16; capacity]),
        StorageClass::Int => ColumnData::Int(vec![0i32; capacity]),
        StorageClass::Long => ColumnData::Long(vec![0i64; capacity]),
        StorageClass::Float => ColumnData::Float(vec![0u32; capacity]),
        StorageClass::Double => ColumnData::Double(vec![0u64; capacity]),
        StorageClass::Complex => ColumnData::Complex(new_pairs_u32(capacity)),
        StorageClass::DComplex => ColumnData::DComplex(new_pairs_u64(capacity)),
        StorageClass::Text => ColumnData::Text(new_nested_u8(capacity)),
        StorageClass::LogicalArr => ColumnData::LogicalArr(new_nested_bool(capacity)),
        StorageClass::BitArr => ColumnData::BitArr(new_nested_u8(capacity)),
        StorageClass::ByteArr => ColumnData::ByteArr(new_nested_i8(capacity)),
        StorageClass::ShortArr => ColumnData::ShortArr(new_nested_i16(capacity)),
        StorageClass::IntArr => ColumnData::IntArr(new_nested_i32(capacity)),
        StorageClass::LongArr => ColumnData::LongArr(new_nested_i64(capacity)),
        StorageClass::FloatArr => ColumnData::FloatArr(new_nested_u32(capacity)),
        StorageClass::DoubleArr => ColumnData::DoubleArr(new_nested_u64(capacity)),
        StorageClass::Desc => ColumnData::Desc(new_pairs_u64(capacity)),
    };
    proof {
        match &d {
            ColumnData::Logical(v) => {
                assert forall|i: int| 0 <= i < capacity implies #[trigger] d.cells()[i]
                    == crate::cell::spec_default_cell(d.class()) by {
                    assert(vstd::pervasive::cloned(false, v@[i]));
                    assert(v@[i] == false);
                }
            },
            ColumnData::Bit(v) => {
                assert forall|i: int| 0 <= i < capacity implies #[trigger] d.cells()[i]
                    == crate::cell::spec_default_cell(d.class()) by {
                    assert(vstd::pervasive::cloned(0u8, v@[i]));
                    assert(v@[i] == 0u8);
                }
            },
            ColumnData::Byte(v) => {
                assert forall|i: int| 0 <= i < capacity implies #[trigger] d.cells()[i]
                    == crate::cell::spec_default_cell(d.class()) by {
                    assert(vstd::pervasive::cloned(0i8, v@[i]));
                    assert(v@[i] == 0i8);
                }
            },
            ColumnData::Short(v) => {
                assert forall|i: int| 0 <= i < capacity implies #[trigger] d.cells()[i]
                    == crate::cell::spec_default_cell(d.class()) by {
                    assert(vstd::pervasive::cloned(0i16, v@[i]));
                    assert(v@[i] == 0i16);
                }
            },
            ColumnData::Int(v) => {
                assert forall|i: int| 0 <= i < capacity implies #[trigger] d.cells()[i]
                    == crate::cell::spec_default_cell(d.class()) by {
                    assert(vstd::pervasive::cloned(0i32, v@[i]));
                    assert(v@[i] == 0i32);
                }
            },
            ColumnData::Long(v) => {
                assert forall|i: int| 0 <= i < capacity implies #[trigger] d.cells()[i]
                    == crate::cell::spec_default_cell(d.class()) by {
                    assert(vstd::pervasive::cloned(0i64, v@[i]));
                    assert(v@[i] == 0i64);
                }
            },
            ColumnData::Float(v) => {
                assert forall|i: int| 0 <= i < capacity implies #[trigger] d.cells()[i]
                    == crate::cell::spec_default_cell(d.class()) by {
                    assert(vstd::pervasive::cloned(0u32, v@[i]));
                    assert(v@[i] == 0u32);
                }
            },
            ColumnData::Double(v) => {
                assert forall|i: int| 0 <= i < capacity implies #[trigger] d.cells()[i]
                    == crate::cell::spec_default_cell(d.class()) by {
                    assert(vstd::pervasive::cloned(0u64, v@[i]));
                    assert(v@[i] == 0u64);
                }
            },
            ColumnData::Complex(v) => {
                assert forall|i: int| 0 <= i < capacity implies #[trigger] d.cells()[i]
                    == crate::cell::spec_default_cell(d.class()) by {
                    assert(v@[i] == (0u32, 0u32));
                }
            },
            ColumnData::DComplex(v) => {
                assert forall|i: int| 0 <= i < capacity implies #[trigger] d.cells()[i]
                    == crate::cell::spec_default_cell(d.class()) by {
                    assert(v@[i] == (0u64, 0u64));
                }
            },
            ColumnData::Desc(v) => {
                assert forall|i: int| 0 <= i < capacity implies #[trigger] d.cells()[i]
                    == crate::cell::spec_default_cell(d.class()) by {
                    assert(v@[i] == (0u64, 0u64));
                }
            },
            ColumnData::Text(v) => {
                assert forall|i: int| 0 <= i < capacity implies #[trigger] d.cells()[i]
                    == crate::cell::spec_default_cell(d.class()) by {
                    assert(v@[i]@ =~= Seq::empty());
                }
            },
            ColumnData::LogicalArr(v) => {
                assert forall|i: int| 0 <= i < capacity implies #[trigger] d.cells()[i]
                    == crate::cell::spec_default_cell(d.class()) by {
                    assert(v@[i]@ =~= Seq::empty());
                }
            },
            ColumnData::BitArr(v) => {
                assert forall|i: int| 0 <= i < capacity implies #[trigger] d.cells()[i]
                    == crate::cell::spec_default_cell(d.class()) by {
                    assert(v@[i]@ =~= Seq::empty());
                }
            },
            ColumnData::ByteArr(v) => {
                assert forall|i: int| 0 <= i < capacity implies #[trigger] d.cells()[i]
                    == crate::cell::spec_default_cell(d.class()) by {
                    assert(v@[i]@ =~= Seq::empty());
                }
            },
            ColumnData::ShortArr(v) => {
                assert forall|i: int| 0 <= i < capacity implies #[trigger] d.cells()[i]
                    == crate::cell::spec_default_cell(d.class()) by {
                    assert(v@[i]@ =~= Seq::empty());
                }
            },
            ColumnData::IntArr(v) => {
                assert forall|i: int| 0 <= i < capacity implies #[trigger] d.cells()[i]
                    == crate::cell::spec_default_cell(d.class()) by {
                    assert(v@[i]@ =~= Seq::empty());
                }
            },
            ColumnData::LongArr(v) => {
                assert forall|i: int| 0 <= i < capacity implies #[trigger] d.cells()[i]
                    == crate::cell::spec_default_cell(d.class()) by {
                    assert(v@[i]@ =~= Seq::empty());
                }
            },
            ColumnData::FloatArr(v) => {
                assert forall|i: int| 0 <= i < capacity implies #[trigger] d.cells()[i]
                    == crate::cell::spec_default_cell(d.class()) by {
                    assert(v@[i]@ =~= Seq::empty());
                }
            },
            ColumnData::DoubleArr(v) => {
                assert forall|i: int| 0 <= i < capacity implies #[trigger] d.cells()[i]
                    == crate::cell::spec_default_cell(d.class()) by {
                    assert(v@[i]@ =~= Seq::empty());
                }
            },
        }
    }
    Some(d)
}

fn new_pairs_u32(capacity: usize) -> (r: Vec<(u32, u32)>)
    ensures
        r@.len() == capacity,
        forall|i: int| 0 <= i < capacity ==> #[trigger] r@[i] == (0u32, 0u32),
{
    let mut v: Vec<(u32, u32)> = Vec::new();
    let mut i: usize = 0;
    while i < capacity
        invariant
            i <= capacity,
            v@.len() == i,
            forall|j: int| 0 <= j < i ==> #[trigger] v@[j] == (0u32, 0u32),
        decreases capacity - i,
    {
        v.push((0, 0));
        i += 1;
    }
    v
}

fn new_pairs_u64(capacity: usize) -> (r: Vec<(u64, u64)>)
    ensures
        r@.len() == capacity,
        forall|i: int| 0 <= i < capacity ==> #[trigger] r@[i] == (0u64, 0u64),
{
    let mut v: Vec<(u64, u64)> = Vec::new();
    let mut i: usize = 0;
    while i < capacity
        invariant
            i <= capacity,
            v@.len() == i,
            forall|j: int| 0 <= j < i ==> #[trigger] v@[j] == (0u64, 0u64),
        decreases capacity - i,
    {
        v.push((0, 0));
        i += 1;
    }
    v
}

/// Executable twin of [`spec_storage_of`].
pub fn storage_of(kind: TableKind, fspec: FormatSpec) -> (r: Option<StorageClass>)
    ensures
        r == spec_storage_of(kind, fspec),
{
    match kind {
        TableKind::Ascii => match fspec.type_code {
            TypeCode::Int32 => Some(StorageClass::Int),
            TypeCode::Float32Text | TypeCode::Float64Text | TypeCode::CharText => Some(
                StorageClass::Text,
            ),
            _ => None,
        },
        TableKind::Binary => match fspec.type_code {
            TypeCode::Char => Some(StorageClass::Text),
            TypeCode::Logical => {
                if fspec.repeat_count == 1 {
                    Some(StorageClass::Logical)
                } else {
                    Some(StorageClass::LogicalArr)
                }
            },
            TypeCode::Bit => {
                if fspec.repeat_count == 1 {
                    Some(StorageClass::Bit)
                } else {
                    Some(StorageClass::BitArr)
                }
            },
            TypeCode::Byte => {
                if fspec.repeat_count == 1 {
                    Some(StorageClass::Byte)
                } else {
                    Some(StorageClass::ByteArr)
                }
            },
            TypeCode::Short => {
                if fspec.repeat_count == 1 {
                    Some(StorageClass::Short)
                } else {
                    Some(StorageClass::ShortArr)
                }
            },
            TypeCode::Int32 => {
                if fspec.repeat_count == 1 {
                    Some(StorageClass::Int)
                } else {
                    Some(StorageClass::IntArr)
                }
            },
            TypeCode::Int64 => {
                if fspec.repeat_count == 1 {
                    Some(StorageClass::Long)
                } else {
                    Some(StorageClass::LongArr)
                }
            },
            TypeCode::Float32 => {
                if fspec.repeat_count == 1 {
                    Some(StorageClass::Float)
                } else {
                    Some(StorageClass::FloatArr)
                }
            },
            TypeCode::Float64 => {
                if fspec.repeat_count == 1 {
                    Some(StorageClass::Double)
                } else {
                    Some(StorageClass::DoubleArr)
                }
            },
            TypeCode::Complex64 => {
                if fspec.repeat_count == 1 {
                    Some(StorageClass::Complex)
                } else {
                    None
                }
            },
            TypeCode::Complex128 => {
                if fspec.repeat_count == 1 {
                    Some(StorageClass::DComplex)
                } else {
                    None
                }
            },
            TypeCode::ArrayDescriptor32 | TypeCode::ArrayDescriptor64 => {
                if fspec.repeat_count == 1 {
                    Some(StorageClass::Desc)
                } else {
                    None
                }
            },
            TypeCode::Float32Text | TypeCode::Float64Text | TypeCode::CharText => None,
        },
    }
}

fn new_nested_u8(capacity: usize) -> (r: Vec<Vec<u8>>)
    ensures
        r@.len() == capacity,
        forall|i: int| 0 <= i < capacity ==> (#[trigger] r@[i])@.len() == 0,
{
    let mut v: Vec<Vec<u8>> = Vec::new();
    let mut i: usize = 0;
    while i < capacity
        invariant
            i <= capacity,
            v@.len() == i,
            forall|j: int| 0 <= j < i ==> (#[trigger] v@[j])@.len() == 0,
        decreases capacity - i,
    {
        v.push(Vec::new());
        i += 1;
    }
    v
}

fn new_nested_bool(capacity: usize) -> (r: Vec<Vec<bool>>)
    ensures
        r@.len() == capacity,
        forall|i: int| 0 <= i < capacity ==> (#[trigger] r@[i])@.len() == 0,
{
    let mut v: Vec<Vec<bool>> = Vec::new();
    let mut i: usize = 0;
    while i < capacity
        invariant
            i <= capacity,
            v@.len() == i,
            forall|j: int| 0 <= j < i ==> (#[trigger] v@[j])@.len() == 0,
        decreases capacity - i,
    {
        v.push(Vec::new());
        i += 1;
    }
    v
}

fn new_nested_i8(capacity: usize) -> (r: Vec<Vec<i8>>)
    ensures
        r@.len() == capacity,
        forall|i: int| 0 <= i < capacity ==> (#[trigger] r@[i])@.len() == 0,
{
    let mut v: Vec<Vec<i8>> = Vec::new();
    let mut i: usize = 0;
    while i < capacity
        invariant
            i <= capacity,
            v@.len() == i,
            forall|j: int| 0 <= j < i ==> (#[trigger] v@[j])@.len() == 0,
        decreases capacity - i,
    {
        v.push(Vec::new());
        i += 1;
    }
    v
}

fn new_nested_i16(capacity: usize) -> (r: Vec<Vec<i16>>)
    ensures
        r@.len() == capacity,
        forall|i: int| 0 <= i < capacity ==> (#[trigger] r@[i])@.len() == 0,
{
    let mut v: Vec<Vec<i16>> = Vec::new();
    let mut i: usize = 0;
    while i < capacity
        invariant
            i <= capacity,
            v@.len() == i,
            forall|j: int| 0 <= j < i ==> (#[trigger] v@[j])@.len() == 0,
        decreases capacity - i,
    {
        v.push(Vec::new());
        i += 1;
    }
    v
}

fn new_nested_i32(capacity: usize) -> (r: Vec<Vec<i32>>)
    ensures
        r@.len() == capacity,
        forall|i: int| 0 <= i < capacity ==> (#[trigger] r@[i])@.len() == 0,
{
    let mut v: Vec<Vec<i32>> = Vec::new();
    let mut i: usize = 0;
    while i < capacity
        invariant
            i <= capacity,
            v@.len() == i,
            forall|j: int| 0 <= j < i ==> (#[trigger] v@[j])@.len() == 0,
        decreases capacity - i,
    {
        v.push(Vec::new());
        i += 1;
    }
    v
}

fn new_nested_i64(capacity: usize) -> (r: Vec<Vec<i64>>)
    ensures
        r@.len() == capacity,
        forall|i: int| 0 <= i < capacity ==> (#[trigger] r@[i])@.len() == 0,
{
    let mut v: Vec<Vec<i64>> = Vec::new();
    let mut i: usize = 0;
    while i < capacity
        invariant
            i <= capacity,
            v@.len() == i,
            forall|j: int| 0 <= j < i ==> (#[trigger] v@[j])@.len() == 0,
        decreases capacity - i,
    {
        v.push(Vec::new());
        i += 1;
    }
    v
}

fn new_nested_u32(capacity: usize) -> (r: Vec<Vec<u32>>)
    ensures
        r@.len() == capacity,
        forall|i: int| 0 <= i < capacity ==> (#[trigger] r@[i])@.len() == 0,
{
    let mut v: Vec<Vec<u32>> = Vec::new();
    let mut i: usize = 0;
    while i < capacity
        invariant
            i <= capacity,
            v@.len() == i,
            forall|j: int| 0 <= j < i ==> (#[trigger] v@[j])@.len() == 0,
        decreases capacity - i,
    {
        v.push(Vec::new());
        i += 1;
    }
    v
}

fn new_nested_u64(capacity: usize) -> (r: Vec<Vec<u64>>)
    ensures
        r@.len() == capacity,
        forall|i: int| 0 <= i < capacity ==> (#[trigger] r@[i])@.len() == 0,
{
    let mut v: Vec<Vec<u64>> = Vec::new();
    let mut i: usize = 0;
    while i < capacity
        invariant
            i <= capacity,
            v@.len() == i,
            forall|j: int| 0 <= j < i ==> (#[trigger] v@[j])@.len() == 0,
        decreases capacity - i,
    {
        v.push(Vec::new());
        i += 1;
    }
    v
}


impl ColumnBuffer {
    /// Decodes one cell's bytes into row `row`.
    ///
    /// The slice must be exactly `cell_width` bytes: anything else is a
    /// `LayoutMismatch` carrying both lengths, and nothing is stored.  An
    /// ASCII integer field that does not parse is a `DecodeFailed` naming
    /// this column and the row.  On success the cell holds the decoded
    /// value and every other cell is untouched.
    pub fn write_at(&mut self, row: usize, bytes: &[u8]) -> (r: Result<(), FitsError>)
        requires
            old(self).wf(),
            row < old(self).cells().len(),
        ensures
            final(self).wf(),
            final(self).kind == old(self).kind,
            final(self).fspec == old(self).fspec,
            final(self).col_index == old(self).col_index,
            final(self).cells().len() == old(self).cells().len(),
            match r {
                Ok(()) => {
                    &&& bytes@.len() == old(self).fspec.cell_width
                    &&& spec_cell_parse_ok(old(self).kind, old(self).fspec, bytes@)
                    &&& final(self).cells() == old(self).cells().update(
                        row as int,
                        spec_decode_cell(old(self).kind, old(self).fspec, bytes@),
                    )
                },
                Err(FitsError::LayoutMismatch { expected, got }) => {
                    &&& bytes@.len() != old(self).fspec.cell_width
                    &&& expected == old(self).fspec.cell_width
                    &&& got == bytes@.len()
                    &&& *final(self) == *old(self)
                },
                Err(FitsError::DecodeFailed { column, row: r2 }) => {
                    &&& bytes@.len() == old(self).fspec.cell_width
                    &&& !spec_cell_parse_ok(old(self).kind, old(self).fspec, bytes@)
                    &&& column == old(self).col_index
                    &&& r2 == row
                    &&& *final(self) == *old(self)
                },
                _ => false,
            },
    {
        let w = self.fspec.cell_width;
        if bytes.len() != w {
            return Err(FitsError::LayoutMismatch { expected: w, got: bytes.len() });
        }
        let ghost k = self.kind;
        let ghost fs = self.fspec;
        let ghost c0 = self.data.cells();
        let rep = self.fspec.repeat_count;
        let is_binary = match self.kind {
            TableKind::Binary => true,
            TableKind::Ascii => false,
        };
        match &mut self.data {
            ColumnData::Logical(v) => {
                let b = *slice_index_get(bytes, 0);
                v[row] = b != 0;
                proof {
                    assert(self.data.cells() =~= c0.update(
                        row as int,
                        spec_decode_cell(k, fs, bytes@),
                    ));
                }
            },
            ColumnData::Bit(v) => {
                let b = *slice_index_get(bytes, 0);
                v[row] = b;
                proof {
                    assert(self.data.cells() =~= c0.update(
                        row as int,
                        spec_decode_cell(k, fs, bytes@),
                    ));
                }
            },
            ColumnData::Byte(v) => {
                let x = i8_from_be(bytes);
                v[row] = x;
                proof {
                    assert(x == sdec_i8(bytes@));
                    assert(self.data.cells() =~= c0.update(
                        row as int,
                        spec_decode_cell(k, fs, bytes@),
                    ));
                }
            },
            ColumnData::Short(v) => {
                let x = i16_from_be(bytes);
                v[row] = x;
                proof {
                    assert(x == sdec_i16(bytes@));
                    assert(self.data.cells() =~= c0.update(
                        row as int,
                        spec_decode_cell(k, fs, bytes@),
                    ));
                }
            },
            ColumnData::Int(v) => {
                if is_binary {
                    let x = i32_from_be(bytes);
                    v[row] = x;
                    proof {
                        assert(x == sdec_i32(bytes@));
                        assert(self.data.cells() =~= c0.update(
                            row as int,
                            spec_decode_cell(k, fs, bytes@),
                        ));
                    }
                } else {
                    let parsed = parse_int_text(bytes);
                    let x: i32 = match parsed {
                        Some(big) => {
                            if big < -0x8000_0000i64 || big > 0x7fff_ffffi64 {
                                return Err(
                                    FitsError::DecodeFailed { column: self.col_index, row },
                                );
                            }
                            big as i32
                        },
                        None => {
                            return Err(FitsError::DecodeFailed { column: self.col_index, row });
                        },
                    };
                    v[row] = x;
                    proof {
                        assert(self.data.cells() =~= c0.update(
                            row as int,
                            spec_decode_cell(k, fs, bytes@),
                        ));
                    }
                }
            },
            ColumnData::Long(v) => {
                let x = i64_from_be(bytes);
                v[row] = x;
                proof {
                    assert(x == sdec_i64(bytes@));
                    assert(self.data.cells() =~= c0.update(
                        row as int,
                        spec_decode_cell(k, fs, bytes@),
                    ));
                }
            },
            ColumnData::Float(v) => {
                let x = u32_from_be(bytes);
                v[row] = x;
                proof {
                    assert(self.data.cells() =~= c0.update(
                        row as int,
                        spec_decode_cell(k, fs, bytes@),
                    ));
                }
            },
            ColumnData::Double(v) => {
                let x = u64_from_be(bytes);
                v[row] = x;
                proof {
                    assert(self.data.cells() =~= c0.update(
                        row as int,
                        spec_decode_cell(k, fs, bytes@),
                    ));
                }
            },
            ColumnData::Complex(v) => {
                let a = u32_from_be(slice_subrange(bytes, 0, 4));
                let b = u32_from_be(slice_subrange(bytes, 4, 8));
                v[row] = (a, b);
                proof {
                    assert(self.data.cells() =~= c0.update(
                        row as int,
                        spec_decode_cell(k, fs, bytes@),
                    ));
                }
            },
            ColumnData::DComplex(v) => {
                let a = u64_from_be(slice_subrange(bytes, 0, 8));
                let b = u64_from_be(slice_subrange(bytes, 8, 16));
                v[row] = (a, b);
                proof {
                    assert(self.data.cells() =~= c0.update(
                        row as int,
                        spec_decode_cell(k, fs, bytes@),
                    ));
                }
            },
            ColumnData::Text(v) => {
                let t = if is_binary {
                    trim_end_spaces(bytes)
                } else {
                    trim_spaces(bytes)
                };
                v[row] = t;
                proof {
                    assert(self.data.cells() =~= c0.update(
                        row as int,
                        spec_decode_cell(k, fs, bytes@),
                    ));
                }
            },
            ColumnData::LogicalArr(v) => {
                let mut a: Vec<bool> = Vec::new();
                let mut i: usize = 0;
                while i < rep
                    invariant
                        i <= rep,
                        bytes@.len() == rep,
                        a@ =~= Seq::new(i as nat, |j: int| sdec_bool(bytes@.subrange(j, j + 1))),
                    decreases rep - i,
                {
                    let b = *slice_index_get(bytes, i);
                    a.push(b != 0);
                    proof {
                        assert(bytes@.subrange(i as int, i + 1)[0] == bytes@[i as int]);
                        assert(a@ =~= Seq::new(
                            (i + 1) as nat,
                            |j: int| sdec_bool(bytes@.subrange(j, j + 1)),
                        ));
                    }
                    i += 1;
                }
                v[row] = a;
                proof {
                    assert(self.data.cells() =~= c0.update(
                        row as int,
                        spec_decode_cell(k, fs, bytes@),
                    ));
                }
            },
            ColumnData::BitArr(v) => {
                let mut a: Vec<u8> = Vec::new();
                let mut i: usize = 0;
                while i < rep
                    invariant
                        i <= rep,
                        bytes@.len() == rep,
                        a@ =~= Seq::new(i as nat, |j: int| bytes@[j]),
                    decreases rep - i,
                {
                    let b = *slice_index_get(bytes, i);
                    a.push(b);
                    proof {
                        assert(a@ =~= Seq::new((i + 1) as nat, |j: int| bytes@[j]));
                    }
                    i += 1;
                }
                v[row] = a;
                proof {
                    assert(self.data.cells() =~= c0.update(
                        row as int,
                        spec_decode_cell(k, fs, bytes@),
                    ));
                }
            },
            ColumnData::ByteArr(v) => {
                let mut a: Vec<i8> = Vec::new();
                let mut i: usize = 0;
                while i < rep
                    invariant
                        i <= rep,
                        bytes@.len() == rep,
                        a@ =~= Seq::new(i as nat, |j: int| sdec_i8(bytes@.subrange(j, j + 1))),
                    decreases rep - i,
                {
                    let x = i8_from_be(slice_subrange(bytes, i, i + 1));
                    a.push(x);
                    proof {
                        assert(a@ =~= Seq::new(
                            (i + 1) as nat,
                            |j: int| sdec_i8(bytes@.subrange(j, j + 1)),
                        ));
                    }
                    i += 1;
                }
                v[row] = a;
                proof {
                    assert(self.data.cells() =~= c0.update(
                        row as int,
                        spec_decode_cell(k, fs, bytes@),
                    ));
                }
            },
            ColumnData::ShortArr(v) => {
                let mut a: Vec<i16> = Vec::new();
                let mut i: usize = 0;
                while i < rep
                    invariant
                        i <= rep,
                        rep <= usize::MAX / 2,
                        bytes@.len() == rep * 2,
                        a@ =~= Seq::new(
                            i as nat,
                            |j: int| sdec_i16(bytes@.subrange(j * 2, j * 2 + 2)),
                        ),
                    decreases rep - i,
                {
                    proof {
                        mul_in_range(i as nat, rep as nat, 2);
                    }
                    let x = i16_from_be(slice_subrange(bytes, i * 2, i * 2 + 2));
                    a.push(x);
                    proof {
                        assert(a@ =~= Seq::new(
                            (i + 1) as nat,
                            |j: int| sdec_i16(bytes@.subrange(j * 2, j * 2 + 2)),
                        ));
                    }
                    i += 1;
                }
                v[row] = a;
                proof {
                    assert(self.data.cells() =~= c0.update(
                        row as int,
                        spec_decode_cell(k, fs, bytes@),
                    ));
                }
            },
            ColumnData::IntArr(v) => {
                let mut a: Vec<i32> = Vec::new();
                let mut i: usize = 0;
                while i < rep
                    invariant
                        i <= rep,
                        rep <= usize::MAX / 4,
                        bytes@.len() == rep * 4,
                        a@ =~= Seq::new(
                            i as nat,
                            |j: int| sdec_i32(bytes@.subrange(j * 4, j * 4 + 4)),
                        ),
                    decreases rep - i,
                {
                    proof {
                        mul_in_range(i as nat, rep as nat, 4);
                    }
                    let x = i32_from_be(slice_subrange(bytes, i * 4, i * 4 + 4));
                    a.push(x);
                    proof {
                        assert(a@ =~= Seq::new(
                            (i + 1) as nat,
                            |j: int| sdec_i32(bytes@.subrange(j * 4, j * 4 + 4)),
                        ));
                    }
                    i += 1;
                }
                v[row] = a;
                proof {
                    assert(self.data.cells() =~= c0.update(
                        row as int,
                        spec_decode_cell(k, fs, bytes@),
                    ));
                }
            },
            ColumnData::LongArr(v) => {
                let mut a: Vec<i64> = Vec::new();
                let mut i: usize = 0;
                while i < rep
                    invariant
                        i <= rep,
                        rep <= usize::MAX / 8,
                        bytes@.len() == rep * 8,
                        a@ =~= Seq::new(
                            i as nat,
                            |j: int| sdec_i64(bytes@.subrange(j * 8, j * 8 + 8)),
                        ),
                    decreases rep - i,
                {
                    proof {
                        mul_in_range(i as nat, rep as nat, 8);
                    }
                    let x = i64_from_be(slice_subrange(bytes, i * 8, i * 8 + 8));
                    a.push(x);
                    proof {
                        assert(a@ =~= Seq::new(
                            (i + 1) as nat,
                            |j: int| sdec_i64(bytes@.subrange(j * 8, j * 8 + 8)),
                        ));
                    }
                    i += 1;
                }
                v[row] = a;
                proof {
                    assert(self.data.cells() =~= c0.update(
                        row as int,
                        spec_decode_cell(k, fs, bytes@),
                    ));
                }
            },
            ColumnData::FloatArr(v) => {
                let mut a: Vec<u32> = Vec::new();
                let mut i: usize = 0;
                while i < rep
                    invariant
                        i <= rep,
                        rep <= usize::MAX / 4,
                        bytes@.len() == rep * 4,
                        a@ =~= Seq::new(
                            i as nat,
                            |j: int| sdec_u32(bytes@.subrange(j * 4, j * 4 + 4)),
                        ),
                    decreases rep - i,
                {
                    proof {
                        mul_in_range(i as nat, rep as nat, 4);
                    }
                    let x = u32_from_be(slice_subrange(bytes, i * 4, i * 4 + 4));
                    a.push(x);
                    proof {
                        assert(a@ =~= Seq::new(
                            (i + 1) as nat,
                            |j: int| sdec_u32(bytes@.subrange(j * 4, j * 4 + 4)),
                        ));
                    }
                    i += 1;
                }
                v[row] = a;
                proof {
                    assert(self.data.cells() =~= c0.update(
                        row as int,
                        spec_decode_cell(k, fs, bytes@),
                    ));
                }
            },
            ColumnData::DoubleArr(v) => {
                let mut a: Vec<u64> = Vec::new();
                let mut i: usize = 0;
                while i < rep
                    invariant
                        i <= rep,
                        rep <= usize::MAX / 8,
                        bytes@.len() == rep * 8,
                        a@ =~= Seq::new(
                            i as nat,
                            |j: int| sdec_u64(bytes@.subrange(j * 8, j * 8 + 8)),
                        ),
                    decreases rep - i,
                {
                    proof {
                        mul_in_range(i as nat, rep as nat, 8);
                    }
                    let x = u64_from_be(slice_subrange(bytes, i * 8, i * 8 + 8));
                    a.push(x);
                    proof {
                        assert(a@ =~= Seq::new(
                            (i + 1) as nat,
                            |j: int| sdec_u64(bytes@.subrange(j * 8, j * 8 + 8)),
                        ));
                    }
                    i += 1;
                }
                v[row] = a;
                proof {
                    assert(self.data.cells() =~= c0.update(
                        row as int,
                        spec_decode_cell(k, fs, bytes@),
                    ));
                }
            },
            ColumnData::Desc(v) => {
                let is_p = match self.fspec.type_code {
                    TypeCode::ArrayDescriptor32 => true,
                    _ => false,
                };
                if is_p {
                    let cnt = u32_from_be(slice_subrange(bytes, 0, 4));
                    let off = u32_from_be(slice_subrange(bytes, 4, 8));
                    v[row] = (cnt as u64, off as u64);
                } else {
                    let cnt = u64_from_be(slice_subrange(bytes, 0, 8));
                    let off = u64_from_be(slice_subrange(bytes, 8, 16));
                    v[row] = (cnt, off);
                }
                proof {
                    assert(self.data.cells() =~= c0.update(
                        row as int,
                        spec_decode_cell(k, fs, bytes@),
                    ));
                }
            },
        }
        Ok(())
    }
}

/// `i < rep` keeps `i * w` and `(i + 1) * w` within `rep * w`.
pub(crate) proof fn mul_in_range(i: nat, rep: nat, w: nat)
    requires
        i < rep,
    ensures
        i * w + w <= rep * w,
        i * w <= rep * w,
{
    assert(i * w + w <= rep * w) by (nonlinear_arith)
        requires
            i < rep,
    {
    }
    assert(i * w <= i * w + w);
}

/// `a <= b` keeps `a * w` within `b * w`.
pub(crate) proof fn mul_in_range2(a: nat, b: nat, w: nat)
    requires
        a <= b,
    ensures
        a * w <= b * w,
{
    assert(a * w <= b * w) by (nonlinear_arith)
        requires
            a <= b,
            w >= 0,
    {
    }
}

/// Copies `t` without its trailing spaces only.
pub fn trim_end_spaces(t: &[u8]) -> (r: Vec<u8>)
    ensures
        r@ == crate::ascii::spec_trim_end(t@),
{
    let n = t.len();
    let mut hi: usize = n;
    loop
        invariant
            hi <= n,
            n == t@.len(),
            forall|j: int| hi <= j < n ==> t@[j] == 0x20,
        ensures
            hi <= n,
            forall|j: int| hi <= j < n ==> t@[j] == 0x20,
            hi > 0 ==> t@[hi - 1] != 0x20,
        decreases hi,
    {
        if hi == 0 {
            break;
        }
        if *slice_index_get(t, hi - 1) != 0x20 {
            break;
        }
        hi -= 1;
    }
    proof {
        lemma_trim_end_char(t@, hi as int);
        assert(t@.take(hi as int) =~= t@.subrange(0, hi as int));
    }
    let mid = slice_subrange(t, 0, hi);
    vstd::slice::slice_to_vec(mid)
}

proof fn lemma_trim_end_char(t: Seq<u8>, hi: int)
    requires
        0 <= hi <= t.len(),
        forall|j: int| hi <= j < t.len() ==> t[j] == 0x20,
        hi > 0 ==> t[hi - 1] != 0x20,
    ensures
        crate::ascii::spec_trim_end(t) == t.take(hi),
    decreases t.len(),
{
    if hi == t.len() {
        assert(t.take(hi) =~= t);
    } else {
        assert(t.last() == 0x20);
        lemma_trim_end_char(t.drop_last(), hi);
        assert(t.drop_last().take(hi) =~= t.take(hi));
    }
}


impl ColumnBuffer {
    /// Moves another buffer's rows onto the end of this one, keeping row
    /// order: this buffer's rows first, then the other's.
    #[verifier::rlimit(100)]
    pub fn append_from(&mut self, other: ColumnBuffer)
        requires
            old(self).wf(),
            other.wf(),
            old(self).kind == other.kind,
            old(self).fspec == other.fspec,
        ensures
            final(self).wf(),
            final(self).kind == old(self).kind,
            final(self).fspec == old(self).fspec,
            final(self).col_index == old(self).col_index,
            final(self).cells() == old(self).cells() + other.cells(),
    {
        let ghost c0 = self.data.cells();
        let ghost c1 = other.data.cells();
        match (&mut self.data, other.data) {
            (ColumnData::Logical(a), ColumnData::Logical(mut b)) => a.append(&mut b),
            (ColumnData::Bit(a), ColumnData::Bit(mut b)) => a.append(&mut b),
            (ColumnData::Byte(a), ColumnData::Byte(mut b)) => a.append(&mut b),
            (ColumnData::Short(a), ColumnData::Short(mut b)) => a.append(&mut b),
            (ColumnData::Int(a), ColumnData::Int(mut b)) => a.append(&mut b),
            (ColumnData::Long(a), ColumnData::Long(mut b)) => a.append(&mut b),
            (ColumnData::Float(a), ColumnData::Float(mut b)) => a.append(&mut b),
            (ColumnData::Double(a), ColumnData::Double(mut b)) => a.append(&mut b),
            (ColumnData::Complex(a), ColumnData::Complex(mut b)) => a.append(&mut b),
            (ColumnData::DComplex(a), ColumnData::DComplex(mut b)) => a.append(&mut b),
            (ColumnData::Text(a), ColumnData::Text(mut b)) => a.append(&mut b),
            (ColumnData::LogicalArr(a), ColumnData::LogicalArr(mut b)) => a.append(&mut b),
            (ColumnData::BitArr(a), ColumnData::BitArr(mut b)) => a.append(&mut b),
            (ColumnData::ByteArr(a), ColumnData::ByteArr(mut b)) => a.append(&mut b),
            (ColumnData::ShortArr(a), ColumnData::ShortArr(mut b)) => a.append(&mut b),
            (ColumnData::IntArr(a), ColumnData::IntArr(mut b)) => a.append(&mut b),
            (ColumnData::LongArr(a), ColumnData::LongArr(mut b)) => a.append(&mut b),
            (ColumnData::FloatArr(a), ColumnData::FloatArr(mut b)) => a.append(&mut b),
            (ColumnData::DoubleArr(a), ColumnData::DoubleArr(mut b)) => a.append(&mut b),
            (ColumnData::Desc(a), ColumnData::Desc(mut b)) => a.append(&mut b),
            _ => {
                proof {
                    assert(false);
                }
            },
        }
        proof {
            assert(self.data.cells() =~= c0 + c1);
        }
    }

    /// Hands the finished cells out under the column's name.
    pub fn into_typed_column(self, name: String) -> (r: TypedColumn)
        ensures
            r.name == name,
            r.data == self.data,
    {
        TypedColumn { name, data: self.data }
    }
}

/// Encodes the cell at `row` of a column into its on-disk bytes.
///
/// Succeeds exactly when the cell is encodable under the format: a text
/// cell longer than its field, an array row with the wrong element count,
/// or a 32-bit descriptor whose halves need more than 32 bits are a
/// `LayoutMismatch` whose two numbers name the planned and the actual
/// size.
#[verifier::rlimit(100)]
pub fn encode_cell(kind: TableKind, fs: &FormatSpec, data: &ColumnData, row: usize) -> (r: Result<
    Vec<u8>,
    FitsError,
>)
    requires
        spec_wf_format(kind, *fs),
        spec_storage_of(kind, *fs) == Some(data.class()),
        row < data.cells().len(),
    ensures
        match r {
            Ok(b) => {
                &&& spec_cell_encodable(kind, *fs, data.cells()[row as int])
                &&& b@ == spec_encode_cell(kind, *fs, data.cells()[row as int])
                &&& b@.len() == fs.cell_width
            },
            Err(e) => {
                &&& !spec_cell_encodable(kind, *fs, data.cells()[row as int])
                &&& e is LayoutMismatch
            },
        },
{
    let ghost cell = data.cells()[row as int];
    let rep = fs.repeat_count;
    let w = fs.cell_width;
    let is_ascii = match kind {
        TableKind::Ascii => true,
        TableKind::Binary => false,
    };
    let out: Vec<u8> = match data {
        ColumnData::Logical(v) => {
            let mut b: Vec<u8> = Vec::new();
            if v[row] {
                b.push(1);
            } else {
                b.push(0);
            }
            proof {
                assert(b@ =~= crate::cell::senc_bool(v@[row as int]));
            }
            b
        },
        ColumnData::Bit(v) => {
            let mut b: Vec<u8> = Vec::new();
            b.push(v[row]);
            proof {
                assert(b@ =~= seq![v@[row as int]]);
            }
            b
        },
        ColumnData::Byte(v) => crate::wire::i8_to_be(v[row]),
        ColumnData::Short(v) => crate::wire::i16_to_be(v[row]),
        ColumnData::Int(v) => {
            if is_ascii {
                let digits = crate::ascii::format_i64(v[row] as i64);
                if digits.len() > w {
                    return Err(FitsError::LayoutMismatch { expected: w, got: digits.len() });
                }
                crate::ascii::right_justify(&digits, w)
            } else {
                crate::wire::i32_to_be(v[row])
            }
        },
        ColumnData::Long(v) => crate::wire::i64_to_be(v[row]),
        ColumnData::Float(v) => crate::wire::u32_to_be(v[row]),
        ColumnData::Double(v) => crate::wire::u64_to_be(v[row]),
        ColumnData::Complex(v) => {
            let p = v[row];
            let mut b = crate::wire::u32_to_be(p.0);
            let mut b2 = crate::wire::u32_to_be(p.1);
            b.append(&mut b2);
            b
        },
        ColumnData::DComplex(v) => {
            let p = v[row];
            let mut b = crate::wire::u64_to_be(p.0);
            let mut b2 = crate::wire::u64_to_be(p.1);
            b.append(&mut b2);
            b
        },
        ColumnData::Text(v) => {
            let t = &v[row];
            if t.len() > w {
                return Err(FitsError::LayoutMismatch { expected: w, got: t.len() });
            }
            let is_numeric_text = match fs.type_code {
                TypeCode::Float32Text | TypeCode::Float64Text => true,
                _ => false,
            };
            if is_ascii && is_numeric_text {
                crate::ascii::right_justify(t, w)
            } else {
                crate::ascii::left_justify(t, w)
            }
        },
        ColumnData::LogicalArr(v) => {
            let a = &v[row];
            if a.len() != rep {
                return Err(FitsError::LayoutMismatch { expected: rep, got: a.len() });
            }
            let ghost g = |k: int| crate::cell::senc_bool(a@[k]);
            let mut b: Vec<u8> = Vec::new();
            let mut i: usize = 0;
            while i < rep
                invariant
                    i <= rep,
                    a@.len() == rep,
                    b@ =~= crate::cell::spec_cat(i as nat, |k: int| crate::cell::senc_bool(a@[k])),
                decreases rep - i,
            {
                if a[i] {
                    b.push(1);
                } else {
                    b.push(0);
                }
                proof {
                    assert(b@ =~= crate::cell::spec_cat(
                        (i + 1) as nat,
                        |k: int| crate::cell::senc_bool(a@[k]),
                    ));
                }
                i += 1;
            }
            b
        },
        ColumnData::BitArr(v) => {
            let a = &v[row];
            if a.len() != rep {
                return Err(FitsError::LayoutMismatch { expected: rep, got: a.len() });
            }
            let mut b: Vec<u8> = Vec::new();
            let mut i: usize = 0;
            while i < rep
                invariant
                    i <= rep,
                    a@.len() == rep,
                    b@ =~= crate::cell::spec_cat(i as nat, |k: int| seq![a@[k]]),
                decreases rep - i,
            {
                b.push(a[i]);
                proof {
                    assert(b@ =~= crate::cell::spec_cat((i + 1) as nat, |k: int| seq![a@[k]]));
                }
                i += 1;
            }
            b
        },
        ColumnData::ByteArr(v) => {
            let a = &v[row];
            if a.len() != rep {
                return Err(FitsError::LayoutMismatch { expected: rep, got: a.len() });
            }
            let mut b: Vec<u8> = Vec::new();
            let mut i: usize = 0;
            while i < rep
                invariant
                    i <= rep,
                    a@.len() == rep,
                    b@ =~= crate::cell::spec_cat(i as nat, |k: int| crate::cell::senc_i8(a@[k])),
                decreases rep - i,
            {
                let mut eb = crate::wire::i8_to_be(a[i]);
                b.append(&mut eb);
                proof {
                    assert(b@ =~= crate::cell::spec_cat(
                        (i + 1) as nat,
                        |k: int| crate::cell::senc_i8(a@[k]),
                    ));
                }
                i += 1;
            }
            b
        },
        ColumnData::ShortArr(v) => {
            let a = &v[row];
            if a.len() != rep {
                return Err(FitsError::LayoutMismatch { expected: rep, got: a.len() });
            }
            let mut b: Vec<u8> = Vec::new();
            let mut i: usize = 0;
            while i < rep
                invariant
                    i <= rep,
                    a@.len() == rep,
                    b@ =~= crate::cell::spec_cat(i as nat, |k: int| crate::cell::senc_i16(a@[k])),
                decreases rep - i,
            {
                let mut eb = crate::wire::i16_to_be(a[i]);
                b.append(&mut eb);
                proof {
                    assert(b@ =~= crate::cell::spec_cat(
                        (i + 1) as nat,
                        |k: int| crate::cell::senc_i16(a@[k]),
                    ));
                }
                i += 1;
            }
            b
        },
        ColumnData::IntArr(v) => {
            let a = &v[row];
            if a.len() != rep {
                return Err(FitsError::LayoutMismatch { expected: rep, got: a.len() });
            }
            let mut b: Vec<u8> = Vec::new();
            let mut i: usize = 0;
            while i < rep
                invariant
                    i <= rep,
                    a@.len() == rep,
                    b@ =~= crate::cell::spec_cat(i as nat, |k: int| crate::cell::senc_i32(a@[k])),
                decreases rep - i,
            {
                let mut eb = crate::wire::i32_to_be(a[i]);
                b.append(&mut eb);
                proof {
                    assert(b@ =~= crate::cell::spec_cat(
                        (i + 1) as nat,
                        |k: int| crate::cell::senc_i32(a@[k]),
                    ));
                }
                i += 1;
            }
            b
        },
        ColumnData::LongArr(v) => {
            let a = &v[row];
            if a.len() != rep {
                return Err(FitsError::LayoutMismatch { expected: rep, got: a.len() });
            }
            let mut b: Vec<u8> = Vec::new();
            let mut i: usize = 0;
            while i < rep
                invariant
                    i <= rep,
                    a@.len() == rep,
                    b@ =~= crate::cell::spec_cat(i as nat, |k: int| crate::cell::senc_i64(a@[k])),
                decreases rep - i,
            {
                let mut eb = crate::wire::i64_to_be(a[i]);
                b.append(&mut eb);
                proof {
                    assert(b@ =~= crate::cell::spec_cat(
                        (i + 1) as nat,
                        |k: int| crate::cell::senc_i64(a@[k]),
                    ));
                }
                i += 1;
            }
            b
        },
        ColumnData::FloatArr(v) => {
            let a = &v[row];
            if a.len() != rep {
                return Err(FitsError::LayoutMismatch { expected: rep, got: a.len() });
            }
            let mut b: Vec<u8> = Vec::new();
            let mut i: usize = 0;
            while i < rep
                invariant
                    i <= rep,
                    a@.len() == rep,
                    b@ =~= crate::cell::spec_cat(i as nat, |k: int| crate::cell::senc_u32(a@[k])),
                decreases rep - i,
            {
                let mut eb = crate::wire::u32_to_be(a[i]);
                b.append(&mut eb);
                proof {
                    assert(b@ =~= crate::cell::spec_cat(
                        (i + 1) as nat,
                        |k: int| crate::cell::senc_u32(a@[k]),
                    ));
                }
                i += 1;
            }
            b
        },
        ColumnData::DoubleArr(v) => {
            let a = &v[row];
            if a.len() != rep {
                return Err(FitsError::LayoutMismatch { expected: rep, got: a.len() });
            }
            let mut b: Vec<u8> = Vec::new();
            let mut i: usize = 0;
            while i < rep
                invariant
                    i <= rep,
                    a@.len() == rep,
                    b@ =~= crate::cell::spec_cat(i as nat, |k: int| crate::cell::senc_u64(a@[k])),
                decreases rep - i,
            {
                let mut eb = crate::wire::u64_to_be(a[i]);
                b.append(&mut eb);
                proof {
                    assert(b@ =~= crate::cell::spec_cat(
                        (i + 1) as nat,
                        |k: int| crate::cell::senc_u64(a@[k]),
                    ));
                }
                i += 1;
            }
            b
        },
        ColumnData::Desc(v) => {
            let p = v[row];
            let is_p = match fs.type_code {
                TypeCode::ArrayDescriptor32 => true,
                _ => false,
            };
            if is_p {
                if p.0 > u32::MAX as u64 || p.1 > u32::MAX as u64 {
                    return Err(FitsError::LayoutMismatch { expected: 4, got: 8 });
                }
                let mut b = crate::wire::u32_to_be(p.0 as u32);
                let mut b2 = crate::wire::u32_to_be(p.1 as u32);
                b.append(&mut b2);
                b
            } else {
                let mut b = crate::wire::u64_to_be(p.0);
                let mut b2 = crate::wire::u64_to_be(p.1);
                b.append(&mut b2);
                b
            }
        },
    };
    proof {
        crate::cell::lemma_encode_cell_len(kind, *fs, cell);
    }
    Ok(out)
}


fn resolve_rows_bool(heap: &[u8], descs: &Vec<(u64, u64)>) -> (r: Vec<Vec<bool>>)
    requires
        forall|i: int|
            0 <= i < descs@.len() ==> (#[trigger] descs@[i]).1 + descs@[i].0 * 1 <= heap@.len(),
    ensures
        r@.len() == descs@.len(),
        forall|i: int|
            0 <= i < descs@.len() ==> {
                let o2 = (#[trigger] descs@[i]).1 as int;
                r@[i]@ == Seq::new(descs@[i].0 as nat, |k2: int| sdec_bool(heap@.subrange(o2 + k2, o2 + k2 + 1)))
            },
{
    let hl = heap.len();
    let n = descs.len();
    let mut r: Vec<Vec<bool>> = Vec::new();
    let mut i: usize = 0;
    while i < n
        invariant
            i <= n,
            n == descs@.len(),
            hl == heap@.len(),
            r@.len() == i,
            forall|i2: int|
                0 <= i2 < n ==> (#[trigger] descs@[i2]).1 + descs@[i2].0 * 1 <= heap@.len(),
            forall|i2: int|
                0 <= i2 < i ==> {
                    let o2 = (#[trigger] descs@[i2]).1 as int;
                    r@[i2]@ == Seq::new(descs@[i2].0 as nat, |k2: int| sdec_bool(heap@.subrange(o2 + k2, o2 + k2 + 1)))
                },
        decreases n - i,
    {
        let d = descs[i];
        proof {
            assert(descs@[i as int].1 + descs@[i as int].0 * 1 <= heap@.len());
            assert(d.0 * 1 <= heap@.len());
            assert(d.0 <= hl && d.1 <= hl);
        }
        let cnt = d.0 as usize;
        let off = d.1 as usize;
        let ghost o = off as int;
        let mut a: Vec<bool> = Vec::new();
        let mut k: usize = 0;
        while k < cnt
            invariant
                k <= cnt,
                hl == heap@.len(),
                off + cnt * 1 <= hl,
                a@ =~= Seq::new(k as nat, |k2: int| sdec_bool(heap@.subrange(o + k2, o + k2 + 1))),
                o == off as int,
            decreases cnt - k,
        {
            let b0 = *slice_index_get(heap, off + k);
            let x = b0 != 0;
            a.push(x);
            proof {
                assert(a@ =~= Seq::new((k + 1) as nat, |k2: int| sdec_bool(heap@.subrange(o + k2, o + k2 + 1))));
            }
            k += 1;
        }
        proof {
            let o2 = descs@[i as int].1 as int;
            assert(o == o2);
            assert(a@ =~= Seq::new(descs@[i as int].0 as nat, |k2: int| sdec_bool(heap@.subrange(o2 + k2, o2 + k2 + 1))));
        }
        r.push(a);
        i += 1;
    }
    r
}

fn resolve_rows_u8(heap: &[u8], descs: &Vec<(u64, u64)>) -> (r: Vec<Vec<u8>>)
    requires
        forall|i: int|
            0 <= i < descs@.len() ==> (#[trigger] descs@[i]).1 + descs@[i].0 * 1 <= heap@.len(),
    ensures
        r@.len() == descs@.len(),
        forall|i: int|
            0 <= i < descs@.len() ==> {
                let o2 = (#[trigger] descs@[i]).1 as int;
                r@[i]@ == Seq::new(descs@[i].0 as nat, |k2: int| heap@[o2 + k2])
            },
{
    let hl = heap.len();
    let n = descs.len();
    let mut r: Vec<Vec<u8>> = Vec::new();
    let mut i: usize = 0;
    while i < n
        invariant
            i <= n,
            n == descs@.len(),
            hl == heap@.len(),
            r@.len() == i,
            forall|i2: int|
                0 <= i2 < n ==> (#[trigger] descs@[i2]).1 + descs@[i2].0 * 1 <= heap@.len(),
            forall|i2: int|
                0 <= i2 < i ==> {
                    let o2 = (#[trigger] descs@[i2]).1 as int;
                    r@[i2]@ == Seq::new(descs@[i2].0 as nat, |k2: int| heap@[o2 + k2])
                },
        decreases n - i,
    {
        let d = descs[i];
        proof {
            assert(descs@[i as int].1 + descs@[i as int].0 * 1 <= heap@.len());
            assert(d.0 * 1 <= heap@.len());
            assert(d.0 <= hl && d.1 <= hl);
        }
        let cnt = d.0 as usize;
        let off = d.1 as usize;
        let ghost o = off as int;
        let mut a: Vec<u8> = Vec::new();
        let mut k: usize = 0;
        while k < cnt
            invariant
                k <= cnt,
                hl == heap@.len(),
                off + cnt * 1 <= hl,
                a@ =~= Seq::new(k as nat, |k2: int| heap@[o + k2]),
                o == off as int,
            decreases cnt - k,
        {
            let x = *slice_index_get(heap, off + k);
            a.push(x);
            proof {
                assert(a@ =~= Seq::new((k + 1) as nat, |k2: int| heap@[o + k2]));
            }
            k += 1;
        }
        proof {
            let o2 = descs@[i as int].1 as int;
            assert(o == o2);
            assert(a@ =~= Seq::new(descs@[i as int].0 as nat, |k2: int| heap@[o2 + k2]));
        }
        r.push(a);
        i += 1;
    }
    r
}

fn resolve_rows_i8(heap: &[u8], descs: &Vec<(u64, u64)>) -> (r: Vec<Vec<i8>>)
    requires
        forall|i: int|
            0 <= i < descs@.len() ==> (#[trigger] descs@[i]).1 + descs@[i].0 * 1 <= heap@.len(),
    ensures
        r@.len() == descs@.len(),
        forall|i: int|
            0 <= i < descs@.len() ==> {
                let o2 = (#[trigger] descs@[i]).1 as int;
                r@[i]@ == Seq::new(descs@[i].0 as nat, |k2: int| sdec_i8(heap@.subrange(o2 + k2, o2 + k2 + 1)))
            },
{
    let hl = heap.len();
    let n = descs.len();
    let mut r: Vec<Vec<i8>> = Vec::new();
    let mut i: usize = 0;
    while i < n
        invariant
            i <= n,
            n == descs@.len(),
            hl == heap@.len(),
            r@.len() == i,
            forall|i2: int|
                0 <= i2 < n ==> (#[trigger] descs@[i2]).1 + descs@[i2].0 * 1 <= heap@.len(),
            forall|i2: int|
                0 <= i2 < i ==> {
                    let o2 = (#[trigger] descs@[i2]).1 as int;
                    r@[i2]@ == Seq::new(descs@[i2].0 as nat, |k2: int| sdec_i8(heap@.subrange(o2 + k2, o2 + k2 + 1)))
                },
        decreases n - i,
    {
        let d = descs[i];
        proof {
            assert(descs@[i as int].1 + descs@[i as int].0 * 1 <= heap@.len());
            assert(d.0 * 1 <= heap@.len());
            assert(d.0 <= hl && d.1 <= hl);
        }
        let cnt = d.0 as usize;
        let off = d.1 as usize;
        let ghost o = off as int;
        let mut a: Vec<i8> = Vec::new();
        let mut k: usize = 0;
        while k < cnt
            invariant
                k <= cnt,
                hl == heap@.len(),
                off + cnt * 1 <= hl,
                a@ =~= Seq::new(k as nat, |k2: int| sdec_i8(heap@.subrange(o + k2, o + k2 + 1))),
                o == off as int,
            decreases cnt - k,
        {
            let x = i8_from_be(slice_subrange(heap, off + k, off + k + 1));
            a.push(x);
            proof {
                assert(a@ =~= Seq::new((k + 1) as nat, |k2: int| sdec_i8(heap@.subrange(o + k2, o + k2 + 1))));
            }
            k += 1;
        }
        proof {
            let o2 = descs@[i as int].1 as int;
            assert(o == o2);
            assert(a@ =~= Seq::new(descs@[i as int].0 as nat, |k2: int| sdec_i8(heap@.subrange(o2 + k2, o2 + k2 + 1))));
        }
        r.push(a);
        i += 1;
    }
    r
}

fn resolve_rows_i16(heap: &[u8], descs: &Vec<(u64, u64)>) -> (r: Vec<Vec<i16>>)
    requires
        forall|i: int|
            0 <= i < descs@.len() ==> (#[trigger] descs@[i]).1 + descs@[i].0 * 2 <= heap@.len(),
    ensures
        r@.len() == descs@.len(),
        forall|i: int|
            0 <= i < descs@.len() ==> {
                let o2 = (#[trigger] descs@[i]).1 as int;
                r@[i]@ == Seq::new(descs@[i].0 as nat, |k2: int| sdec_i16(heap@.subrange(o2 + k2 * 2, o2 + k2 * 2 + 2)))
            },
{
    let hl = heap.len();
    let n = descs.len();
    let mut r: Vec<Vec<i16>> = Vec::new();
    let mut i: usize = 0;
    while i < n
        invariant
            i <= n,
            n == descs@.len(),
            hl == heap@.len(),
            r@.len() == i,
            forall|i2: int|
                0 <= i2 < n ==> (#[trigger] descs@[i2]).1 + descs@[i2].0 * 2 <= heap@.len(),
            forall|i2: int|
                0 <= i2 < i ==> {
                    let o2 = (#[trigger] descs@[i2]).1 as int;
                    r@[i2]@ == Seq::new(descs@[i2].0 as nat, |k2: int| sdec_i16(heap@.subrange(o2 + k2 * 2, o2 + k2 * 2 + 2)))
                },
        decreases n - i,
    {
        let d = descs[i];
        proof {
            assert(descs@[i as int].1 + descs@[i as int].0 * 2 <= heap@.len());
            assert(d.0 * 2 <= heap@.len());
            assert(d.0 <= hl && d.1 <= hl);
        }
        let cnt = d.0 as usize;
        let off = d.1 as usize;
        let ghost o = off as int;
        let mut a: Vec<i16> = Vec::new();
        let mut k: usize = 0;
        while k < cnt
            invariant
                k <= cnt,
                hl == heap@.len(),
                off + cnt * 2 <= hl,
                a@ =~= Seq::new(k as nat, |k2: int| sdec_i16(heap@.subrange(o + k2 * 2, o + k2 * 2 + 2))),
                o == off as int,
            decreases cnt - k,
        {
            proof {
                mul_in_range(k as nat, cnt as nat, 2);
            }
            let x = i16_from_be(slice_subrange(heap, off + k * 2, off + k * 2 + 2));
            a.push(x);
            proof {
                assert(a@ =~= Seq::new((k + 1) as nat, |k2: int| sdec_i16(heap@.subrange(o + k2 * 2, o + k2 * 2 + 2))));
            }
            k += 1;
        }
        proof {
            let o2 = descs@[i as int].1 as int;
            assert(o == o2);
            assert(a@ =~= Seq::new(descs@[i as int].0 as nat, |k2: int| sdec_i16(heap@.subrange(o2 + k2 * 2, o2 + k2 * 2 + 2))));
        }
        r.push(a);
        i += 1;
    }
    r
}

fn resolve_rows_i32(heap: &[u8], descs: &Vec<(u64, u64)>) -> (r: Vec<Vec<i32>>)
    requires
        forall|i: int|
            0 <= i < descs@.len() ==> (#[trigger] descs@[i]).1 + descs@[i].0 * 4 <= heap@.len(),
    ensures
        r@.len() == descs@.len(),
        forall|i: int|
            0 <= i < descs@.len() ==> {
                let o2 = (#[trigger] descs@[i]).1 as int;
                r@[i]@ == Seq::new(descs@[i].0 as nat, |k2: int| sdec_i32(heap@.subrange(o2 + k2 * 4, o2 + k2 * 4 + 4)))
            },
{
    let hl = heap.len();
    let n = descs.len();
    let mut r: Vec<Vec<i32>> = Vec::new();
    let mut i: usize = 0;
    while i < n
        invariant
            i <= n,
            n == descs@.len(),
            hl == heap@.len(),
            r@.len() == i,
            forall|i2: int|
                0 <= i2 < n ==> (#[trigger] descs@[i2]).1 + descs@[i2].0 * 4 <= heap@.len(),
            forall|i2: int|
                0 <= i2 < i ==> {
                    let o2 = (#[trigger] descs@[i2]).1 as int;
                    r@[i2]@ == Seq::new(descs@[i2].0 as nat, |k2: int| sdec_i32(heap@.subrange(o2 + k2 * 4, o2 + k2 * 4 + 4)))
                },
        decreases n - i,
    {
        let d = descs[i];
        proof {
            assert(descs@[i as int].1 + descs@[i as int].0 * 4 <= heap@.len());
            assert(d.0 * 4 <= heap@.len());
            assert(d.0 <= hl && d.1 <= hl);
        }
        let cnt = d.0 as usize;
        let off = d.1 as usize;
        let ghost o = off as int;
        let mut a: Vec<i32> = Vec::new();
        let mut k: usize = 0;
        while k < cnt
            invariant
                k <= cnt,
                hl == heap@.len(),
                off + cnt * 4 <= hl,
                a@ =~= Seq::new(k as nat, |k2: int| sdec_i32(heap@.subrange(o + k2 * 4, o + k2 * 4 + 4))),
                o == off as int,
            decreases cnt - k,
        {
            proof {
                mul_in_range(k as nat, cnt as nat, 4);
            }
            let x = i32_from_be(slice_subrange(heap, off + k * 4, off + k * 4 + 4));
            a.push(x);
            proof {
                assert(a@ =~= Seq::new((k + 1) as nat, |k2: int| sdec_i32(heap@.subrange(o + k2 * 4, o + k2 * 4 + 4))));
            }
            k += 1;
        }
        proof {
            let o2 = descs@[i as int].1 as int;
            assert(o == o2);
            assert(a@ =~= Seq::new(descs@[i as int].0 as nat, |k2: int| sdec_i32(heap@.subrange(o2 + k2 * 4, o2 + k2 * 4 + 4))));
        }
        r.push(a);
        i += 1;
    }
    r
}

fn resolve_rows_i64(heap: &[u8], descs: &Vec<(u64, u64)>) -> (r: Vec<Vec<i64>>)
    requires
        forall|i: int|
            0 <= i < descs@.len() ==> (#[trigger] descs@[i]).1 + descs@[i].0 * 8 <= heap@.len(),
    ensures
        r@.len() == descs@.len(),
        forall|i: int|
            0 <= i < descs@.len() ==> {
                let o2 = (#[trigger] descs@[i]).1 as int;
                r@[i]@ == Seq::new(descs@[i].0 as nat, |k2: int| sdec_i64(heap@.subrange(o2 + k2 * 8, o2 + k2 * 8 + 8)))
            },
{
    let hl = heap.len();
    let n = descs.len();
    let mut r: Vec<Vec<i64>> = Vec::new();
    let mut i: usize = 0;
    while i < n
        invariant
            i <= n,
            n == descs@.len(),
            hl == heap@.len(),
            r@.len() == i,
            forall|i2: int|
                0 <= i2 < n ==> (#[trigger] descs@[i2]).1 + descs@[i2].0 * 8 <= heap@.len(),
            forall|i2: int|
                0 <= i2 < i ==> {
                    let o2 = (#[trigger] descs@[i2]).1 as int;
                    r@[i2]@ == Seq::new(descs@[i2].0 as nat, |k2: int| sdec_i64(heap@.subrange(o2 + k2 * 8, o2 + k2 * 8 + 8)))
                },
        decreases n - i,
    {
        let d = descs[i];
        proof {
            assert(descs@[i as int].1 + descs@[i as int].0 * 8 <= heap@.len());
            assert(d.0 * 8 <= heap@.len());
            assert(d.0 <= hl && d.1 <= hl);
        }
        let cnt = d.0 as usize;
        let off = d.1 as usize;
        let ghost o = off as int;
        let mut a: Vec<i64> = Vec::new();
        let mut k: usize = 0;
        while k < cnt
            invariant
                k <= cnt,
                hl == heap@.len(),
                off + cnt * 8 <= hl,
                a@ =~= Seq::new(k as nat, |k2: int| sdec_i64(heap@.subrange(o + k2 * 8, o + k2 * 8 + 8))),
                o == off as int,
            decreases cnt - k,
        {
            proof {
                mul_in_range(k as nat, cnt as nat, 8);
            }
            let x = i64_from_be(slice_subrange(heap, off + k * 8, off + k * 8 + 8));
            a.push(x);
            proof {
                assert(a@ =~= Seq::new((k + 1) as nat, |k2: int| sdec_i64(heap@.subrange(o + k2 * 8, o + k2 * 8 + 8))));
            }
            k += 1;
        }
        proof {
            let o2 = descs@[i as int].1 as int;
            assert(o == o2);
            assert(a@ =~= Seq::new(descs@[i as int].0 as nat, |k2: int| sdec_i64(heap@.subrange(o2 + k2 * 8, o2 + k2 * 8 + 8))));
        }
        r.push(a);
        i += 1;
    }
    r
}

fn resolve_rows_u32(heap: &[u8], descs: &Vec<(u64, u64)>) -> (r: Vec<Vec<u32>>)
    requires
        forall|i: int|
            0 <= i < descs@.len() ==> (#[trigger] descs@[i]).1 + descs@[i].0 * 4 <= heap@.len(),
    ensures
        r@.len() == descs@.len(),
        forall|i: int|
            0 <= i < descs@.len() ==> {
                let o2 = (#[trigger] descs@[i]).1 as int;
                r@[i]@ == Seq::new(descs@[i].0 as nat, |k2: int| sdec_u32(heap@.subrange(o2 + k2 * 4, o2 + k2 * 4 + 4)))
            },
{
    let hl = heap.len();
    let n = descs.len();
    let mut r: Vec<Vec<u32>> = Vec::new();
    let mut i: usize = 0;
    while i < n
        invariant
            i <= n,
            n == descs@.len(),
            hl == heap@.len(),
            r@.len() == i,
            forall|i2: int|
                0 <= i2 < n ==> (#[trigger] descs@[i2]).1 + descs@[i2].0 * 4 <= heap@.len(),
            forall|i2: int|
                0 <= i2 < i ==> {
                    let o2 = (#[trigger] descs@[i2]).1 as int;
                    r@[i2]@ == Seq::new(descs@[i2].0 as nat, |k2: int| sdec_u32(heap@.subrange(o2 + k2 * 4, o2 + k2 * 4 + 4)))
                },
        decreases n - i,
    {
        let d = descs[i];
        proof {
            assert(descs@[i as int].1 + descs@[i as int].0 * 4 <= heap@.len());
            assert(d.0 * 4 <= heap@.len());
            assert(d.0 <= hl && d.1 <= hl);
        }
        let cnt = d.0 as usize;
        let off = d.1 as usize;
        let ghost o = off as int;
        let mut a: Vec<u32> = Vec::new();
        let mut k: usize = 0;
        while k < cnt
            invariant
                k <= cnt,
                hl == heap@.len(),
                off + cnt * 4 <= hl,
                a@ =~= Seq::new(k as nat, |k2: int| sdec_u32(heap@.subrange(o + k2 * 4, o + k2 * 4 + 4))),
                o == off as int,
            decreases cnt - k,
        {
            proof {
                mul_in_range(k as nat, cnt as nat, 4);
            }
            let x = u32_from_be(slice_subrange(heap, off + k * 4, off + k * 4 + 4));
            a.push(x);
            proof {
                assert(a@ =~= Seq::new((k + 1) as nat, |k2: int| sdec_u32(heap@.subrange(o + k2 * 4, o + k2 * 4 + 4))));
            }
            k += 1;
        }
        proof {
            let o2 = descs@[i as int].1 as int;
            assert(o == o2);
            assert(a@ =~= Seq::new(descs@[i as int].0 as nat, |k2: int| sdec_u32(heap@.subrange(o2 + k2 * 4, o2 + k2 * 4 + 4))));
        }
        r.push(a);
        i += 1;
    }
    r
}

fn resolve_rows_u64(heap: &[u8], descs: &Vec<(u64, u64)>) -> (r: Vec<Vec<u64>>)
    requires
        forall|i: int|
            0 <= i < descs@.len() ==> (#[trigger] descs@[i]).1 + descs@[i].0 * 8 <= heap@.len(),
    ensures
        r@.len() == descs@.len(),
        forall|i: int|
            0 <= i < descs@.len() ==> {
                let o2 = (#[trigger] descs@[i]).1 as int;
                r@[i]@ == Seq::new(descs@[i].0 as nat, |k2: int| sdec_u64(heap@.subrange(o2 + k2 * 8, o2 + k2 * 8 + 8)))
            },
{
    let hl = heap.len();
    let n = descs.len();
    let mut r: Vec<Vec<u64>> = Vec::new();
    let mut i: usize = 0;
    while i < n
        invariant
            i <= n,
            n == descs@.len(),
            hl == heap@.len(),
            r@.len() == i,
            forall|i2: int|
                0 <= i2 < n ==> (#[trigger] descs@[i2]).1 + descs@[i2].0 * 8 <= heap@.len(),
            forall|i2: int|
                0 <= i2 < i ==> {
                    let o2 = (#[trigger] descs@[i2]).1 as int;
                    r@[i2]@ == Seq::new(descs@[i2].0 as nat, |k2: int| sdec_u64(heap@.subrange(o2 + k2 * 8, o2 + k2 * 8 + 8)))
                },
        decreases n - i,
    {
        let d = descs[i];
        proof {
            assert(descs@[i as int].1 + descs@[i as int].0 * 8 <= heap@.len());
            assert(d.0 * 8 <= heap@.len());
            assert(d.0 <= hl && d.1 <= hl);
        }
        let cnt = d.0 as usize;
        let off = d.1 as usize;
        let ghost o = off as int;
        let mut a: Vec<u64> = Vec::new();
        let mut k: usize = 0;
        while k < cnt
            invariant
                k <= cnt,
                hl == heap@.len(),
                off + cnt * 8 <= hl,
                a@ =~= Seq::new(k as nat, |k2: int| sdec_u64(heap@.subrange(o + k2 * 8, o + k2 * 8 + 8))),
                o == off as int,
            decreases cnt - k,
        {
            proof {
                mul_in_range(k as nat, cnt as nat, 8);
            }
            let x = u64_from_be(slice_subrange(heap, off + k * 8, off + k * 8 + 8));
            a.push(x);
            proof {
                assert(a@ =~= Seq::new((k + 1) as nat, |k2: int| sdec_u64(heap@.subrange(o + k2 * 8, o + k2 * 8 + 8))));
            }
            k += 1;
        }
        proof {
            let o2 = descs@[i as int].1 as int;
            assert(o == o2);
            assert(a@ =~= Seq::new(descs@[i as int].0 as nat, |k2: int| sdec_u64(heap@.subrange(o2 + k2 * 8, o2 + k2 * 8 + 8))));
        }
        r.push(a);
        i += 1;
    }
    r
}

fn resolve_rows_text(heap: &[u8], descs: &Vec<(u64, u64)>) -> (r: Vec<Vec<u8>>)
    requires
        forall|i: int|
            0 <= i < descs@.len() ==> (#[trigger] descs@[i]).1 + descs@[i].0 * 1 <= heap@.len(),
    ensures
        r@.len() == descs@.len(),
        forall|i: int|
            0 <= i < descs@.len() ==> {
                let o = (#[trigger] descs@[i]).1 as int;
                r@[i]@ == heap@.subrange(o, o + descs@[i].0 as int)
            },
{
    let hl = heap.len();
    let n = descs.len();
    let mut r: Vec<Vec<u8>> = Vec::new();
    let mut i: usize = 0;
    while i < n
        invariant
            i <= n,
            n == descs@.len(),
            hl == heap@.len(),
            r@.len() == i,
            forall|i2: int|
                0 <= i2 < n ==> (#[trigger] descs@[i2]).1 + descs@[i2].0 * 1 <= heap@.len(),
            forall|i2: int|
                0 <= i2 < i ==> {
                    let o = (#[trigger] descs@[i2]).1 as int;
                    r@[i2]@ == heap@.subrange(o, o + descs@[i2].0 as int)
                },
        decreases n - i,
    {
        let d = descs[i];
        proof {
            assert(descs@[i as int].1 + descs@[i as int].0 * 1 <= heap@.len());
        }
        let cnt = d.0 as usize;
        let off = d.1 as usize;
        let piece = slice_subrange(heap, off, off + cnt);
        let a = vstd::slice::slice_to_vec(piece);
        r.push(a);
        i += 1;
    }
    r
}

/// `a <= b / c` says exactly that `a * c <= b` (`c` positive).
pub(crate) proof fn lemma_div_mul_le(a: nat, b: nat, c: nat)
    requires
        c > 0,
    ensures
        (a <= b / c) <==> (a * c <= b),
{
    let q = b / c;
    let r0 = b % c;
    vstd::arithmetic::div_mod::lemma_fundamental_div_mod(b as int, c as int);
    assert(b == c * q + r0);
    if a <= q {
        assert(a * c <= q * c) by (nonlinear_arith)
            requires
                a <= q,
                c > 0nat,
        {
        }
        assert(q * c == c * q) by (nonlinear_arith);
    }
    if a * c <= b && a > q {
        assert(a * c >= (q + 1) * c) by (nonlinear_arith)
            requires
                a >= q + 1,
                c > 0nat,
        {
        }
        assert((q + 1) * c == c * q + c) by (nonlinear_arith);
        assert(false);
    }
}

impl ColumnBuffer {
    /// Resolves a variable-length column against the heap region:
    /// replaces each `(count, offset)` descriptor with the `count`
    /// elements it points at.  On any column that holds no descriptors
    /// this does nothing.
    ///
    /// Fails with `UnsupportedType` when the element type behind the
    /// descriptor has no array shape here (a complex element), and with
    /// `TruncatedBuffer` when some descriptor reaches past the end of the
    /// heap; the buffer is untouched on failure.
    #[verifier::rlimit(100)]
    pub fn resolve_heap(&mut self, heap: &[u8]) -> (r: Result<(), FitsError>)
        requires
            old(self).wf(),
        ensures
            final(self).kind == old(self).kind,
            final(self).fspec == old(self).fspec,
            final(self).col_index == old(self).col_index,
            final(self).cells().len() == old(self).cells().len(),
            match r {
                Ok(()) => {
                    &&& (!(old(self).data is Desc) ==> *final(self) == *old(self))
                    &&& (old(self).data is Desc ==> {
                        let elem = old(self).fspec.heap_elem.unwrap();
                        &&& spec_resolve_elem_class(elem) is Some
                        &&& forall|i: int|
                            0 <= i < old(self).cells().len() ==> spec_desc_in_bounds(
                                elem,
                                heap@.len(),
                                #[trigger] old(self).cells()[i],
                            )
                        &&& final(self).cells() == Seq::new(
                            old(self).cells().len(),
                            |i: int| spec_resolve_cell(elem, heap@, old(self).cells()[i]),
                        )
                        &&& Some(final(self).data.class()) == spec_resolve_elem_class(elem)
                    })
                },
                Err(e) => {
                    &&& *final(self) == *old(self)
                    &&& old(self).data is Desc
                    &&& {
                        let elem = old(self).fspec.heap_elem.unwrap();
                        ||| (e == FitsError::UnsupportedType && spec_resolve_elem_class(elem)
                            is None)
                        ||| (e is TruncatedBuffer && !(forall|i: int|
                            0 <= i < old(self).cells().len() ==> spec_desc_in_bounds(
                                elem,
                                heap@.len(),
                                #[trigger] old(self).cells()[i],
                            )))
                    }
                },
            },
    {
        let descs: &Vec<(u64, u64)> = match &self.data {
            ColumnData::Desc(v) => v,
            _ => {
                return Ok(());
            },
        };
        let elem = match self.fspec.heap_elem {
            Some(e) => e,
            None => {
                proof {
                    assert(false);
                }
                return Err(FitsError::UnsupportedType);
            },
        };
        let ew = elem.element_width();
        let supported = match elem {
            TypeCode::Logical | TypeCode::Bit | TypeCode::Byte | TypeCode::Short | TypeCode::Int32
                | TypeCode::Int64 | TypeCode::Float32 | TypeCode::Float64 | TypeCode::Char => true,
            _ => false,
        };
        if !supported {
            return Err(FitsError::UnsupportedType);
        }
        // bounds pass
        let n = descs.len();
        let hl = heap.len();
        let mut i: usize = 0;
        let mut bad = false;
        let mut need: usize = 0;
        while i < n
            invariant
                i <= n,
                n == descs@.len(),
                hl == heap@.len(),
                ew == crate::format::spec_element_width(elem),
                ew >= 1,
                !bad ==> forall|j: int|
                    0 <= j < i ==> (#[trigger] descs@[j]).1 + descs@[j].0 * ew <= hl,
                bad ==> exists|j: int|
                    0 <= j < i && (#[trigger] descs@[j]).1 + descs@[j].0 * ew > hl,
            decreases n - i,
        {
            if !bad {
                let d = descs[i];
                let mut out_of_range = false;
                if d.1 > hl as u64 {
                    out_of_range = true;
                    proof {
                        assert(descs@[i as int].1 + descs@[i as int].0 * ew >= descs@[i as int].1
                            > hl);
                    }
                } else {
                    let room = (hl as u64) - d.1;
                    if d.0 > room / (ew as u64) {
                        out_of_range = true;
                        proof {
                            lemma_div_mul_le(d.0 as nat, room as nat, ew as nat);
                        }
                    } else {
                        proof {
                            lemma_div_mul_le(d.0 as nat, room as nat, ew as nat);
                        }
                    }
                }
                if out_of_range {
                    bad = true;
                }
            }
            i += 1;
        }
        if bad {
            proof {
                let j = choose|j: int|
                    0 <= j < n && (#[trigger] descs@[j]).1 + descs@[j].0 * ew > hl;
                assert(self.cells()[j] == CellV::Desc(descs@[j].0, descs@[j].1));
                assert(!spec_desc_in_bounds(elem, heap@.len(), self.cells()[j]));
            }
            return Err(FitsError::TruncatedBuffer { expected: usize::MAX, got: hl });
        }
        proof {
            assert forall|i2: int| 0 <= i2 < self.cells().len() implies spec_desc_in_bounds(
                elem,
                heap@.len(),
                #[trigger] self.cells()[i2],
            ) by {
                assert(self.cells()[i2] == CellV::Desc(descs@[i2].0, descs@[i2].1));
            }
        }
        let ghost c0 = self.data.cells();
        let new_data = match elem {
            TypeCode::Logical => ColumnData::LogicalArr(resolve_rows_bool(heap, descs)),
            TypeCode::Bit => ColumnData::BitArr(resolve_rows_u8(heap, descs)),
            TypeCode::Byte => ColumnData::ByteArr(resolve_rows_i8(heap, descs)),
            TypeCode::Short => ColumnData::ShortArr(resolve_rows_i16(heap, descs)),
            TypeCode::Int32 => ColumnData::IntArr(resolve_rows_i32(heap, descs)),
            TypeCode::Int64 => ColumnData::LongArr(resolve_rows_i64(heap, descs)),
            TypeCode::Float32 => ColumnData::FloatArr(resolve_rows_u32(heap, descs)),
            TypeCode::Float64 => ColumnData::DoubleArr(resolve_rows_u64(heap, descs)),
            TypeCode::Char => ColumnData::Text(resolve_rows_text(heap, descs)),
            _ => {
                proof {
                    assert(false);
                }
                return Err(FitsError::UnsupportedType);
            },
        };
        proof {
            assert(new_data.cells() =~= Seq::new(
                c0.len(),
                |i: int| spec_resolve_cell(elem, heap@, c0[i]),
            ));
        }
        self.data = new_data;
        Ok(())
    }
}


/// Formats one value as a fixed-width ASCII table field: numerics stand
/// right-justified, strings left-justified, both space-padded to the
/// declared width.  A value that does not fit its field is a
/// `LayoutMismatch`; nothing is ever truncated silently.
pub fn format_field(value: &CellValue, format: &FormatSpec) -> (r: Result<Vec<u8>, FitsError>)
    requires
        crate::format::spec_wf_ascii(*format),
    ensures
        match r {
            Ok(b) => {
                &&& spec_cell_encodable(TableKind::Ascii, *format, value@)
                &&& b@ == spec_encode_cell(TableKind::Ascii, *format, value@)
                &&& b@.len() == format.cell_width
            },
            Err(e) => {
                &&& !spec_cell_encodable(TableKind::Ascii, *format, value@)
                &&& e is LayoutMismatch
            },
        },
{
    let w = format.cell_width;
    match value {
        CellValue::Int(x) => {
            let is_int_field = match format.type_code {
                TypeCode::Int32 => true,
                _ => false,
            };
            if !is_int_field {
                return Err(FitsError::LayoutMismatch { expected: w, got: w });
            }
            let digits = crate::ascii::format_i64(*x as i64);
            if digits.len() > w {
                return Err(FitsError::LayoutMismatch { expected: w, got: digits.len() });
            }
            let out = crate::ascii::right_justify(&digits, w);
            proof {
                crate::cell::lemma_encode_cell_len(TableKind::Ascii, *format, value@);
            }
            Ok(out)
        },
        CellValue::Text(t) => {
            let class_ok = match format.type_code {
                TypeCode::Float32Text | TypeCode::Float64Text | TypeCode::CharText => true,
                _ => false,
            };
            if !class_ok {
                return Err(FitsError::LayoutMismatch { expected: w, got: w });
            }
            if t.len() > w {
                return Err(FitsError::LayoutMismatch { expected: w, got: t.len() });
            }
            let numeric = match format.type_code {
                TypeCode::Float32Text | TypeCode::Float64Text => true,
                _ => false,
            };
            let out = if numeric {
                crate::ascii::right_justify(t, w)
            } else {
                crate::ascii::left_justify(t, w)
            };
            Ok(out)
        },
        _ => Err(FitsError::LayoutMismatch { expected: w, got: w }),
    }
}

/// Parses one fixed-width ASCII table field back into a value: integers
/// are trimmed and read in decimal, text fields are trimmed.  `None`
/// exactly when an integer field holds no integer in range.
pub fn parse_field(text: &[u8], format: &FormatSpec) -> (r: Option<CellValue>)
    requires
        crate::format::spec_wf_ascii(*format),
    ensures
        match r {
            Some(v) => {
                &&& spec_cell_parse_ok(TableKind::Ascii, *format, text@)
                &&& v@ == spec_decode_cell(TableKind::Ascii, *format, text@)
            },
            None => !spec_cell_parse_ok(TableKind::Ascii, *format, text@),
        },
{
    match format.type_code {
        TypeCode::Int32 => {
            let big = match parse_int_text(text) {
                Some(b) => b,
                None => {
                    return None;
                },
            };
            if big < -0x8000_0000i64 || big > 0x7fff_ffffi64 {
                return None;
            }
            Some(CellValue::Int(big as i32))
        },
        _ => {
            let t = trim_spaces(text);
            Some(CellValue::Text(t))
        },
    }
}

} // verus!
