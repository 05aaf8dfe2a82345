//! Cell values and the per-cell byte codec.
//!
//! A cell is the crossing of one row and one column.  Its shape follows
//! the column's format: a scalar, a fixed-length array, a character
//! field, or a variable-length array descriptor.  Floating-point cells
//! carry their IEEE-754 bit patterns (`u32`/`u64`), which keeps every
//! conversion bit-exact and the whole codec inside integer arithmetic.

use vstd::prelude::*;
use crate::format::FormatSpec;
use crate::format::TableKind;
use crate::format::TypeCode;
use crate::format::spec_wf_format;
use crate::format::spec_element_width;
use crate::wire::be_to_nat;
use crate::wire::nat_to_be;
use crate::wire::to_signed;
use crate::wire::from_signed;
use crate::ascii::spec_trim;
use crate::ascii::spec_trim_end;
use crate::ascii::spec_right_justify;
use crate::ascii::spec_left_justify;
use crate::ascii::spec_int_text;
use crate::ascii::spec_parse_int_text;

verus! {

/// The mathematical value of one cell.
///
/// `Text` holds the trimmed character bytes of a character field, and of
/// an ASCII table's floating-point field, whose digits travel as text.
/// `Float`/`Double` are IEEE-754 bit patterns.  `Desc` is a
/// variable-length descriptor `(element count, heap byte offset)`.
pub enum CellV {
    Logical(bool),
    Bit(u8),
    Byte(i8),
    Short(i16),
    Int(i32),
    Long(i64),
    Float(u32),
    Double(u64),
    Complex(u32, u32),
    DComplex(u64, u64),
    Text(Seq<u8>),
    LogicalArr(Seq<bool>),
    BitArr(Seq<u8>),
    ByteArr(Seq<i8>),
    ShortArr(Seq<i16>),
    IntArr(Seq<i32>),
    LongArr(Seq<i64>),
    FloatArr(Seq<u32>),
    DoubleArr(Seq<u64>),
    Desc(u64, u64),
}

/// One decoded cell, as executable code passes it around.
#[derive(Debug, Clone, PartialEq)]
pub enum CellValue {
    Logical(bool),
    Bit(u8),
    Byte(i8),
    Short(i16),
    Int(i32),
    Long(i64),
    Float(u32),
    Double(u64),
    Complex(u32, u32),
    DComplex(u64, u64),
    Text(Vec<u8>),
    LogicalArr(Vec<bool>),
    BitArr(Vec<u8>),
    ByteArr(Vec<i8>),
    ShortArr(Vec<i16>),
    IntArr(Vec<i32>),
    LongArr(Vec<i64>),
    FloatArr(Vec<u32>),
    DoubleArr(Vec<u64>),
    Desc(u64, u64),
}

impl View for CellValue {
    type V = CellV;

    open spec fn view(&self) -> CellV {
        match self {
            CellValue::Logical(x) => CellV::Logical(*x),
            CellValue::Bit(x) => CellV::Bit(*x),
            CellValue::Byte(x) => CellV::Byte(*x),
            CellValue::Short(x) => CellV::Short(*x),
            CellValue::Int(x) => CellV::Int(*x),
            CellValue::Long(x) => CellV::Long(*x),
            CellValue::Float(x) => CellV::Float(*x),
            CellValue::Double(x) => CellV::Double(*x),
            CellValue::Complex(a, b) => CellV::Complex(*a, *b),
            CellValue::DComplex(a, b) => CellV::DComplex(*a, *b),
            CellValue::Text(v) => CellV::Text(v@),
            CellValue::LogicalArr(v) => CellV::LogicalArr(v@),
            CellValue::BitArr(v) => CellV::BitArr(v@),
            CellValue::ByteArr(v) => CellV::ByteArr(v@),
            CellValue::ShortArr(v) => CellV::ShortArr(v@),
            CellValue::IntArr(v) => CellV::IntArr(v@),
            CellValue::LongArr(v) => CellV::LongArr(v@),
            CellValue::FloatArr(v) => CellV::FloatArr(v@),
            CellValue::DoubleArr(v) => CellV::DoubleArr(v@),
            CellValue::Desc(c, o) => CellV::Desc(*c, *o),
        }
    }
}

/// How a column stores its decoded cells: one homogeneous vector,
/// matching the column's cell shape.
#[derive(Debug, Clone, PartialEq)]
pub enum ColumnData {
    Logical(Vec<bool>),
    Bit(Vec<u8>),
    Byte(Vec<i8>),
    Short(Vec<i16>),
    Int(Vec<i32>),
    Long(Vec<i64>),
    Float(Vec<u32>),
    Double(Vec<u64>),
    Complex(Vec<(u32, u32)>),
    DComplex(Vec<(u64, u64)>),
    Text(Vec<Vec<u8>>),
    LogicalArr(Vec<Vec<bool>>),
    BitArr(Vec<Vec<u8>>),
    ByteArr(Vec<Vec<i8>>),
    ShortArr(Vec<Vec<i16>>),
    IntArr(Vec<Vec<i32>>),
    LongArr(Vec<Vec<i64>>),
    FloatArr(Vec<Vec<u32>>),
    DoubleArr(Vec<Vec<u64>>),
    Desc(Vec<(u64, u64)>),
}

impl ColumnData {
    /// The column's cells, in row order.
    pub open spec fn cells(self) -> Seq<CellV> {
        match self {
            ColumnData::Logical(v) => v@.map(|i: int, x: bool| CellV::Logical(x)),
            ColumnData::Bit(v) => v@.map(|i: int, x: u8| CellV::Bit(x)),
            ColumnData::Byte(v) => v@.map(|i: int, x: i8| CellV::Byte(x)),
            ColumnData::Short(v) => v@.map(|i: int, x: i16| CellV::Short(x)),
            ColumnData::Int(v) => v@.map(|i: int, x: i32| CellV::Int(x)),
            ColumnData::Long(v) => v@.map(|i: int, x: i64| CellV::Long(x)),
            ColumnData::Float(v) => v@.map(|i: int, x: u32| CellV::Float(x)),
            ColumnData::Double(v) => v@.map(|i: int, x: u64| CellV::Double(x)),
            ColumnData::Complex(v) => v@.map(|i: int, x: (u32, u32)| CellV::Complex(x.0, x.1)),
            ColumnData::DComplex(v) => v@.map(|i: int, x: (u64, u64)| CellV::DComplex(x.0, x.1)),
            ColumnData::Text(v) => v@.map(|i: int, x: Vec<u8>| CellV::Text(x@)),
            ColumnData::LogicalArr(v) => v@.map(|i: int, x: Vec<bool>| CellV::LogicalArr(x@)),
            ColumnData::BitArr(v) => v@.map(|i: int, x: Vec<u8>| CellV::BitArr(x@)),
            ColumnData::ByteArr(v) => v@.map(|i: int, x: Vec<i8>| CellV::ByteArr(x@)),
            ColumnData::ShortArr(v) => v@.map(|i: int, x: Vec<i16>| CellV::ShortArr(x@)),
            ColumnData::IntArr(v) => v@.map(|i: int, x: Vec<i32>| CellV::IntArr(x@)),
            ColumnData::LongArr(v) => v@.map(|i: int, x: Vec<i64>| CellV::LongArr(x@)),
            ColumnData::FloatArr(v) => v@.map(|i: int, x: Vec<u32>| CellV::FloatArr(x@)),
            ColumnData::DoubleArr(v) => v@.map(|i: int, x: Vec<u64>| CellV::DoubleArr(x@)),
            ColumnData::Desc(v) => v@.map(|i: int, x: (u64, u64)| CellV::Desc(x.0, x.1)),
        }
    }

    /// Number of rows stored.
    pub open spec fn spec_len(self) -> nat {
        self.cells().len()
    }
}

/// The tag of a `ColumnData` variant: which storage shape a column uses.
#[derive(Clone, Copy, Debug, PartialEq, Eq, Structural)]
pub enum StorageClass {
    Logical,
    Bit,
    Byte,
    Short,
    Int,
    Long,
    Float,
    Double,
    Complex,
    DComplex,
    Text,
    LogicalArr,
    BitArr,
    ByteArr,
    ShortArr,
    IntArr,
    LongArr,
    FloatArr,
    DoubleArr,
    Desc,
}

impl ColumnData {
    /// The variant tag of this store.
    pub open spec fn class(self) -> StorageClass {
        match self {
            ColumnData::Logical(_) => StorageClass::Logical,
            ColumnData::Bit(_) => StorageClass::Bit,
            ColumnData::Byte(_) => StorageClass::Byte,
            ColumnData::Short(_) => StorageClass::Short,
            ColumnData::Int(_) => StorageClass::Int,
            ColumnData::Long(_) => StorageClass::Long,
            ColumnData::Float(_) => StorageClass::Float,
            ColumnData::Double(_) => StorageClass::Double,
            ColumnData::Complex(_) => StorageClass::Complex,
            ColumnData::DComplex(_) => StorageClass::DComplex,
            ColumnData::Text(_) => StorageClass::Text,
            ColumnData::LogicalArr(_) => StorageClass::LogicalArr,
            ColumnData::BitArr(_) => StorageClass::BitArr,
            ColumnData::ByteArr(_) => StorageClass::ByteArr,
            ColumnData::ShortArr(_) => StorageClass::ShortArr,
            ColumnData::IntArr(_) => StorageClass::IntArr,
            ColumnData::LongArr(_) => StorageClass::LongArr,
            ColumnData::FloatArr(_) => StorageClass::FloatArr,
            ColumnData::DoubleArr(_) => StorageClass::DoubleArr,
            ColumnData::Desc(_) => StorageClass::Desc,
        }
    }
}

/// The storage shape a format demands.
///
/// `None` means the format names a recognized type whose shape this codec
/// does not implement (a repeated complex or repeated descriptor column).
pub open spec fn spec_storage_of(kind: TableKind, fs: FormatSpec) -> Option<StorageClass> {
    match kind {
        TableKind::Ascii => match fs.type_code {
            TypeCode::Int32 => Some(StorageClass::Int),
            TypeCode::Float32Text | TypeCode::Float64Text | TypeCode::CharText => Some(
                StorageClass::Text,
            ),
            _ => None,
        },
        TableKind::Binary => match fs.type_code {
            TypeCode::Char => Some(StorageClass::Text),
            TypeCode::Logical => {
                if fs.repeat_count == 1 {
                    Some(StorageClass::Logical)
                } else {
                    Some(StorageClass::LogicalArr)
                }
            },
            TypeCode::Bit => {
                if fs.repeat_count == 1 {
                    Some(StorageClass::Bit)
                } else {
                    Some(StorageClass::BitArr)
                }
            },
            TypeCode::Byte => {
                if fs.repeat_count == 1 {
                    Some(StorageClass::Byte)
                } else {
                    Some(StorageClass::ByteArr)
                }
            },
            TypeCode::Short => {
                if fs.repeat_count == 1 {
                    Some(StorageClass::Short)
                } else {
                    Some(StorageClass::ShortArr)
                }
            },
            TypeCode::Int32 => {
                if fs.repeat_count == 1 {
                    Some(StorageClass::Int)
                } else {
                    Some(StorageClass::IntArr)
                }
            },
            TypeCode::Int64 => {
                if fs.repeat_count == 1 {
                    Some(StorageClass::Long)
                } else {
                    Some(StorageClass::LongArr)
                }
            },
            TypeCode::Float32 => {
                if fs.repeat_count == 1 {
                    Some(StorageClass::Float)
                } else {
                    Some(StorageClass::FloatArr)
                }
            },
            TypeCode::Float64 => {
                if fs.repeat_count == 1 {
                    Some(StorageClass::Double)
                } else {
                    Some(StorageClass::DoubleArr)
                }
            },
            TypeCode::Complex64 | TypeCode::Complex128 => {
                if fs.repeat_count == 1 {
                    if fs.type_code is Complex64 {
                        Some(StorageClass::Complex)
                    } else {
                        Some(StorageClass::DComplex)
                    }
                } else {
                    None
                }
            },
            TypeCode::ArrayDescriptor32 | TypeCode::ArrayDescriptor64 => {
                if fs.repeat_count == 1 {
                    Some(StorageClass::Desc)
                } else {
                    None
                }
            },
            TypeCode::Float32Text | TypeCode::Float64Text | TypeCode::CharText => None,
        },
    }
}


/// Decode of one boolean element: any non-zero byte is true.
pub open spec fn sdec_bool(b: Seq<u8>) -> bool {
    b[0] != 0
}

/// Encode of one boolean element.
pub open spec fn senc_bool(x: bool) -> Seq<u8> {
    if x {
        seq![1u8]
    } else {
        seq![0u8]
    }
}

pub open spec fn sdec_i8(b: Seq<u8>) -> i8 {
    to_signed(b[0] as nat, 0x100) as i8
}

pub open spec fn senc_i8(x: i8) -> Seq<u8> {
    nat_to_be(from_signed(x as int, 0x100), 1)
}

pub open spec fn sdec_i16(b: Seq<u8>) -> i16 {
    to_signed(be_to_nat(b), 0x10000) as i16
}

pub open spec fn senc_i16(x: i16) -> Seq<u8> {
    nat_to_be(from_signed(x as int, 0x10000), 2)
}

pub open spec fn sdec_i32(b: Seq<u8>) -> i32 {
    to_signed(be_to_nat(b), 0x1_0000_0000) as i32
}

pub open spec fn senc_i32(x: i32) -> Seq<u8> {
    nat_to_be(from_signed(x as int, 0x1_0000_0000), 4)
}

pub open spec fn sdec_i64(b: Seq<u8>) -> i64 {
    to_signed(be_to_nat(b), 0x1_0000_0000_0000_0000) as i64
}

pub open spec fn senc_i64(x: i64) -> Seq<u8> {
    nat_to_be(from_signed(x as int, 0x1_0000_0000_0000_0000), 8)
}

pub open spec fn sdec_u32(b: Seq<u8>) -> u32 {
    be_to_nat(b) as u32
}

pub open spec fn senc_u32(x: u32) -> Seq<u8> {
    nat_to_be(x as nat, 4)
}

pub open spec fn sdec_u64(b: Seq<u8>) -> u64 {
    be_to_nat(b) as u64
}

pub open spec fn senc_u64(x: u64) -> Seq<u8> {
    nat_to_be(x as nat, 8)
}

/// `f(0) + f(1) + ... + f(n-1)`: the bytes of `n` consecutive elements.
pub open spec fn spec_cat(n: nat, f: spec_fn(int) -> Seq<u8>) -> Seq<u8>
    decreases n,
{
    if n == 0 {
        Seq::empty()
    } else {
        spec_cat((n - 1) as nat, f) + f(n - 1)
    }
}

pub proof fn lemma_cat_len(n: nat, f: spec_fn(int) -> Seq<u8>, w: nat)
    requires
        forall|k: int| 0 <= k < n ==> (#[trigger] f(k)).len() == w,
    ensures
        spec_cat(n, f).len() == n * w,
    decreases n,
{
    if n == 0 {
        assert(spec_cat(n, f).len() == 0);
        assert(n * w == 0) by (nonlinear_arith)
            requires
                n == 0,
        {
        }
    } else {
        lemma_cat_len((n - 1) as nat, f, w);
        assert(spec_cat(n, f) == spec_cat((n - 1) as nat, f) + f(n - 1));
        assert(f(n - 1).len() == w);
        assert(((n - 1) as nat) * w + w == n * w) by (nonlinear_arith)
            requires
                n >= 1,
        {
        }
    }
}

/// Slicing the concatenation at element `k` returns element `k`.
pub proof fn lemma_cat_slice(n: nat, f: spec_fn(int) -> Seq<u8>, w: nat, k: int)
    requires
        forall|j: int| 0 <= j < n ==> (#[trigger] f(j)).len() == w,
        0 <= k < n,
    ensures
        spec_cat(n, f).subrange(k * w, k * w + w as int) == f(k),
    decreases n,
{
    lemma_cat_len(n, f, w);
    lemma_cat_len((n - 1) as nat, f, w);
    if k == n - 1 {
        assert(k * w == (n - 1) * w) by (nonlinear_arith)
            requires
                k == n - 1,
        {
        }
        assert(spec_cat(n, f).subrange(k * w, k * w + w as int) =~= f(k));
    } else {
        lemma_cat_slice((n - 1) as nat, f, w, k);
        assert(k * w + w <= (n - 1) * w) by (nonlinear_arith)
            requires
                0 <= k < n - 1,
                w >= 0,
        {
        }
        assert(spec_cat(n, f).subrange(k * w, k * w + w as int) =~= spec_cat(
            (n - 1) as nat,
            f,
        ).subrange(k * w, k * w + w as int));
    }
}

/// Whether the bytes of one cell parse.  Binary cells always decode; an
/// ASCII integer field must hold a signed decimal in `i32` range.
pub open spec fn spec_cell_parse_ok(kind: TableKind, fs: FormatSpec, b: Seq<u8>) -> bool {
    if kind is Ascii && fs.type_code is Int32 {
        spec_parse_int_text(b) matches Some(v) && i32::MIN <= v <= i32::MAX
    } else {
        true
    }
}

/// The value of one cell's bytes (`b` must be `cell_width` long and, for
/// an ASCII integer, must parse).
pub open spec fn spec_decode_cell(kind: TableKind, fs: FormatSpec, b: Seq<u8>) -> CellV {
    let rep = fs.repeat_count as int;
    match spec_storage_of(kind, fs) {
        Some(StorageClass::Logical) => CellV::Logical(sdec_bool(b)),
        Some(StorageClass::Bit) => CellV::Bit(b[0]),
        Some(StorageClass::Byte) => CellV::Byte(sdec_i8(b)),
        Some(StorageClass::Short) => CellV::Short(sdec_i16(b)),
        Some(StorageClass::Int) => {
            if kind is Ascii {
                CellV::Int(spec_parse_int_text(b).unwrap() as i32)
            } else {
                CellV::Int(sdec_i32(b))
            }
        },
        Some(StorageClass::Long) => CellV::Long(sdec_i64(b)),
        Some(StorageClass::Float) => CellV::Float(sdec_u32(b)),
        Some(StorageClass::Double) => CellV::Double(sdec_u64(b)),
        Some(StorageClass::Complex) => CellV::Complex(
            sdec_u32(b.subrange(0, 4)),
            sdec_u32(b.subrange(4, 8)),
        ),
        Some(StorageClass::DComplex) => CellV::DComplex(
            sdec_u64(b.subrange(0, 8)),
            sdec_u64(b.subrange(8, 16)),
        ),
        Some(StorageClass::Text) => {
            if kind is Binary {
                CellV::Text(spec_trim_end(b))
            } else {
                CellV::Text(spec_trim(b))
            }
        },
        Some(StorageClass::LogicalArr) => CellV::LogicalArr(
            Seq::new(rep as nat, |k: int| sdec_bool(b.subrange(k, k + 1))),
        ),
        Some(StorageClass::BitArr) => CellV::BitArr(Seq::new(rep as nat, |k: int| b[k])),
        Some(StorageClass::ByteArr) => CellV::ByteArr(
            Seq::new(rep as nat, |k: int| sdec_i8(b.subrange(k, k + 1))),
        ),
        Some(StorageClass::ShortArr) => CellV::ShortArr(
            Seq::new(rep as nat, |k: int| sdec_i16(b.subrange(k * 2, k * 2 + 2))),
        ),
        Some(StorageClass::IntArr) => CellV::IntArr(
            Seq::new(rep as nat, |k: int| sdec_i32(b.subrange(k * 4, k * 4 + 4))),
        ),
        Some(StorageClass::LongArr) => CellV::LongArr(
            Seq::new(rep as nat, |k: int| sdec_i64(b.subrange(k * 8, k * 8 + 8))),
        ),
        Some(StorageClass::FloatArr) => CellV::FloatArr(
            Seq::new(rep as nat, |k: int| sdec_u32(b.subrange(k * 4, k * 4 + 4))),
        ),
        Some(StorageClass::DoubleArr) => CellV::DoubleArr(
            Seq::new(rep as nat, |k: int| sdec_u64(b.subrange(k * 8, k * 8 + 8))),
        ),
        Some(StorageClass::Desc) => {
            if fs.type_code is ArrayDescriptor32 {
                CellV::Desc(
                    be_to_nat(b.subrange(0, 4)) as u64,
                    be_to_nat(b.subrange(4, 8)) as u64,
                )
            } else {
                CellV::Desc(
                    be_to_nat(b.subrange(0, 8)) as u64,
                    be_to_nat(b.subrange(8, 16)) as u64,
                )
            }
        },
        None => CellV::Logical(false),
    }
}

/// Whether a cell value can be written under a format: the shapes agree,
/// arrays have exactly the declared element count, text fits its field
/// and sheds no characters to trimming, and descriptor halves fit their
/// on-disk width.
pub open spec fn spec_cell_valid(kind: TableKind, fs: FormatSpec, c: CellV) -> bool {
    match spec_storage_of(kind, fs) {
        None => false,
        Some(cl) => match c {
            CellV::Logical(_) => cl is Logical,
            CellV::Bit(_) => cl is Bit,
            CellV::Byte(_) => cl is Byte,
            CellV::Short(_) => cl is Short,
            CellV::Int(x) => cl is Int && (kind is Ascii ==> spec_int_text(x as int).len()
                <= fs.cell_width),
            CellV::Long(_) => cl is Long,
            CellV::Float(_) => cl is Float,
            CellV::Double(_) => cl is Double,
            CellV::Complex(_, _) => cl is Complex,
            CellV::DComplex(_, _) => cl is DComplex,
            CellV::Text(t) => cl is Text && t.len() <= fs.cell_width && (t.len() > 0 ==> t.last()
                != 0x20) && (kind is Ascii ==> (t.len() > 0 ==> t[0] != 0x20)),
            CellV::LogicalArr(v) => cl is LogicalArr && v.len() == fs.repeat_count,
            CellV::BitArr(v) => cl is BitArr && v.len() == fs.repeat_count,
            CellV::ByteArr(v) => cl is ByteArr && v.len() == fs.repeat_count,
            CellV::ShortArr(v) => cl is ShortArr && v.len() == fs.repeat_count,
            CellV::IntArr(v) => cl is IntArr && v.len() == fs.repeat_count,
            CellV::LongArr(v) => cl is LongArr && v.len() == fs.repeat_count,
            CellV::FloatArr(v) => cl is FloatArr && v.len() == fs.repeat_count,
            CellV::DoubleArr(v) => cl is DoubleArr && v.len() == fs.repeat_count,
            CellV::Desc(cnt, off) => cl is Desc && (fs.type_code is ArrayDescriptor32 ==> cnt
                <= u32::MAX && off <= u32::MAX),
        },
    }
}

/// The bytes of one cell value (`c` must be valid under the format).
pub open spec fn spec_encode_cell(kind: TableKind, fs: FormatSpec, c: CellV) -> Seq<u8> {
    match c {
        CellV::Logical(x) => senc_bool(x),
        CellV::Bit(x) => seq![x],
        CellV::Byte(x) => senc_i8(x),
        CellV::Short(x) => senc_i16(x),
        CellV::Int(x) => {
            if kind is Ascii {
                spec_right_justify(spec_int_text(x as int), fs.cell_width as nat)
            } else {
                senc_i32(x)
            }
        },
        CellV::Long(x) => senc_i64(x),
        CellV::Float(x) => senc_u32(x),
        CellV::Double(x) => senc_u64(x),
        CellV::Complex(a, b) => senc_u32(a) + senc_u32(b),
        CellV::DComplex(a, b) => senc_u64(a) + senc_u64(b),
        CellV::Text(t) => {
            if kind is Ascii && (fs.type_code is Float32Text || fs.type_code is Float64Text) {
                spec_right_justify(t, fs.cell_width as nat)
            } else {
                spec_left_justify(t, fs.cell_width as nat)
            }
        },
        CellV::LogicalArr(v) => spec_cat(v.len(), |k: int| senc_bool(v[k])),
        CellV::BitArr(v) => spec_cat(v.len(), |k: int| seq![v[k]]),
        CellV::ByteArr(v) => spec_cat(v.len(), |k: int| senc_i8(v[k])),
        CellV::ShortArr(v) => spec_cat(v.len(), |k: int| senc_i16(v[k])),
        CellV::IntArr(v) => spec_cat(v.len(), |k: int| senc_i32(v[k])),
        CellV::LongArr(v) => spec_cat(v.len(), |k: int| senc_i64(v[k])),
        CellV::FloatArr(v) => spec_cat(v.len(), |k: int| senc_u32(v[k])),
        CellV::DoubleArr(v) => spec_cat(v.len(), |k: int| senc_u64(v[k])),
        CellV::Desc(cnt, off) => {
            if fs.type_code is ArrayDescriptor32 {
                nat_to_be(cnt as nat, 4) + nat_to_be(off as nat, 4)
            } else {
                nat_to_be(cnt as nat, 8) + nat_to_be(off as nat, 8)
            }
        },
    }
}


pub proof fn lemma_rt_i8(x: i8)
    ensures
        senc_i8(x).len() == 1,
        sdec_i8(senc_i8(x)) == x,
{
    crate::wire::lemma_pow256_values();
    crate::wire::lemma_nat_to_be_len(from_signed(x as int, 0x100), 1);
    crate::wire::lemma_be_round_trip_nat(from_signed(x as int, 0x100), 1);
    crate::wire::lemma_signed_round_trip(x as int, 0x100);
}

pub proof fn lemma_rt_i16(x: i16)
    ensures
        senc_i16(x).len() == 2,
        sdec_i16(senc_i16(x)) == x,
{
    crate::wire::lemma_pow256_values();
    crate::wire::lemma_nat_to_be_len(from_signed(x as int, 0x10000), 2);
    crate::wire::lemma_be_round_trip_nat(from_signed(x as int, 0x10000), 2);
    crate::wire::lemma_signed_round_trip(x as int, 0x10000);
}

pub proof fn lemma_rt_i32(x: i32)
    ensures
        senc_i32(x).len() == 4,
        sdec_i32(senc_i32(x)) == x,
{
    crate::wire::lemma_pow256_values();
    crate::wire::lemma_nat_to_be_len(from_signed(x as int, 0x1_0000_0000), 4);
    crate::wire::lemma_be_round_trip_nat(from_signed(x as int, 0x1_0000_0000), 4);
    crate::wire::lemma_signed_round_trip(x as int, 0x1_0000_0000);
}

pub proof fn lemma_rt_i64(x: i64)
    ensures
        senc_i64(x).len() == 8,
        sdec_i64(senc_i64(x)) == x,
{
    crate::wire::lemma_pow256_values();
    crate::wire::lemma_nat_to_be_len(from_signed(x as int, 0x1_0000_0000_0000_0000), 8);
    crate::wire::lemma_be_round_trip_nat(from_signed(x as int, 0x1_0000_0000_0000_0000), 8);
    crate::wire::lemma_signed_round_trip(x as int, 0x1_0000_0000_0000_0000);
}

pub proof fn lemma_rt_u32(x: u32)
    ensures
        senc_u32(x).len() == 4,
        sdec_u32(senc_u32(x)) == x,
{
    crate::wire::lemma_pow256_values();
    crate::wire::lemma_nat_to_be_len(x as nat, 4);
    crate::wire::lemma_be_round_trip_nat(x as nat, 4);
}

pub proof fn lemma_rt_u64(x: u64)
    ensures
        senc_u64(x).len() == 8,
        sdec_u64(senc_u64(x)) == x,
{
    crate::wire::lemma_pow256_values();
    crate::wire::lemma_nat_to_be_len(x as nat, 8);
    crate::wire::lemma_be_round_trip_nat(x as nat, 8);
}

/// Encoding a valid cell yields exactly `cell_width` bytes, those bytes
/// parse, and decoding them returns the cell unchanged.  This is the
/// bit-for-bit round trip at the level of one cell.
#[verifier::rlimit(100)]
pub proof fn lemma_cell_round_trip(kind: TableKind, fs: FormatSpec, c: CellV)
    requires
        spec_wf_format(kind, fs),
        spec_cell_valid(kind, fs, c),
    ensures
        spec_encode_cell(kind, fs, c).len() == fs.cell_width,
        spec_cell_parse_ok(kind, fs, spec_encode_cell(kind, fs, c)),
        spec_decode_cell(kind, fs, spec_encode_cell(kind, fs, c)) == c,
{
    let e = spec_encode_cell(kind, fs, c);
    crate::wire::lemma_pow256_values();
    match c {
        CellV::Logical(x) => {
        },
        CellV::Bit(x) => {
        },
        CellV::Byte(x) => {
            lemma_rt_i8(x);
        },
        CellV::Short(x) => {
            lemma_rt_i16(x);
        },
        CellV::Int(x) => {
            if kind is Ascii {
                crate::ascii::lemma_int_field_round_trip(x as int, fs.cell_width as nat);
            } else {
                lemma_rt_i32(x);
            }
        },
        CellV::Long(x) => {
            lemma_rt_i64(x);
        },
        CellV::Float(x) => {
            lemma_rt_u32(x);
        },
        CellV::Double(x) => {
            lemma_rt_u64(x);
        },
        CellV::Complex(a, b) => {
            lemma_rt_u32(a);
            lemma_rt_u32(b);
            assert(e.subrange(0, 4) =~= senc_u32(a));
            assert(e.subrange(4, 8) =~= senc_u32(b));
        },
        CellV::DComplex(a, b) => {
            lemma_rt_u64(a);
            lemma_rt_u64(b);
            assert(e.subrange(0, 8) =~= senc_u64(a));
            assert(e.subrange(8, 16) =~= senc_u64(b));
        },
        CellV::Text(t) => {
            if kind is Binary {
                crate::ascii::lemma_trim_end_spaces_suffix(t, (fs.cell_width - t.len()) as nat);
                assert(spec_trim_end(t) == t);
            } else if fs.type_code is Float32Text || fs.type_code is Float64Text {
                crate::ascii::lemma_trim_right_justify(t, fs.cell_width as nat);
            } else {
                crate::ascii::lemma_trim_left_justify(t, fs.cell_width as nat);
            }
        },
        CellV::LogicalArr(v) => {
            let g = |k: int| senc_bool(v[k]);
            assert(forall|k: int| 0 <= k < v.len() ==> (#[trigger] g(k)).len() == 1);
            lemma_cat_len(v.len(), g, 1);
            let d = Seq::new(fs.repeat_count as nat, |k: int| sdec_bool(e.subrange(k, k + 1)));
            assert forall|k: int| 0 <= k < v.len() implies d[k] == v[k] by {
                lemma_cat_slice(v.len(), g, 1, k);
                assert(e.subrange(k * 1, k * 1 + 1) =~= e.subrange(k, k + 1));
            }
            assert(d =~= v);
        },
        CellV::BitArr(v) => {
            let g = |k: int| seq![v[k]];
            assert(forall|k: int| 0 <= k < v.len() ==> (#[trigger] g(k)).len() == 1);
            lemma_cat_len(v.len(), g, 1);
            let d = Seq::new(fs.repeat_count as nat, |k: int| e[k]);
            assert forall|k: int| 0 <= k < v.len() implies d[k] == v[k] by {
                lemma_cat_slice(v.len(), g, 1, k);
                assert(e.subrange(k * 1, k * 1 + 1) =~= e.subrange(k, k + 1));
                assert(e.subrange(k, k + 1)[0] == e[k]);
            }
            assert(d =~= v);
        },
        CellV::ByteArr(v) => {
            let g = |k: int| senc_i8(v[k]);
            assert forall|k: int| 0 <= k < v.len() implies (#[trigger] g(k)).len() == 1 by {
                lemma_rt_i8(v[k]);
            }
            lemma_cat_len(v.len(), g, 1);
            let d = Seq::new(fs.repeat_count as nat, |k: int| sdec_i8(e.subrange(k, k + 1)));
            assert forall|k: int| 0 <= k < v.len() implies d[k] == v[k] by {
                lemma_cat_slice(v.len(), g, 1, k);
                assert(e.subrange(k * 1, k * 1 + 1) =~= e.subrange(k, k + 1));
                lemma_rt_i8(v[k]);
            }
            assert(d =~= v);
        },
        CellV::ShortArr(v) => {
            let g = |k: int| senc_i16(v[k]);
            assert forall|k: int| 0 <= k < v.len() implies (#[trigger] g(k)).len() == 2 by {
                lemma_rt_i16(v[k]);
            }
            lemma_cat_len(v.len(), g, 2);
            let d = Seq::new(fs.repeat_count as nat, |k: int| sdec_i16(e.subrange(k * 2, k * 2 + 2)));
            assert forall|k: int| 0 <= k < v.len() implies d[k] == v[k] by {
                lemma_cat_slice(v.len(), g, 2, k);
                lemma_rt_i16(v[k]);
            }
            assert(d =~= v);
        },
        CellV::IntArr(v) => {
            let g = |k: int| senc_i32(v[k]);
            assert forall|k: int| 0 <= k < v.len() implies (#[trigger] g(k)).len() == 4 by {
                lemma_rt_i32(v[k]);
            }
            lemma_cat_len(v.len(), g, 4);
            let d = Seq::new(fs.repeat_count as nat, |k: int| sdec_i32(e.subrange(k * 4, k * 4 + 4)));
            assert forall|k: int| 0 <= k < v.len() implies d[k] == v[k] by {
                lemma_cat_slice(v.len(), g, 4, k);
                lemma_rt_i32(v[k]);
            }
            assert(d =~= v);
        },
        CellV::LongArr(v) => {
            let g = |k: int| senc_i64(v[k]);
            assert forall|k: int| 0 <= k < v.len() implies (#[trigger] g(k)).len() == 8 by {
                lemma_rt_i64(v[k]);
            }
            lemma_cat_len(v.len(), g, 8);
            let d = Seq::new(fs.repeat_count as nat, |k: int| sdec_i64(e.subrange(k * 8, k * 8 + 8)));
            assert forall|k: int| 0 <= k < v.len() implies d[k] == v[k] by {
                lemma_cat_slice(v.len(), g, 8, k);
                lemma_rt_i64(v[k]);
            }
            assert(d =~= v);
        },
        CellV::FloatArr(v) => {
            let g = |k: int| senc_u32(v[k]);
            assert forall|k: int| 0 <= k < v.len() implies (#[trigger] g(k)).len() == 4 by {
                lemma_rt_u32(v[k]);
            }
            lemma_cat_len(v.len(), g, 4);
            let d = Seq::new(fs.repeat_count as nat, |k: int| sdec_u32(e.subrange(k * 4, k * 4 + 4)));
            assert forall|k: int| 0 <= k < v.len() implies d[k] == v[k] by {
                lemma_cat_slice(v.len(), g, 4, k);
                lemma_rt_u32(v[k]);
            }
            assert(d =~= v);
        },
        CellV::DoubleArr(v) => {
            let g = |k: int| senc_u64(v[k]);
            assert forall|k: int| 0 <= k < v.len() implies (#[trigger] g(k)).len() == 8 by {
                lemma_rt_u64(v[k]);
            }
            lemma_cat_len(v.len(), g, 8);
            let d = Seq::new(fs.repeat_count as nat, |k: int| sdec_u64(e.subrange(k * 8, k * 8 + 8)));
            assert forall|k: int| 0 <= k < v.len() implies d[k] == v[k] by {
                lemma_cat_slice(v.len(), g, 8, k);
                lemma_rt_u64(v[k]);
            }
            assert(d =~= v);
        },
        CellV::Desc(cnt, off) => {
            if fs.type_code is ArrayDescriptor32 {
                crate::wire::lemma_nat_to_be_len(cnt as nat, 4);
                crate::wire::lemma_nat_to_be_len(off as nat, 4);
                crate::wire::lemma_be_round_trip_nat(cnt as nat, 4);
                crate::wire::lemma_be_round_trip_nat(off as nat, 4);
                assert(e.subrange(0, 4) =~= nat_to_be(cnt as nat, 4));
                assert(e.subrange(4, 8) =~= nat_to_be(off as nat, 4));
            } else {
                crate::wire::lemma_nat_to_be_len(cnt as nat, 8);
                crate::wire::lemma_nat_to_be_len(off as nat, 8);
                crate::wire::lemma_be_round_trip_nat(cnt as nat, 8);
                crate::wire::lemma_be_round_trip_nat(off as nat, 8);
                assert(e.subrange(0, 8) =~= nat_to_be(cnt as nat, 8));
                assert(e.subrange(8, 16) =~= nat_to_be(off as nat, 8));
            }
        },
    }
}


/// Whether a cell value can be written at all under a format: shapes
/// agree, lengths fit the planned cell, and descriptor halves fit their
/// on-disk width.  Unlike [`spec_cell_valid`] this does not ask that
/// trimming be lossless, so text with leading or trailing spaces is still
/// encodable; only a lossless cell round-trips.
pub open spec fn spec_cell_encodable(kind: TableKind, fs: FormatSpec, c: CellV) -> bool {
    match spec_storage_of(kind, fs) {
        None => false,
        Some(cl) => match c {
            CellV::Logical(_) => cl is Logical,
            CellV::Bit(_) => cl is Bit,
            CellV::Byte(_) => cl is Byte,
            CellV::Short(_) => cl is Short,
            CellV::Int(x) => cl is Int && (kind is Ascii ==> spec_int_text(x as int).len()
                <= fs.cell_width),
            CellV::Long(_) => cl is Long,
            CellV::Float(_) => cl is Float,
            CellV::Double(_) => cl is Double,
            CellV::Complex(_, _) => cl is Complex,
            CellV::DComplex(_, _) => cl is DComplex,
            CellV::Text(t) => cl is Text && t.len() <= fs.cell_width,
            CellV::LogicalArr(v) => cl is LogicalArr && v.len() == fs.repeat_count,
            CellV::BitArr(v) => cl is BitArr && v.len() == fs.repeat_count,
            CellV::ByteArr(v) => cl is ByteArr && v.len() == fs.repeat_count,
            CellV::ShortArr(v) => cl is ShortArr && v.len() == fs.repeat_count,
            CellV::IntArr(v) => cl is IntArr && v.len() == fs.repeat_count,
            CellV::LongArr(v) => cl is LongArr && v.len() == fs.repeat_count,
            CellV::FloatArr(v) => cl is FloatArr && v.len() == fs.repeat_count,
            CellV::DoubleArr(v) => cl is DoubleArr && v.len() == fs.repeat_count,
            CellV::Desc(cnt, off) => cl is Desc && (fs.type_code is ArrayDescriptor32 ==> cnt
                <= u32::MAX && off <= u32::MAX),
        },
    }
}

/// A cell that round-trips is in particular encodable.
pub proof fn lemma_valid_is_encodable(kind: TableKind, fs: FormatSpec, c: CellV)
    requires
        spec_cell_valid(kind, fs, c),
    ensures
        spec_cell_encodable(kind, fs, c),
{
}

/// An encodable cell still encodes to exactly `cell_width` bytes.
#[verifier::rlimit(100)]
pub proof fn lemma_encode_cell_len(kind: TableKind, fs: FormatSpec, c: CellV)
    requires
        spec_wf_format(kind, fs),
        spec_cell_encodable(kind, fs, c),
    ensures
        spec_encode_cell(kind, fs, c).len() == fs.cell_width,
{
    crate::wire::lemma_pow256_values();
    match c {
        CellV::Logical(x) => {
        },
        CellV::Bit(x) => {
        },
        CellV::Byte(x) => {
            lemma_rt_i8(x);
        },
        CellV::Short(x) => {
            lemma_rt_i16(x);
        },
        CellV::Int(x) => {
            if kind is Binary {
                lemma_rt_i32(x);
            }
        },
        CellV::Long(x) => {
            lemma_rt_i64(x);
        },
        CellV::Float(x) => {
            lemma_rt_u32(x);
        },
        CellV::Double(x) => {
            lemma_rt_u64(x);
        },
        CellV::Complex(a, b) => {
            lemma_rt_u32(a);
            lemma_rt_u32(b);
        },
        CellV::DComplex(a, b) => {
            lemma_rt_u64(a);
            lemma_rt_u64(b);
        },
        CellV::Text(t) => {
        },
        CellV::LogicalArr(v) => {
            let g = |k: int| senc_bool(v[k]);
            assert(forall|k: int| 0 <= k < v.len() ==> (#[trigger] g(k)).len() == 1);
            lemma_cat_len(v.len(), g, 1);
        },
        CellV::BitArr(v) => {
            let g = |k: int| seq![v[k]];
            assert(forall|k: int| 0 <= k < v.len() ==> (#[trigger] g(k)).len() == 1);
            lemma_cat_len(v.len(), g, 1);
        },
        CellV::ByteArr(v) => {
            let g = |k: int| senc_i8(v[k]);
            assert forall|k: int| 0 <= k < v.len() implies (#[trigger] g(k)).len() == 1 by {
                lemma_rt_i8(v[k]);
            }
            lemma_cat_len(v.len(), g, 1);
        },
        CellV::ShortArr(v) => {
            let g = |k: int| senc_i16(v[k]);
            assert forall|k: int| 0 <= k < v.len() implies (#[trigger] g(k)).len() == 2 by {
                lemma_rt_i16(v[k]);
            }
            lemma_cat_len(v.len(), g, 2);
        },
        CellV::IntArr(v) => {
            let g = |k: int| senc_i32(v[k]);
            assert forall|k: int| 0 <= k < v.len() implies (#[trigger] g(k)).len() == 4 by {
                lemma_rt_i32(v[k]);
            }
            lemma_cat_len(v.len(), g, 4);
        },
        CellV::LongArr(v) => {
            let g = |k: int| senc_i64(v[k]);
            assert forall|k: int| 0 <= k < v.len() implies (#[trigger] g(k)).len() == 8 by {
                lemma_rt_i64(v[k]);
            }
            lemma_cat_len(v.len(), g, 8);
        },
        CellV::FloatArr(v) => {
            let g = |k: int| senc_u32(v[k]);
            assert forall|k: int| 0 <= k < v.len() implies (#[trigger] g(k)).len() == 4 by {
                lemma_rt_u32(v[k]);
            }
            lemma_cat_len(v.len(), g, 4);
        },
        CellV::DoubleArr(v) => {
            let g = |k: int| senc_u64(v[k]);
            assert forall|k: int| 0 <= k < v.len() implies (#[trigger] g(k)).len() == 8 by {
                lemma_rt_u64(v[k]);
            }
            lemma_cat_len(v.len(), g, 8);
        },
        CellV::Desc(cnt, off) => {
            if fs.type_code is ArrayDescriptor32 {
                crate::wire::lemma_nat_to_be_len(cnt as nat, 4);
                crate::wire::lemma_nat_to_be_len(off as nat, 4);
            } else {
                crate::wire::lemma_nat_to_be_len(cnt as nat, 8);
                crate::wire::lemma_nat_to_be_len(off as nat, 8);
            }
        },
    }
}


/// The storage shape a resolved variable-length column takes: one ragged
/// array (or text) row per descriptor.  `None` for element types whose
/// arrays this codec does not implement.
pub open spec fn spec_resolve_elem_class(elem: TypeCode) -> Option<StorageClass> {
    match elem {
        TypeCode::Logical => Some(StorageClass::LogicalArr),
        TypeCode::Bit => Some(StorageClass::BitArr),
        TypeCode::Byte => Some(StorageClass::ByteArr),
        TypeCode::Short => Some(StorageClass::ShortArr),
        TypeCode::Int32 => Some(StorageClass::IntArr),
        TypeCode::Int64 => Some(StorageClass::LongArr),
        TypeCode::Float32 => Some(StorageClass::FloatArr),
        TypeCode::Float64 => Some(StorageClass::DoubleArr),
        TypeCode::Char => Some(StorageClass::Text),
        _ => None,
    }
}

/// A descriptor's payload lies inside the heap.
pub open spec fn spec_desc_in_bounds(elem: TypeCode, heaplen: nat, c: CellV) -> bool {
    c matches CellV::Desc(cnt, off) && off + cnt * spec_element_width(elem) <= heaplen
}

/// The cell a descriptor stands for once the heap is available: `cnt`
/// elements of type `elem` starting `off` bytes into the heap.
pub open spec fn spec_resolve_cell(elem: TypeCode, heap: Seq<u8>, c: CellV) -> CellV {
    let cnt = c->Desc_0 as int;
    let o = c->Desc_1 as int;
    match elem {
        TypeCode::Logical => CellV::LogicalArr(
            Seq::new(cnt as nat, |k: int| sdec_bool(heap.subrange(o + k, o + k + 1))),
        ),
        TypeCode::Bit => CellV::BitArr(Seq::new(cnt as nat, |k: int| heap[o + k])),
        TypeCode::Byte => CellV::ByteArr(
            Seq::new(cnt as nat, |k: int| sdec_i8(heap.subrange(o + k, o + k + 1))),
        ),
        TypeCode::Short => CellV::ShortArr(
            Seq::new(cnt as nat, |k: int| sdec_i16(heap.subrange(o + k * 2, o + k * 2 + 2))),
        ),
        TypeCode::Int32 => CellV::IntArr(
            Seq::new(cnt as nat, |k: int| sdec_i32(heap.subrange(o + k * 4, o + k * 4 + 4))),
        ),
        TypeCode::Int64 => CellV::LongArr(
            Seq::new(cnt as nat, |k: int| sdec_i64(heap.subrange(o + k * 8, o + k * 8 + 8))),
        ),
        TypeCode::Float32 => CellV::FloatArr(
            Seq::new(cnt as nat, |k: int| sdec_u32(heap.subrange(o + k * 4, o + k * 4 + 4))),
        ),
        TypeCode::Float64 => CellV::DoubleArr(
            Seq::new(cnt as nat, |k: int| sdec_u64(heap.subrange(o + k * 8, o + k * 8 + 8))),
        ),
        TypeCode::Char => CellV::Text(heap.subrange(o, o + cnt)),
        _ => CellV::Logical(false),
    }
}


/// Concatenation over `n1 + n2` elements splits at `n1`.
pub proof fn lemma_cat_split(n1: nat, n2: nat, f: spec_fn(int) -> Seq<u8>)
    ensures
        spec_cat((n1 + n2) as nat, f) == spec_cat(n1, f) + spec_cat(
            n2,
            |i: int| f(n1 + i),
        ),
    decreases n2,
{
    let g = |i: int| f(n1 + i);
    if n2 == 0 {
        assert(spec_cat(n1, f) + spec_cat(0, g) =~= spec_cat(n1, f));
    } else {
        lemma_cat_split(n1, (n2 - 1) as nat, f);
        assert(spec_cat((n1 + n2) as nat, f) == spec_cat((n1 + n2 - 1) as nat, f) + f(
            n1 + n2 - 1,
        ));
        assert(g(n2 - 1) == f(n1 + n2 - 1));
        assert(spec_cat(n1, f) + spec_cat((n2 - 1) as nat, g) + g(n2 - 1) =~= spec_cat(n1, f)
            + (spec_cat((n2 - 1) as nat, g) + g(n2 - 1)));
    }
}

/// Concatenations of pointwise-equal element functions are equal.
pub proof fn lemma_cat_congruence(n: nat, f: spec_fn(int) -> Seq<u8>, g: spec_fn(int) -> Seq<u8>)
    requires
        forall|i: int| 0 <= i < n ==> #[trigger] f(i) == g(i),
    ensures
        spec_cat(n, f) == spec_cat(n, g),
    decreases n,
{
    if n > 0 {
        lemma_cat_congruence((n - 1) as nat, f, g);
    }
}


/// Slicing a concatenation at the end of its `k`-element prefix returns
/// element `k`, whatever the element widths are.
pub proof fn lemma_cat_slice_at(n: nat, f: spec_fn(int) -> Seq<u8>, k: int)
    requires
        0 <= k < n,
    ensures
        spec_cat(k as nat, f).len() + f(k).len() <= spec_cat(n, f).len(),
        spec_cat(n, f).subrange(
            spec_cat(k as nat, f).len() as int,
            (spec_cat(k as nat, f).len() + f(k).len()) as int,
        ) == f(k),
    decreases n,
{
    if k == n - 1 {
        assert(spec_cat(n, f) == spec_cat((n - 1) as nat, f) + f(n - 1));
        assert(spec_cat(n, f).subrange(
            spec_cat(k as nat, f).len() as int,
            (spec_cat(k as nat, f).len() + f(k).len()) as int,
        ) =~= f(k));
    } else {
        lemma_cat_slice_at((n - 1) as nat, f, k);
        assert(spec_cat(n, f) == spec_cat((n - 1) as nat, f) + f(n - 1));
        assert(spec_cat(n, f).subrange(
            spec_cat(k as nat, f).len() as int,
            (spec_cat(k as nat, f).len() + f(k).len()) as int,
        ) =~= spec_cat((n - 1) as nat, f).subrange(
            spec_cat(k as nat, f).len() as int,
            (spec_cat(k as nat, f).len() + f(k).len()) as int,
        ));
    }
}


/// The cell every slot of a freshly allocated column holds before any
/// row is written: false, zero, the empty text, the empty array, or the
/// (0, 0) descriptor.
pub open spec fn spec_default_cell(cl: StorageClass) -> CellV {
    match cl {
        StorageClass::Logical => CellV::Logical(false),
        StorageClass::Bit => CellV::Bit(0),
        StorageClass::Byte => CellV::Byte(0),
        StorageClass::Short => CellV::Short(0),
        StorageClass::Int => CellV::Int(0),
        StorageClass::Long => CellV::Long(0),
        StorageClass::Float => CellV::Float(0),
        StorageClass::Double => CellV::Double(0),
        StorageClass::Complex => CellV::Complex(0, 0),
        StorageClass::DComplex => CellV::DComplex(0, 0),
        StorageClass::Text => CellV::Text(Seq::empty()),
        StorageClass::LogicalArr => CellV::LogicalArr(Seq::empty()),
        StorageClass::BitArr => CellV::BitArr(Seq::empty()),
        StorageClass::ByteArr => CellV::ByteArr(Seq::empty()),
        StorageClass::ShortArr => CellV::ShortArr(Seq::empty()),
        StorageClass::IntArr => CellV::IntArr(Seq::empty()),
        StorageClass::LongArr => CellV::LongArr(Seq::empty()),
        StorageClass::FloatArr => CellV::FloatArr(Seq::empty()),
        StorageClass::DoubleArr => CellV::DoubleArr(Seq::empty()),
        StorageClass::Desc => CellV::Desc(0, 0),
    }
}

} // verus!
