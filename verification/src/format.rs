//! The column format grammar.
//!
//! A binary table column is described by a TFORM token such as `1E`, `10D`,
//! `48A` or `1PJ(100)`: an optional decimal repeat count, one type letter,
//! and for the two array-descriptor letters an element letter with an
//! optional maximum element count.  An ASCII table column is described by a
//! token such as `I12` or `E15.7`: one type letter, the total field width,
//! and an optional number of decimals.  Parsing happens once per column at
//! table-open time; the resulting [`FormatSpec`] is what every later stage
//! works from.

use vstd::prelude::*;
use vstd::slice::slice_index_get;
use vstd::string::StringSliceAdditionalSpecFns;
use crate::FitsError;

verus! {

/// Which of the two FITS table layouts a column belongs to.
#[derive(Clone, Copy, Debug, PartialEq, Eq, Structural)]
pub enum TableKind {
    Binary,
    Ascii,
}

/// The closed set of cell types this codec knows.
///
/// The first thirteen are the binary table types; the last three are the
/// ASCII table text types.  An ASCII integer column reuses `Int32`.
#[derive(Clone, Copy, Debug, PartialEq, Eq, Structural)]
pub enum TypeCode {
    Logical,
    Bit,
    Byte,
    Short,
    Int32,
    Int64,
    Char,
    Float32,
    Float64,
    Complex64,
    Complex128,
    ArrayDescriptor32,
    ArrayDescriptor64,
    Float32Text,
    Float64Text,
    CharText,
}

/// Bytes one element of a binary column occupies on disk (text types count
/// one byte per character).
pub open spec fn spec_element_width(tc: TypeCode) -> nat {
    match tc {
        TypeCode::Logical => 1,
        TypeCode::Bit => 1,
        TypeCode::Byte => 1,
        TypeCode::Short => 2,
        TypeCode::Int32 => 4,
        TypeCode::Int64 => 8,
        TypeCode::Char => 1,
        TypeCode::Float32 => 4,
        TypeCode::Float64 => 8,
        TypeCode::Complex64 => 8,
        TypeCode::Complex128 => 16,
        TypeCode::ArrayDescriptor32 => 8,
        TypeCode::ArrayDescriptor64 => 16,
        TypeCode::Float32Text => 1,
        TypeCode::Float64Text => 1,
        TypeCode::CharText => 1,
    }
}

impl TypeCode {
    /// Executable twin of [`spec_element_width`].
    pub fn element_width(self) -> (r: usize)
        ensures
            r == spec_element_width(self),
    {
        match self {
            TypeCode::Logical => 1,
            TypeCode::Bit => 1,
            TypeCode::Byte => 1,
            TypeCode::Short => 2,
            TypeCode::Int32 => 4,
            TypeCode::Int64 => 8,
            TypeCode::Char => 1,
            TypeCode::Float32 => 4,
            TypeCode::Float64 => 8,
            TypeCode::Complex64 => 8,
            TypeCode::Complex128 => 16,
            TypeCode::ArrayDescriptor32 => 8,
            TypeCode::ArrayDescriptor64 => 16,
            TypeCode::Float32Text => 1,
            TypeCode::Float64Text => 1,
            TypeCode::CharText => 1,
        }
    }
}

/// A parsed column format.
///
/// For binary columns `cell_width == repeat_count * element_width`; for a
/// character column the repeat count is the declared string length, whose
/// elements are single bytes, so the same product holds.  For ASCII table
/// columns `repeat_count` and `cell_width` are both the field width and
/// `element_width` is one (a character).  `heap_elem` records the element
/// type behind an array-descriptor column and is `None` for every other
/// type.
#[derive(Clone, Copy, Debug, PartialEq, Eq)]
pub struct FormatSpec {
    pub repeat_count: usize,
    pub type_code: TypeCode,
    pub element_width: usize,
    pub cell_width: usize,
    pub heap_elem: Option<TypeCode>,
}

/// Well-formedness of a binary column format.
pub open spec fn spec_wf_binary(fs: FormatSpec) -> bool {
    &&& fs.element_width == spec_element_width(fs.type_code)
    &&& fs.cell_width == fs.repeat_count * fs.element_width
    &&& match fs.type_code {
        TypeCode::ArrayDescriptor32 | TypeCode::ArrayDescriptor64 => {
            fs.heap_elem matches Some(e) && spec_is_scalar_binary(e)
        },
        TypeCode::Float32Text | TypeCode::Float64Text | TypeCode::CharText => false,
        _ => fs.heap_elem is None,
    }
}

/// Well-formedness of an ASCII column format.
pub open spec fn spec_wf_ascii(fs: FormatSpec) -> bool {
    &&& fs.element_width == 1
    &&& fs.cell_width == fs.repeat_count
    &&& fs.repeat_count >= 1
    &&& fs.heap_elem is None
    &&& match fs.type_code {
        TypeCode::Int32 | TypeCode::Float32Text | TypeCode::Float64Text | TypeCode::CharText => true,
        _ => false,
    }
}

/// Well-formedness of a format under a table kind.
pub open spec fn spec_wf_format(kind: TableKind, fs: FormatSpec) -> bool {
    match kind {
        TableKind::Binary => spec_wf_binary(fs),
        TableKind::Ascii => spec_wf_ascii(fs),
    }
}

/// A binary scalar type letter: anything but the descriptors and text.
pub open spec fn spec_is_scalar_binary(tc: TypeCode) -> bool {
    match tc {
        TypeCode::ArrayDescriptor32 | TypeCode::ArrayDescriptor64 => false,
        TypeCode::Float32Text | TypeCode::Float64Text | TypeCode::CharText => false,
        _ => true,
    }
}

/// Maps a binary scalar type letter to its code.
pub open spec fn spec_scalar_code(b: u8) -> Option<TypeCode> {
    if b == 0x4c {  // L
        Some(TypeCode::Logical)
    } else if b == 0x58 {  // X
        Some(TypeCode::Bit)
    } else if b == 0x42 {  // B
        Some(TypeCode::Byte)
    } else if b == 0x49 {  // I
        Some(TypeCode::Short)
    } else if b == 0x4a {  // J
        Some(TypeCode::Int32)
    } else if b == 0x4b {  // K
        Some(TypeCode::Int64)
    } else if b == 0x41 {  // A
        Some(TypeCode::Char)
    } else if b == 0x45 {  // E
        Some(TypeCode::Float32)
    } else if b == 0x44 {  // D
        Some(TypeCode::Float64)
    } else if b == 0x43 {  // C
        Some(TypeCode::Complex64)
    } else if b == 0x4d {  // M
        Some(TypeCode::Complex128)
    } else {
        None
    }
}

/// Executable twin of [`spec_scalar_code`].
pub fn scalar_code(b: u8) -> (r: Option<TypeCode>)
    ensures
        r == spec_scalar_code(b),
{
    if b == 0x4c {
        Some(TypeCode::Logical)
    } else if b == 0x58 {
        Some(TypeCode::Bit)
    } else if b == 0x42 {
        Some(TypeCode::Byte)
    } else if b == 0x49 {
        Some(TypeCode::Short)
    } else if b == 0x4a {
        Some(TypeCode::Int32)
    } else if b == 0x4b {
        Some(TypeCode::Int64)
    } else if b == 0x41 {
        Some(TypeCode::Char)
    } else if b == 0x45 {
        Some(TypeCode::Float32)
    } else if b == 0x44 {
        Some(TypeCode::Float64)
    } else if b == 0x43 {
        Some(TypeCode::Complex64)
    } else if b == 0x4d {
        Some(TypeCode::Complex128)
    } else {
        None
    }
}

/// Maps an ASCII table type letter to its code (`I`, `F`, `E`, `D`, `A`).
pub open spec fn spec_ascii_code(b: u8) -> Option<TypeCode> {
    if b == 0x49 {  // I
        Some(TypeCode::Int32)
    } else if b == 0x46 || b == 0x45 {  // F, E
        Some(TypeCode::Float32Text)
    } else if b == 0x44 {  // D
        Some(TypeCode::Float64Text)
    } else if b == 0x41 {  // A
        Some(TypeCode::CharText)
    } else {
        None
    }
}

/// Executable twin of [`spec_ascii_code`].
pub fn ascii_code(b: u8) -> (r: Option<TypeCode>)
    ensures
        r == spec_ascii_code(b),
{
    if b == 0x49 {
        Some(TypeCode::Int32)
    } else if b == 0x46 || b == 0x45 {
        Some(TypeCode::Float32Text)
    } else if b == 0x44 {
        Some(TypeCode::Float64Text)
    } else if b == 0x41 {
        Some(TypeCode::CharText)
    } else {
        None
    }
}

/// An ASCII decimal digit.
pub open spec fn spec_is_digit(b: u8) -> bool {
    0x30 <= b <= 0x39
}

/// Length of the run of digits that opens `t`.
pub open spec fn spec_digits_prefix_len(t: Seq<u8>) -> nat
    decreases t.len(),
{
    if t.len() == 0 || !spec_is_digit(t[0]) {
        0
    } else {
        1 + spec_digits_prefix_len(t.drop_first())
    }
}

/// The decimal value of a digit string, most significant digit first.
pub open spec fn spec_dec_value(t: Seq<u8>) -> nat
    decreases t.len(),
{
    if t.len() == 0 {
        0
    } else {
        (spec_dec_value(t.drop_last()) * 10 + (t.last() - 0x30)) as nat
    }
}

/// A prefix that is all digits and ends at the first non-digit is the
/// digits prefix.
pub proof fn lemma_digits_prefix_characterize(t: Seq<u8>, k: int)
    requires
        0 <= k <= t.len(),
        forall|j: int| 0 <= j < k ==> spec_is_digit(t[j]),
        k < t.len() ==> !spec_is_digit(t[k]),
    ensures
        spec_digits_prefix_len(t) == k,
    decreases t.len(),
{
    if k == 0 {
    } else {
        assert(spec_is_digit(t[0]));
        lemma_digits_prefix_characterize(t.drop_first(), k - 1);
    }
}

/// Longer digit strings never have smaller values.
pub proof fn lemma_dec_value_monotonic(t: Seq<u8>, i: int, j: int)
    requires
        0 <= i <= j <= t.len(),
        forall|m: int| 0 <= m < j ==> spec_is_digit(t[m]),
    ensures
        spec_dec_value(t.take(i)) <= spec_dec_value(t.take(j)),
    decreases j - i,
{
    if i < j {
        lemma_dec_value_monotonic(t, i, j - 1);
        assert(t.take(j).drop_last() =~= t.take(j - 1));
    }
}

/// Counts the digits that open `t`.
pub fn digits_prefix_len(t: &[u8]) -> (r: usize)
    ensures
        r == spec_digits_prefix_len(t@),
        r <= t@.len(),
        forall|j: int| 0 <= j < r ==> spec_is_digit(t@[j]),
{
    let n = t.len();
    let mut i: usize = 0;
    loop
        invariant
            i <= n,
            n == t@.len(),
            forall|j: int| 0 <= j < i ==> spec_is_digit(t@[j]),
        ensures
            i <= n,
            forall|j: int| 0 <= j < i ==> spec_is_digit(t@[j]),
            i < n ==> !spec_is_digit(t@[i as int]),
            i == n || !spec_is_digit(t@[i as int]),
        decreases n - i,
    {
        if i >= n {
            break;
        }
        let b = *slice_index_get(t, i);
        if b < 0x30 || b > 0x39 {
            break;
        }
        i += 1;
    }
    proof {
        lemma_digits_prefix_characterize(t@, i as int);
    }
    i
}

/// Reads the value of the digit run `t[0..k]`; `None` when it does not fit
/// in `usize`.
pub fn dec_prefix_value(t: &[u8], k: usize) -> (r: Option<usize>)
    requires
        k <= t@.len(),
        forall|j: int| 0 <= j < k ==> spec_is_digit(t@[j]),
    ensures
        match r {
            Some(v) => v == spec_dec_value(t@.take(k as int)),
            None => spec_dec_value(t@.take(k as int)) > usize::MAX,
        },
{
    let mut acc: usize = 0;
    let mut i: usize = 0;
    while i < k
        invariant
            i <= k,
            k <= t@.len(),
            forall|j: int| 0 <= j < k ==> spec_is_digit(t@[j]),
            acc == spec_dec_value(t@.take(i as int)),
        decreases k - i,
    {
        let b = *slice_index_get(t, i);
        let d = (b - 0x30) as usize;
        if acc > (usize::MAX - d) / 10 {
            proof {
                assert(t@.take(i + 1).drop_last() =~= t@.take(i as int));
                assert(spec_dec_value(t@.take(i + 1)) > usize::MAX);
                lemma_dec_value_monotonic(t@, i + 1, k as int);
            }
            return None;
        }
        acc = acc * 10 + d;
        proof {
            assert(t@.take(i + 1).drop_last() =~= t@.take(i as int));
        }
        i += 1;
    }
    Some(acc)
}

/// All bytes of `u` are digits.
pub open spec fn spec_all_digits(u: Seq<u8>) -> bool {
    forall|j: int| 0 <= j < u.len() ==> spec_is_digit(u[j])
}

/// A well-formed maximum-element-count suffix: `(` digits `)`.
pub open spec fn spec_heap_max_ok(u: Seq<u8>) -> bool {
    &&& u.len() >= 3
    &&& u[0] == 0x28
    &&& u.last() == 0x29
    &&& spec_all_digits(u.subrange(1, u.len() - 1))
}

/// The binary table format grammar: `None` for every token the grammar
/// rejects, otherwise the parsed format.
pub open spec fn spec_parse_binary_format(t: Seq<u8>) -> Option<FormatSpec> {
    let k = spec_digits_prefix_len(t) as int;
    if k >= t.len() {
        None
    } else if k > 0 && spec_dec_value(t.take(k)) > usize::MAX {
        None
    } else {
        let rep = if k == 0 {
            1
        } else {
            spec_dec_value(t.take(k))
        };
        let letter = t[k];
        let rest = t.skip(k + 1);
        if letter == 0x50 || letter == 0x51 {  // P, Q
            if rest.len() == 0 || spec_scalar_code(rest[0]) is None {
                None
            } else if rest.len() != 1 && !spec_heap_max_ok(rest.skip(1)) {
                None
            } else {
                let code = if letter == 0x50 {
                    TypeCode::ArrayDescriptor32
                } else {
                    TypeCode::ArrayDescriptor64
                };
                let ew = spec_element_width(code);
                if rep * ew > usize::MAX {
                    None
                } else {
                    Some(
                        FormatSpec {
                            repeat_count: rep as usize,
                            type_code: code,
                            element_width: ew as usize,
                            cell_width: (rep * ew) as usize,
                            heap_elem: Some(spec_scalar_code(rest[0]).unwrap()),
                        },
                    )
                }
            }
        } else {
            match spec_scalar_code(letter) {
                None => None,
                Some(code) => {
                    if rest.len() != 0 {
                        None
                    } else {
                        let ew = spec_element_width(code);
                        if rep * ew > usize::MAX {
                            None
                        } else {
                            Some(
                                FormatSpec {
                                    repeat_count: rep as usize,
                                    type_code: code,
                                    element_width: ew as usize,
                                    cell_width: (rep * ew) as usize,
                                    heap_elem: None,
                                },
                            )
                        }
                    }
                },
            }
        }
    }
}

/// Parses a binary table format token.
///
/// Returns the format exactly when the grammar accepts the token;
/// an empty token, a non-numeric prefix, an unknown letter, trailing
/// text, or a count too large for this machine all yield `InvalidFormat`.
pub fn parse_binary_format(token: &str) -> (r: Result<FormatSpec, FitsError>)
    ensures
        match r {
            Ok(fs) => spec_parse_binary_format(token.spec_bytes()) == Some(fs) && spec_wf_binary(
                fs,
            ),
            Err(e) => spec_parse_binary_format(token.spec_bytes()) is None && e
                == FitsError::InvalidFormat,
        },
{
    let t = token.as_bytes();
    let n = t.len();
    let k = digits_prefix_len(t);
    if k >= n {
        return Err(FitsError::InvalidFormat);
    }
    let rep: usize = if k == 0 {
        1
    } else {
        match dec_prefix_value(t, k) {
            Some(v) => v,
            None => {
                return Err(FitsError::InvalidFormat);
            },
        }
    };
    let letter = *slice_index_get(t, k);
    let rest = vstd::slice::slice_subrange(t, k + 1, n);
    if letter == 0x50 || letter == 0x51 {
        if rest.len() == 0 {
            return Err(FitsError::InvalidFormat);
        }
        let elem = match scalar_code(*slice_index_get(rest, 0)) {
            Some(c) => c,
            None => {
                return Err(FitsError::InvalidFormat);
            },
        };
        if rest.len() != 1 && !heap_max_ok(vstd::slice::slice_subrange(rest, 1, rest.len())) {
            return Err(FitsError::InvalidFormat);
        }
        let code = if letter == 0x50 {
            TypeCode::ArrayDescriptor32
        } else {
            TypeCode::ArrayDescriptor64
        };
        let ew = code.element_width();
        if rep > usize::MAX / ew {
            proof {
                mul_over_max(rep as nat, ew as nat);
            }
            return Err(FitsError::InvalidFormat);
        }
        proof {
            mul_under_max(rep as nat, ew as nat);
        }
        Ok(
            FormatSpec {
                repeat_count: rep,
                type_code: code,
                element_width: ew,
                cell_width: rep * ew,
                heap_elem: Some(elem),
            },
        )
    } else {
        let code = match scalar_code(letter) {
            Some(c) => c,
            None => {
                return Err(FitsError::InvalidFormat);
            },
        };
        if rest.len() != 0 {
            return Err(FitsError::InvalidFormat);
        }
        let ew = code.element_width();
        if rep > usize::MAX / ew {
            proof {
                mul_over_max(rep as nat, ew as nat);
            }
            return Err(FitsError::InvalidFormat);
        }
        proof {
            mul_under_max(rep as nat, ew as nat);
        }
        Ok(
            FormatSpec {
                repeat_count: rep,
                type_code: code,
                element_width: ew,
                cell_width: rep * ew,
                heap_elem: None,
            },
        )
    }
}

proof fn mul_over_max(a: nat, b: nat)
    requires
        b > 0,
        a > usize::MAX as nat / b,
    ensures
        a * b > usize::MAX,
{
    let m = usize::MAX as nat;
    assert(a >= m / b + 1);
    assert((m / b + 1) * b == (m / b) * b + b) by (nonlinear_arith);
    assert((m / b) * b + b > m) by {
        vstd::arithmetic::div_mod::lemma_fundamental_div_mod(m as int, b as int);
    }
    assert(a * b >= (m / b + 1) * b) by (nonlinear_arith)
        requires
            a >= m / b + 1,
            b > 0,
    {
    }
}

proof fn mul_under_max(a: nat, b: nat)
    requires
        b > 0,
        a <= usize::MAX as nat / b,
    ensures
        a * b <= usize::MAX,
{
    let m = usize::MAX as nat;
    assert((m / b) * b <= m) by {
        vstd::arithmetic::div_mod::lemma_fundamental_div_mod(m as int, b as int);
    }
    assert(a * b <= (m / b) * b) by (nonlinear_arith)
        requires
            a <= m / b,
            b > 0,
    {
    }
}

/// True exactly when every byte of `u` is a decimal digit.
pub fn all_digits(u: &[u8]) -> (r: bool)
    ensures
        r == spec_all_digits(u@),
{
    let n = u.len();
    let mut i: usize = 0;
    let mut ok = true;
    while i < n
        invariant
            i <= n,
            n == u@.len(),
            ok == (forall|j: int| 0 <= j < i ==> spec_is_digit(u@[j])),
        decreases n - i,
    {
        let b = *slice_index_get(u, i);
        if b < 0x30 || b > 0x39 {
            ok = false;
        }
        i += 1;
    }
    ok
}

/// Checks a `(` digits `)` suffix.
fn heap_max_ok(u: &[u8]) -> (r: bool)
    ensures
        r == spec_heap_max_ok(u@),
{
    let n = u.len();
    if n < 3 {
        return false;
    }
    if *slice_index_get(u, 0) != 0x28 {
        return false;
    }
    if *slice_index_get(u, n - 1) != 0x29 {
        return false;
    }
    let mid = vstd::slice::slice_subrange(u, 1, n - 1);
    proof {
        assert(mid@ =~= u@.subrange(1, u@.len() - 1));
    }
    all_digits(mid)
}

/// The ASCII table format grammar.
pub open spec fn spec_parse_ascii_format(t: Seq<u8>) -> Option<FormatSpec> {
    if t.len() == 0 {
        None
    } else {
        let letter = t[0];
        match spec_ascii_code(letter) {
            None => None,
            Some(code) => {
                let rest = t.skip(1);
                let w = spec_digits_prefix_len(rest) as int;
                if w == 0 {
                    None
                } else if spec_dec_value(rest.take(w)) > usize::MAX || spec_dec_value(rest.take(w))
                    == 0 {
                    None
                } else {
                    let width = spec_dec_value(rest.take(w));
                    let tail = rest.skip(w);
                    let frac_allowed = code is Float32Text || code is Float64Text;
                    if tail.len() == 0 || (frac_allowed && tail.len() >= 2 && tail[0] == 0x2e
                        && spec_all_digits(tail.skip(1))) {
                        Some(
                            FormatSpec {
                                repeat_count: width as usize,
                                type_code: code,
                                element_width: 1,
                                cell_width: width as usize,
                                heap_elem: None,
                            },
                        )
                    } else {
                        None
                    }
                }
            },
        }
    }
}

/// Parses an ASCII table format token such as `I12`, `A8` or `E15.7`.
///
/// The width is the total character field width, sign and decimal point
/// included; only the floating-point letters may carry `.decimals`.
pub fn parse_ascii_format(token: &str) -> (r: Result<FormatSpec, FitsError>)
    ensures
        match r {
            Ok(fs) => spec_parse_ascii_format(token.spec_bytes()) == Some(fs) && spec_wf_ascii(fs),
            Err(e) => spec_parse_ascii_format(token.spec_bytes()) is None && e
                == FitsError::InvalidFormat,
        },
{
    let t = token.as_bytes();
    let n = t.len();
    if n == 0 {
        return Err(FitsError::InvalidFormat);
    }
    let letter = *slice_index_get(t, 0);
    let code = match ascii_code(letter) {
        Some(c) => c,
        None => {
            return Err(FitsError::InvalidFormat);
        },
    };
    let rest = vstd::slice::slice_subrange(t, 1, n);
    let w = digits_prefix_len(rest);
    if w == 0 {
        return Err(FitsError::InvalidFormat);
    }
    let width = match dec_prefix_value(rest, w) {
        Some(v) => v,
        None => {
            return Err(FitsError::InvalidFormat);
        },
    };
    if width == 0 {
        return Err(FitsError::InvalidFormat);
    }
    let tail = vstd::slice::slice_subrange(rest, w, rest.len());
    proof {
        assert(rest@ =~= token.spec_bytes().skip(1));
        assert(tail@ =~= rest@.skip(w as int));
    }
    let frac_allowed = match code {
        TypeCode::Float32Text | TypeCode::Float64Text => true,
        _ => false,
    };
    if tail.len() == 0 {
        return Ok(
            FormatSpec {
                repeat_count: width,
                type_code: code,
                element_width: 1,
                cell_width: width,
                heap_elem: None,
            },
        );
    }
    if !frac_allowed || tail.len() < 2 || *slice_index_get(tail, 0) != 0x2e {
        return Err(FitsError::InvalidFormat);
    }
    let frac = vstd::slice::slice_subrange(tail, 1, tail.len());
    proof {
        assert(frac@ =~= tail@.skip(1));
    }
    if !all_digits(frac) {
        return Err(FitsError::InvalidFormat);
    }
    Ok(
        FormatSpec {
            repeat_count: width,
            type_code: code,
            element_width: 1,
            cell_width: width,
            heap_elem: None,
        },
    )
}

/// Dispatches on the table kind.
pub fn parse_format(kind: TableKind, token: &str) -> (r: Result<FormatSpec, FitsError>)
    ensures
        match r {
            Ok(fs) => spec_parse_format(kind, token.spec_bytes()) == Some(fs) && spec_wf_format(
                kind,
                fs,
            ),
            Err(e) => spec_parse_format(kind, token.spec_bytes()) is None && e
                == FitsError::InvalidFormat,
        },
{
    match kind {
        TableKind::Binary => parse_binary_format(token),
        TableKind::Ascii => parse_ascii_format(token),
    }
}

/// The format grammar of either table kind.
pub open spec fn spec_parse_format(kind: TableKind, t: Seq<u8>) -> Option<FormatSpec> {
    match kind {
        TableKind::Binary => spec_parse_binary_format(t),
        TableKind::Ascii => spec_parse_ascii_format(t),
    }
}

/// The first capital letter in a byte string, if any.
pub open spec fn spec_first_capital(t: Seq<u8>) -> Option<u8>
    decreases t.len(),
{
    if t.len() == 0 {
        None
    } else if 0x41 <= t[0] <= 0x5a {
        Some(t[0])
    } else {
        spec_first_capital(t.drop_first())
    }
}

/// The first capital letter of a format token: the type letter for binary
/// tokens without a repeat prefix, or the letter after the prefix.
pub fn get_first_letter(string: &str) -> (r: Option<u8>)
    ensures
        r == spec_first_capital(string.spec_bytes()),
{
    let t = string.as_bytes();
    let n = t.len();
    let mut i: usize = 0;
    proof {
        assert(t@.skip(0) =~= t@);
    }
    while i < n
        invariant
            i <= n,
            n == t@.len(),
            t@ == string.spec_bytes(),
            spec_first_capital(t@) == spec_first_capital(t@.skip(i as int)),
        decreases n - i,
    {
        let b = *slice_index_get(t, i);
        if 0x41 <= b && b <= 0x5a {
            assert(t@.skip(i as int)[0] == t@[i as int]);
            return Some(b);
        }
        proof {
            assert(t@.skip(i as int).drop_first() =~= t@.skip(i + 1));
        }
        i += 1;
    }
    proof {
        assert(t@.skip(n as int).len() == 0);
    }
    None
}

/// Width in bytes of one element of the binary type named by the first
/// capital letter of `data_type` (`L X B I J K A E D C M P Q`).
///
/// Callers must hand a token whose first capital letter is one of those
/// thirteen; anything else is outside this function's domain.
pub fn byte_value_from_str(data_type: &str) -> (r: usize)
    requires
        spec_letter_width(spec_first_capital(data_type.spec_bytes())) is Some,
    ensures
        Some(r) == spec_letter_width(spec_first_capital(data_type.spec_bytes())),
{
    let letter = match get_first_letter(data_type) {
        Some(b) => b,
        None => {
            proof {
                assert(false);
            }
            0
        },
    };
    if letter == 0x50 {
        8
    } else if letter == 0x51 {
        16
    } else {
        match scalar_code(letter) {
            Some(c) => c.element_width(),
            None => {
                proof {
                    assert(false);
                }
                0
            },
        }
    }
}

/// Element width for a type letter, `None` when the letter is not one of
/// the thirteen binary type letters.
pub open spec fn spec_letter_width(letter: Option<u8>) -> Option<usize> {
    match letter {
        None => None,
        Some(b) => {
            if b == 0x50 {
                Some(8)
            } else if b == 0x51 {
                Some(16)
            } else {
                match spec_scalar_code(b) {
                    Some(c) => Some(spec_element_width(c) as usize),
                    None => None,
                }
            }
        },
    }
}

/// Total byte size of a binary cell: the leading repeat count (one when
/// absent) times the element width of the type letter.
pub fn get_data_bytes_size(string: &str) -> (r: usize)
    requires
        spec_letter_width(spec_first_capital(string.spec_bytes())) is Some,
        spec_dec_value(string.spec_bytes().take(spec_digits_prefix_len(string.spec_bytes()) as int))
            <= usize::MAX,
        spec_cell_size(string.spec_bytes()) <= usize::MAX,
    ensures
        r == spec_cell_size(string.spec_bytes()),
{
    let t = string.as_bytes();
    let k = digits_prefix_len(t);
    let rep: usize = if k == 0 {
        1
    } else {
        match dec_prefix_value(t, k) {
            Some(v) => v,
            None => {
                proof {
                    assert(false);
                }
                0
            },
        }
    };
    let ew = byte_value_from_str(string);
    proof {
        if ew > 0 && rep > usize::MAX as nat / ew as nat {
            mul_over_max(rep as nat, ew as nat);
        }
    }
    rep * ew
}

/// The size that [`get_data_bytes_size`] computes, as a mathematical value.
pub open spec fn spec_cell_size(t: Seq<u8>) -> nat {
    let k = spec_digits_prefix_len(t) as int;
    let rep = if k == 0 {
        1
    } else {
        spec_dec_value(t.take(k))
    };
    (rep * spec_letter_width(spec_first_capital(t)).unwrap()) as nat
}

} // verus!
