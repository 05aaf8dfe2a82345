//! Primitive parsers and writers for single values.
//!
//! Each marker type reads one value of its kind from the opening bytes of
//! a big-endian byte string, or writes one value back.  Reading returns
//! `None` when the bytes are too short (or, for text, not UTF-8) instead
//! of failing.

use vstd::prelude::*;
use vstd::slice::slice_subrange;
use vstd::utf8::valid_utf8;
use vstd::utf8::decode_utf8;
use crate::wire::be_to_nat;
use crate::wire::nat_to_be;
use crate::wire::to_signed;
use crate::wire::from_signed;
use crate::wire::be_bytes_to_u64;
use crate::wire::u64_to_be_bytes;
use crate::wire::lemma_be_to_nat_bound;
use crate::wire::lemma_pow256_values;

verus! {

/// Reads one value from the opening bytes of a byte string.
pub trait PrimitiveParser<T: DeepView> {
    /// What the parse returns, as a mathematical value.
    spec fn spec_parse(bytes: Seq<u8>) -> Option<T::V>;

    /// Executable parse; `None` exactly where the specification says so.
    fn parse(bytes: &[u8]) -> (r: Option<T>)
        ensures
            match (r, Self::spec_parse(bytes@)) {
                (Some(v), Some(m)) => v.deep_view() == m,
                (None, None) => true,
                _ => false,
            },
    ;
}

/// Writes one value as its big-endian bytes.
pub trait PrimitiveWriter<T: DeepView> {
    /// The bytes the write produces.
    spec fn spec_write(value: T) -> Seq<u8>;

    /// Executable write.
    fn write(value: T) -> (r: Vec<u8>)
        ensures
            r@ == Self::spec_write(value),
    ;
}

/// A 16-bit signed integer value.
pub struct Int16Type {
    pub value: Option<i16>,
}

/// A 32-bit signed integer value.
pub struct Int32Type {
    pub value: Option<i32>,
}

/// A 64-bit signed integer value.
pub struct Int64Type {
    pub value: Option<i64>,
}

/// An 8-bit signed integer value.
pub struct Int8Type {
    pub value: Option<i8>,
}

/// A 16-bit unsigned integer value.
pub struct UInt16Type {
    pub value: Option<u16>,
}

/// A 32-bit unsigned integer value.
pub struct UInt32Type {
    pub value: Option<u32>,
}

/// A 64-bit unsigned integer value.
pub struct UInt64Type {
    pub value: Option<u64>,
}

/// An 8-bit unsigned integer value.
pub struct UInt8Type {
    pub value: Option<u8>,
}

/// A boolean value: any non-zero byte reads as true.
pub struct BooleanType {
    pub value: Option<bool>,
}

/// A text value.
pub struct Utf8Type {
    pub value: Option<String>,
}

impl PrimitiveParser<i16> for Int16Type {
    open spec fn spec_parse(bytes: Seq<u8>) -> Option<i16> {
        if bytes.len() >= 2 {
            Some(to_signed(be_to_nat(bytes.take(2)), 0x10000) as i16)
        } else {
            None
        }
    }

    fn parse(bytes: &[u8]) -> (r: Option<i16>)
        ensures
            match (r, Self::spec_parse(bytes@)) {
                (Some(v), Some(m)) => v.deep_view() == m,
                (None, None) => true,
                _ => false,
            },
    {
        if bytes.len() < 2 {
            return None;
        }
        let head = slice_subrange(bytes, 0, 2);
        proof {
            assert(head@ =~= bytes@.take(2));
        }
        Some(crate::wire::i16_from_be(head))
    }
}

impl PrimitiveParser<i32> for Int32Type {
    open spec fn spec_parse(bytes: Seq<u8>) -> Option<i32> {
        if bytes.len() >= 4 {
            Some(to_signed(be_to_nat(bytes.take(4)), 0x1_0000_0000) as i32)
        } else {
            None
        }
    }

    fn parse(bytes: &[u8]) -> (r: Option<i32>)
        ensures
            match (r, Self::spec_parse(bytes@)) {
                (Some(v), Some(m)) => v.deep_view() == m,
                (None, None) => true,
                _ => false,
            },
    {
        if bytes.len() < 4 {
            return None;
        }
        let head = slice_subrange(bytes, 0, 4);
        proof {
            assert(head@ =~= bytes@.take(4));
        }
        Some(crate::wire::i32_from_be(head))
    }
}

impl PrimitiveParser<i64> for Int64Type {
    open spec fn spec_parse(bytes: Seq<u8>) -> Option<i64> {
        if bytes.len() >= 8 {
            Some(to_signed(be_to_nat(bytes.take(8)), 0x1_0000_0000_0000_0000) as i64)
        } else {
            None
        }
    }

    fn parse(bytes: &[u8]) -> (r: Option<i64>)
        ensures
            match (r, Self::spec_parse(bytes@)) {
                (Some(v), Some(m)) => v.deep_view() == m,
                (None, None) => true,
                _ => false,
            },
    {
        if bytes.len() < 8 {
            return None;
        }
        let head = slice_subrange(bytes, 0, 8);
        proof {
            assert(head@ =~= bytes@.take(8));
        }
        Some(crate::wire::i64_from_be(head))
    }
}

impl PrimitiveParser<i8> for Int8Type {
    open spec fn spec_parse(bytes: Seq<u8>) -> Option<i8> {
        if bytes.len() >= 1 {
            Some(to_signed(bytes[0] as nat, 0x100) as i8)
        } else {
            None
        }
    }

    fn parse(bytes: &[u8]) -> (r: Option<i8>)
        ensures
            match (r, Self::spec_parse(bytes@)) {
                (Some(v), Some(m)) => v.deep_view() == m,
                (None, None) => true,
                _ => false,
            },
    {
        if bytes.len() < 1 {
            return None;
        }
        let head = slice_subrange(bytes, 0, 1);
        proof {
            assert(head@ =~= bytes@.take(1));
            assert(head@.drop_last() =~= Seq::<u8>::empty());
            assert(be_to_nat(Seq::<u8>::empty()) == 0);
            assert(be_to_nat(head@) == bytes@[0]);
        }
        Some(crate::wire::i8_from_be(head))
    }
}

impl PrimitiveParser<u16> for UInt16Type {
    open spec fn spec_parse(bytes: Seq<u8>) -> Option<u16> {
        if bytes.len() >= 2 {
            Some(be_to_nat(bytes.take(2)) as u16)
        } else {
            None
        }
    }

    fn parse(bytes: &[u8]) -> (r: Option<u16>)
        ensures
            match (r, Self::spec_parse(bytes@)) {
                (Some(v), Some(m)) => v.deep_view() == m,
                (None, None) => true,
                _ => false,
            },
    {
        if bytes.len() < 2 {
            return None;
        }
        let head = slice_subrange(bytes, 0, 2);
        proof {
            assert(head@ =~= bytes@.take(2));
        }
        Some(crate::wire::u16_from_be(head))
    }
}

impl PrimitiveParser<u32> for UInt32Type {
    open spec fn spec_parse(bytes: Seq<u8>) -> Option<u32> {
        if bytes.len() >= 4 {
            Some(be_to_nat(bytes.take(4)) as u32)
        } else {
            None
        }
    }

    fn parse(bytes: &[u8]) -> (r: Option<u32>)
        ensures
            match (r, Self::spec_parse(bytes@)) {
                (Some(v), Some(m)) => v.deep_view() == m,
                (None, None) => true,
                _ => false,
            },
    {
        if bytes.len() < 4 {
            return None;
        }
        let head = slice_subrange(bytes, 0, 4);
        proof {
            assert(head@ =~= bytes@.take(4));
        }
        Some(crate::wire::u32_from_be(head))
    }
}

impl PrimitiveParser<u64> for UInt64Type {
    open spec fn spec_parse(bytes: Seq<u8>) -> Option<u64> {
        if bytes.len() >= 8 {
            Some(be_to_nat(bytes.take(8)) as u64)
        } else {
            None
        }
    }

    fn parse(bytes: &[u8]) -> (r: Option<u64>)
        ensures
            match (r, Self::spec_parse(bytes@)) {
                (Some(v), Some(m)) => v.deep_view() == m,
                (None, None) => true,
                _ => false,
            },
    {
        if bytes.len() < 8 {
            return None;
        }
        let head = slice_subrange(bytes, 0, 8);
        proof {
            assert(head@ =~= bytes@.take(8));
        }
        Some(crate::wire::u64_from_be(head))
    }
}

impl PrimitiveParser<u8> for UInt8Type {
    open spec fn spec_parse(bytes: Seq<u8>) -> Option<u8> {
        if bytes.len() >= 1 {
            Some(bytes[0])
        } else {
            None
        }
    }

    fn parse(bytes: &[u8]) -> (r: Option<u8>)
        ensures
            match (r, Self::spec_parse(bytes@)) {
                (Some(v), Some(m)) => v.deep_view() == m,
                (None, None) => true,
                _ => false,
            },
    {
        if bytes.len() < 1 {
            return None;
        }
        Some(*vstd::slice::slice_index_get(bytes, 0))
    }
}

impl PrimitiveParser<bool> for BooleanType {
    open spec fn spec_parse(bytes: Seq<u8>) -> Option<bool> {
        if bytes.len() >= 1 {
            Some(bytes[0] != 0)
        } else {
            None
        }
    }

    fn parse(bytes: &[u8]) -> (r: Option<bool>)
        ensures
            match (r, Self::spec_parse(bytes@)) {
                (Some(v), Some(m)) => v.deep_view() == m,
                (None, None) => true,
                _ => false,
            },
    {
        if bytes.len() < 1 {
            return None;
        }
        Some(*vstd::slice::slice_index_get(bytes, 0) != 0)
    }
}

impl PrimitiveParser<String> for Utf8Type {
    open spec fn spec_parse(bytes: Seq<u8>) -> Option<Seq<char>> {
        if valid_utf8(bytes) {
            Some(decode_utf8(bytes))
        } else {
            None
        }
    }

    fn parse(bytes: &[u8]) -> (r: Option<String>)
        ensures
            match (r, Self::spec_parse(bytes@)) {
                (Some(v), Some(m)) => v.deep_view() == m,
                (None, None) => true,
                _ => false,
            },
    {
        match bytes_to_string(bytes) {
            Some(s) => {
                proof {
                    vstd::utf8::encode_utf8_decode_utf8(s@);
                }
                Some(s)
            },
            None => None,
        }
    }
}

/// Relies on String::from_utf8: it succeeds exactly on valid UTF-8 and
/// returns the string those bytes encode.
#[verifier::external_body]
fn bytes_to_string(bytes: &[u8]) -> (r: Option<String>)
    ensures
        match r {
            Some(s) => valid_utf8(bytes@) && vstd::utf8::encode_utf8(s@) == bytes@,
            None => !valid_utf8(bytes@),
        },
{
    String::from_utf8(bytes.to_vec()).ok()
}

impl PrimitiveWriter<i16> for Int16Type {
    open spec fn spec_write(value: i16) -> Seq<u8> {
        nat_to_be(from_signed(value as int, 0x10000), 2)
    }

    fn write(value: i16) -> (r: Vec<u8>)
        ensures
            r@ == Self::spec_write(value),
    {
        crate::wire::i16_to_be(value)
    }
}

impl PrimitiveWriter<i32> for Int32Type {
    open spec fn spec_write(value: i32) -> Seq<u8> {
        nat_to_be(from_signed(value as int, 0x1_0000_0000), 4)
    }

    fn write(value: i32) -> (r: Vec<u8>)
        ensures
            r@ == Self::spec_write(value),
    {
        crate::wire::i32_to_be(value)
    }
}

impl PrimitiveWriter<i64> for Int64Type {
    open spec fn spec_write(value: i64) -> Seq<u8> {
        nat_to_be(from_signed(value as int, 0x1_0000_0000_0000_0000), 8)
    }

    fn write(value: i64) -> (r: Vec<u8>)
        ensures
            r@ == Self::spec_write(value),
    {
        crate::wire::i64_to_be(value)
    }
}

impl PrimitiveWriter<i8> for Int8Type {
    open spec fn spec_write(value: i8) -> Seq<u8> {
        nat_to_be(from_signed(value as int, 0x100), 1)
    }

    fn write(value: i8) -> (r: Vec<u8>)
        ensures
            r@ == Self::spec_write(value),
    {
        crate::wire::i8_to_be(value)
    }
}

impl PrimitiveWriter<u16> for UInt16Type {
    open spec fn spec_write(value: u16) -> Seq<u8> {
        nat_to_be(value as nat, 2)
    }

    fn write(value: u16) -> (r: Vec<u8>)
        ensures
            r@ == Self::spec_write(value),
    {
        crate::wire::u16_to_be(value)
    }
}

impl PrimitiveWriter<u32> for UInt32Type {
    open spec fn spec_write(value: u32) -> Seq<u8> {
        nat_to_be(value as nat, 4)
    }

    fn write(value: u32) -> (r: Vec<u8>)
        ensures
            r@ == Self::spec_write(value),
    {
        crate::wire::u32_to_be(value)
    }
}

impl PrimitiveWriter<u64> for UInt64Type {
    open spec fn spec_write(value: u64) -> Seq<u8> {
        nat_to_be(value as nat, 8)
    }

    fn write(value: u64) -> (r: Vec<u8>)
        ensures
            r@ == Self::spec_write(value),
    {
        crate::wire::u64_to_be(value)
    }
}

impl PrimitiveWriter<u8> for UInt8Type {
    open spec fn spec_write(value: u8) -> Seq<u8> {
        seq![value]
    }

    fn write(value: u8) -> (r: Vec<u8>)
        ensures
            r@ == Self::spec_write(value),
    {
        let mut v: Vec<u8> = Vec::new();
        v.push(value);
        proof {
            assert(v@ =~= seq![value]);
        }
        v
    }
}

impl PrimitiveWriter<bool> for BooleanType {
    open spec fn spec_write(value: bool) -> Seq<u8> {
        if value {
            seq![1u8]
        } else {
            seq![0u8]
        }
    }

    fn write(value: bool) -> (r: Vec<u8>)
        ensures
            r@ == Self::spec_write(value),
    {
        let mut v: Vec<u8> = Vec::new();
        if value {
            v.push(1);
        } else {
            v.push(0);
        }
        proof {
            assert(v@ =~= Self::spec_write(value));
        }
        v
    }
}

impl PrimitiveWriter<String> for Utf8Type {
    open spec fn spec_write(value: String) -> Seq<u8> {
        vstd::utf8::encode_utf8(value@)
    }

    fn write(value: String) -> (r: Vec<u8>)
        ensures
            r@ == Self::spec_write(value),
    {
        value.as_str().as_bytes_vec()
    }
}


/// 2 raised to `k`.
pub open spec fn pow2k(k: nat) -> nat
    decreases k,
{
    if k == 0 {
        1
    } else {
        2 * pow2k((k - 1) as nat)
    }
}

/// The floor of the base-two logarithm.
pub open spec fn spec_ilog2(n: nat) -> nat
    decreases n,
{
    if n < 2 {
        0
    } else {
        1 + spec_ilog2(n / 2)
    }
}

#[verifier::rlimit(50)]
pub proof fn lemma_ilog2_bounds(n: nat)
    requires
        n >= 1,
    ensures
        pow2k(spec_ilog2(n)) <= n < pow2k(spec_ilog2(n) + 1),
    decreases n,
{
    if n >= 2 {
        lemma_ilog2_bounds(n / 2);
        let p = spec_ilog2(n / 2);
        vstd::arithmetic::div_mod::lemma_fundamental_div_mod(n as int, 2);
        assert(spec_ilog2(n) == 1 + p);
        assert(pow2k((p + 1) as nat) == 2 * pow2k(p));
        assert(pow2k((p + 2) as nat) == 2 * pow2k((p + 1) as nat));
        assert(n == 2 * (n / 2) + n % 2);
        assert(2 * pow2k(p) <= 2 * (n / 2)) by (nonlinear_arith)
            requires
                pow2k(p) <= n / 2,
        {
        }
        assert(2 * (n / 2) + 2 <= 2 * pow2k(p + 1)) by (nonlinear_arith)
            requires
                n / 2 + 1 <= pow2k(p + 1),
        {
        }
    } else {
        assert(spec_ilog2(n) == 0);
        assert(pow2k(0) == 1);
        assert(pow2k(1) == 2 * pow2k(0));
    }
}

/// The single-precision bit pattern of a small whole number: the list
/// format stores element-count fields this way.  Exact for counts below
/// two to the twenty-fourth; larger counts have no exact single-precision
/// form and are clamped to the largest that does.
pub open spec fn spec_len_bits(n: nat) -> nat {
    let n2 = if n < 0x1000000 {
        n
    } else {
        0xffffff
    };
    if n2 == 0 {
        0
    } else {
        let p = spec_ilog2(n2);
        ((127 + p) * 0x800000 + (n2 * pow2k((23 - p) as nat) - 0x800000)) as nat
    }
}

/// The whole number a single-precision bit pattern stands for, rounded
/// toward zero; `None` for patterns no list length field uses (negative,
/// fractional-only exponents out of range, infinities, NaN).
pub open spec fn spec_bits_len(bits: nat) -> Option<nat> {
    if bits == 0 {
        Some(0)
    } else {
        let e = bits / 0x800000;
        let m = bits % 0x800000;
        if 127 <= e <= 150 {
            Some((m + 0x800000) / pow2k((150 - e) as nat))
        } else {
            None
        }
    }
}

proof fn lemma_pow2k_values()
    ensures
        pow2k(23) == 0x800000,
        pow2k(24) == 0x1000000,
{
    reveal_with_fuel(pow2k, 25);
}

proof fn lemma_pow2k_split(a: nat, b: nat)
    requires
        a <= b,
    ensures
        pow2k(b) == pow2k(a) * pow2k((b - a) as nat),
    decreases b - a,
{
    if a == b {
        assert(pow2k(0) == 1);
        assert(pow2k(a) * 1 == pow2k(a)) by (nonlinear_arith);
    } else {
        lemma_pow2k_split(a, (b - 1) as nat);
        let d = (b - 1 - a) as nat;
        assert(pow2k((b - a) as nat) == 2 * pow2k(d));
        assert(pow2k(b) == 2 * pow2k((b - 1) as nat));
        assert(2 * (pow2k(a) * pow2k(d)) == pow2k(a) * (2 * pow2k(d))) by (nonlinear_arith);
    }
}

/// Reading a written length field gives back the length (clamped form).
pub proof fn lemma_len_bits_round_trip(n: nat)
    requires
        n < 0x1000000,
    ensures
        spec_bits_len(spec_len_bits(n)) == Some(n),
{
    if n == 0 {
    } else {
        lemma_ilog2_bounds(n);
        let p = spec_ilog2(n);
        lemma_pow2k_values();
        assert(p <= 23) by {
            if p >= 24 {
                lemma_pow2k_monotonic(24, p);
            }
        }
        let k = (23 - p) as nat;
        let scaled = n * pow2k(k);
        lemma_pow2k_split(k, 23nat);
        lemma_pow2k_split(k, 24nat);
        assert(scaled >= pow2k(p) * pow2k(k)) by (nonlinear_arith)
            requires
                scaled == n * pow2k(k),
                n >= pow2k(p),
                pow2k(k) >= 0,
        {
        }
        assert(pow2k(p) * pow2k(k) == pow2k(23)) by {
            lemma_pow2k_split(k, 23nat);
            assert((23 - k) as nat == p);
            assert(pow2k(23) == pow2k(k) * pow2k(p));
            assert(pow2k(k) * pow2k(p) == pow2k(p) * pow2k(k)) by (nonlinear_arith);
        }
        assert(scaled < pow2k(p + 1) * pow2k(k)) by (nonlinear_arith)
            requires
                scaled == n * pow2k(k),
                n < pow2k(p + 1),
                pow2k(k) > 0,
        {
        }
        assert(pow2k(p + 1) * pow2k(k) == pow2k(24)) by {
            lemma_pow2k_split(k, 24nat);
            assert(pow2k(24) == pow2k(k) * pow2k((24 - k) as nat));
            assert((24 - k) as nat == p + 1);
            assert(pow2k(k) * pow2k((24 - k) as nat) == pow2k(k) * pow2k(p + 1));
            assert(pow2k(k) * pow2k(p + 1) == pow2k(p + 1) * pow2k(k)) by (nonlinear_arith);
        }
        let mant = (scaled - 0x800000) as nat;
        let bits = ((127 + p) * 0x800000 + mant) as nat;
        assert(spec_len_bits(n) == bits);
        assert(mant < 0x800000);
        vstd::arithmetic::div_mod::lemma_fundamental_div_mod_converse(
            bits as int,
            0x800000,
            (127 + p) as int,
            mant as int,
        );
        assert(bits / 0x800000 == 127 + p);
        assert(bits % 0x800000 == mant);
        assert(bits != 0) by (nonlinear_arith)
            requires
                bits == (127 + p) * 0x800000 + mant,
                p >= 0,
                mant >= 0,
        {
        }
        let e = (127 + p) as nat;
        assert((150 - e) as nat == k);
        assert(mant + 0x800000 == scaled);
        assert(scaled / pow2k(k) == n) by {
            lemma_pow2k_pos(k);
            assert(scaled == pow2k(k) * n) by (nonlinear_arith)
                requires
                    scaled == n * pow2k(k),
            {
            }
            vstd::arithmetic::div_mod::lemma_div_multiples_vanish(
                n as int,
                pow2k(k) as int,
            );
        }
    }
}

proof fn lemma_pow2k_pos(k: nat)
    ensures
        pow2k(k) >= 1,
    decreases k,
{
    if k > 0 {
        lemma_pow2k_pos((k - 1) as nat);
    }
}

proof fn lemma_pow2k_monotonic(a: nat, b: nat)
    requires
        a <= b,
    ensures
        pow2k(a) <= pow2k(b),
    decreases b,
{
    if a < b {
        lemma_pow2k_monotonic(a, (b - 1) as nat);
        lemma_pow2k_pos(a);
    }
}


proof fn lemma_ilog2_unique(n: nat, p: nat)
    requires
        n >= 1,
        pow2k(p) <= n < pow2k(p + 1),
    ensures
        spec_ilog2(n) == p,
    decreases p,
{
    if p == 0 {
    } else {
        assert(pow2k(p) >= 2) by {
            lemma_pow2k_monotonic(1, p);
        }
        vstd::arithmetic::div_mod::lemma_fundamental_div_mod(n as int, 2);
        assert(pow2k((p - 1) as nat) <= n / 2) by (nonlinear_arith)
            requires
                2 * pow2k((p - 1) as nat) <= n,
                n == 2 * (n / 2) + n % 2,
                0 <= n % 2 < 2,
        {
        }
        assert(n / 2 < pow2k(p)) by (nonlinear_arith)
            requires
                n < 2 * pow2k(p),
                n == 2 * (n / 2) + n % 2,
                0 <= n % 2 < 2,
        {
        }
        lemma_ilog2_unique(n / 2, (p - 1) as nat);
    }
}

/// Writes the length field of one list element.
fn len_bits(n: usize) -> (r: u32)
    ensures
        r == spec_len_bits(n as nat),
{
    let n2: usize = if n < 0x1000000 {
        n
    } else {
        0xffffff
    };
    if n2 == 0 {
        return 0;
    }
    proof {
        lemma_pow2k_values();
    }
    // the position of the leading binary digit
    let mut p: usize = 0;
    let mut t: usize = 1;
    loop
        invariant
            1 <= n2 < 0x1000000,
            t == pow2k(p as nat),
            1 <= t <= n2,
            p <= 23,
        ensures
            t == pow2k(p as nat),
            t <= n2 < 2 * t,
            p <= 23,
        decreases n2 - t,
    {
        proof {
            if p >= 24 {
                lemma_pow2k_values();
                lemma_pow2k_monotonic(24, p as nat);
            }
        }
        if t * 2 > n2 {
            break;
        }
        t = t * 2;
        p += 1;
        proof {
            if p >= 24 {
                lemma_pow2k_values();
                lemma_pow2k_monotonic(24, p as nat);
            }
        }
    }
    proof {
        lemma_ilog2_unique(n2 as nat, p as nat);
    }
    // scale the value so its leading digit reaches position 23
    let k = 23 - p;
    let mut m: u64 = n2 as u64;
    let mut j: usize = 0;
    proof {
        assert(pow2k(0) == 1);
        assert(n2 as nat * 1 == n2 as nat) by (nonlinear_arith);
    }
    while j < k
        invariant
            j <= k,
            k == 23 - p,
            p <= 23,
            1 <= n2 < 0x1000000,
            n2 < pow2k((p + 1) as nat),
            m == n2 as nat * pow2k(j as nat),
            m < 0x1000000000000,
        decreases k - j,
    {
        proof {
            assert(n2 as nat * pow2k((j + 1) as nat) == 2 * (n2 as nat * pow2k(j as nat)))
                by (nonlinear_arith)
                requires
                    pow2k((j + 1) as nat) == 2 * pow2k(j as nat),
            {
            }
            assert(m * 2 < 0x1000000000000) by {
                lemma_pow2k_values();
                lemma_pow2k_monotonic((j + 1) as nat, 24);
                assert(n2 as nat * pow2k((j + 1) as nat) < 0x1000000 * 0x1000000)
                    by (nonlinear_arith)
                    requires
                        n2 < 0x1000000,
                        pow2k((j + 1) as nat) <= 0x1000000,
                        n2 >= 0,
                {
                }
            }
        }
        m = m * 2;
        j += 1;
    }
    proof {
        // the scaled value sits between two to the 23rd and two to the
        // 24th, exactly as in the specification
        lemma_pow2k_values();
        let scaled = n2 as nat * pow2k(k as nat);
        assert(m == scaled);
        lemma_pow2k_split(k as nat, 23nat);
        assert((23 - k) as nat == p as nat);
        assert(scaled >= pow2k(p as nat) * pow2k(k as nat)) by (nonlinear_arith)
            requires
                scaled == n2 as nat * pow2k(k as nat),
                n2 >= pow2k(p as nat),
                pow2k(k as nat) >= 0,
        {
        }
        assert(pow2k(23) == pow2k(k as nat) * pow2k(p as nat));
        assert(pow2k(k as nat) * pow2k(p as nat) == pow2k(p as nat) * pow2k(k as nat))
            by (nonlinear_arith);
        lemma_pow2k_split(k as nat, 24nat);
        assert((24 - k) as nat == (p + 1) as nat);
        assert(scaled < pow2k((p + 1) as nat) * pow2k(k as nat)) by (nonlinear_arith)
            requires
                scaled == n2 as nat * pow2k(k as nat),
                n2 < pow2k((p + 1) as nat),
                pow2k(k as nat) > 0,
        {
        }
        assert(pow2k(24) == pow2k(k as nat) * pow2k((p + 1) as nat));
        assert(pow2k(k as nat) * pow2k((p + 1) as nat) == pow2k((p + 1) as nat) * pow2k(k as nat))
            by (nonlinear_arith);
        lemma_pow2k_pos(k as nat);
    }
    let mant = (m as u32) - 0x800000;
    (127 + p as u32) * 0x800000 + mant
}

/// Reads the length field of one list element.
fn bits_len(bits: u32) -> (r: Option<u32>)
    ensures
        match r {
            Some(v) => spec_bits_len(bits as nat) == Some(v as nat),
            None => spec_bits_len(bits as nat) is None,
        },
{
    if bits == 0 {
        return Some(0);
    }
    let e = bits / 0x800000;
    let m = bits % 0x800000;
    if e < 127 || e > 150 {
        return None;
    }
    let k = (150 - e) as usize;
    let mut v: u32 = m + 0x800000;
    let mut j: usize = 0;
    proof {
        assert(pow2k(0) == 1);
        assert(v as nat / 1 == v as nat);
    }
    while j < k
        invariant
            j <= k,
            k <= 23,
            v == (m + 0x800000) as nat / pow2k(j as nat),
        decreases k - j,
    {
        proof {
            lemma_pow2k_pos(j as nat);
            vstd::arithmetic::div_mod::lemma_div_denominator(
                (m + 0x800000) as int,
                pow2k(j as nat) as int,
                2,
            );
            assert(pow2k(j as nat) * 2 == pow2k((j + 1) as nat)) by (nonlinear_arith)
                requires
                    pow2k((j + 1) as nat) == 2 * pow2k(j as nat),
            {
            }
        }
        v = v / 2;
        j += 1;
    }
    Some(v)
}



/// The wire form of a list of text values: each element as its UTF-8
/// bytes, preceded by a four-byte length field holding the byte count as
/// a single-precision bit pattern.
pub open spec fn spec_write_list(items: Seq<Seq<char>>) -> Seq<u8>
    decreases items.len(),
{
    if items.len() == 0 {
        Seq::empty()
    } else {
        spec_write_list(items.drop_last()) + nat_to_be(
            spec_len_bits(vstd::utf8::encode_utf8(items.last()).len()),
            4,
        ) + vstd::utf8::encode_utf8(items.last())
    }
}

/// Reading the wire form back: `None` for a length field no list writes,
/// a length past the end of the bytes, or text that is not UTF-8.
pub open spec fn spec_parse_list(b: Seq<u8>) -> Option<Seq<Seq<char>>>
    decreases b.len(),
{
    if b.len() == 0 {
        Some(Seq::empty())
    } else if b.len() < 4 {
        None
    } else {
        match spec_bits_len(be_to_nat(b.take(4))) {
            None => None,
            Some(len) => {
                if len + 4 > b.len() {
                    None
                } else if !valid_utf8(b.subrange(4, 4 + len as int)) {
                    None
                } else {
                    match spec_parse_list(b.skip(4 + len as int)) {
                        None => None,
                        Some(rest) => Some(
                            seq![decode_utf8(b.subrange(4, 4 + len as int))] + rest,
                        ),
                    }
                }
            },
        }
    }
}

/// Splices a parsed prefix onto the parse of the remaining bytes.
pub open spec fn spec_glue(acc: Seq<Seq<char>>, tail: Option<Seq<Seq<char>>>) -> Option<
    Seq<Seq<char>>,
> {
    match tail {
        None => None,
        Some(r) => Some(acc + r),
    }
}

/// A list of text values.
pub struct ListType {
    pub value: Option<Vec<String>>,
}

impl PrimitiveParser<Vec<String>> for ListType {
    open spec fn spec_parse(bytes: Seq<u8>) -> Option<Seq<Seq<char>>> {
        spec_parse_list(bytes)
    }

    #[verifier::rlimit(100)]
    fn parse(bytes: &[u8]) -> (r: Option<Vec<String>>)
        ensures
            match (r, Self::spec_parse(bytes@)) {
                (Some(v), Some(m)) => v.deep_view() == m,
                (None, None) => true,
                _ => false,
            },
    {
        let n = bytes.len();
        let mut out: Vec<String> = Vec::new();
        let mut i: usize = 0;
        proof {
            assert(bytes@.skip(0) =~= bytes@);
            assert(out.deep_view() =~= Seq::<Seq<char>>::empty());
            match spec_parse_list(bytes@) {
                Some(r0) => {
                    assert(out.deep_view() + r0 =~= r0);
                },
                None => {},
            }
        }
        while i < n
            invariant
                i <= n,
                n == bytes@.len(),
                spec_parse_list(bytes@) == spec_glue(
                    out.deep_view(),
                    spec_parse_list(bytes@.skip(i as int)),
                ),
            decreases n - i,
        {
            let ghost tail = bytes@.skip(i as int);
            if n - i < 4 {
                return None;
            }
            let head = slice_subrange(bytes, i, i + 4);
            proof {
                assert(head@ =~= tail.take(4));
            }
            let lenbits = crate::wire::u32_from_be(head);
            let len32 = match bits_len(lenbits) {
                Some(v) => v,
                None => {
                    return None;
                },
            };
            let len = len32 as usize;
            if len > n - i - 4 {
                return None;
            }
            let piece = slice_subrange(bytes, i + 4, i + 4 + len);
            proof {
                assert(piece@ =~= tail.subrange(4, 4 + len as int));
            }
            let s = match bytes_to_string(piece) {
                Some(s) => s,
                None => {
                    return None;
                },
            };
            proof {
                vstd::utf8::encode_utf8_decode_utf8(s@);
                assert(decode_utf8(tail.subrange(4, 4 + len as int)) == s@);
                assert(bytes@.skip(i + 4 + len) =~= tail.skip(4 + len as int));
            }
            let ghost out0 = out.deep_view();
            out.push(s);
            proof {
                assert(out.deep_view() =~= out0.push(s@));
                let rest_opt = spec_parse_list(bytes@.skip(i + 4 + len));
                match rest_opt {
                    None => {},
                    Some(rest) => {
                        assert(spec_parse_list(tail) == Some(seq![s@] + rest));
                        assert(out0 + (seq![s@] + rest) =~= out0.push(s@) + rest);
                    },
                }
            }
            i = i + 4 + len;
        }
        proof {
            assert(bytes@.skip(n as int).len() == 0);
            assert(spec_parse_list(bytes@.skip(n as int)) == Some(Seq::<Seq<char>>::empty()));
            assert(out.deep_view() + Seq::<Seq<char>>::empty() =~= out.deep_view());
        }
        Some(out)
    }
}

impl PrimitiveWriter<Vec<String>> for ListType {
    open spec fn spec_write(value: Vec<String>) -> Seq<u8> {
        spec_write_list(value.deep_view())
    }

    fn write(value: Vec<String>) -> (r: Vec<u8>)
        ensures
            r@ == Self::spec_write(value),
    {
        let ghost items = value.deep_view();
        let mut out: Vec<u8> = Vec::new();
        let n = value.len();
        let mut i: usize = 0;
        proof {
            assert(items.take(0) =~= Seq::<Seq<char>>::empty());
        }
        while i < n
            invariant
                i <= n,
                n == value@.len(),
                items == value.deep_view(),
                items.len() == n,
                out@ =~= spec_write_list(items.take(i as int)),
            decreases n - i,
        {
            let sbytes = value[i].as_str().as_bytes_vec();
            proof {
                assert(items[i as int] == value@[i as int]@);
                assert(sbytes@ == vstd::utf8::encode_utf8(items[i as int]));
            }
            let lb = len_bits(sbytes.len());
            let mut field = crate::wire::u32_to_be(lb);
            out.append(&mut field);
            let mut sb = sbytes;
            out.append(&mut sb);
            proof {
                assert(items.take(i + 1).drop_last() =~= items.take(i as int));
                assert(items.take(i + 1).last() == items[i as int]);
                assert(out@ =~= spec_write_list(items.take(i + 1)));
            }
            i += 1;
        }
        proof {
            assert(items.take(n as int) =~= items);
        }
        out
    }
}


/// One encoded list element: the length field, then the text bytes.
pub open spec fn spec_list_field(item: Seq<char>) -> Seq<u8> {
    nat_to_be(spec_len_bits(vstd::utf8::encode_utf8(item).len()), 4) + vstd::utf8::encode_utf8(
        item,
    )
}

proof fn lemma_write_list_front(items: Seq<Seq<char>>)
    requires
        items.len() >= 1,
    ensures
        spec_write_list(items) == spec_list_field(items[0]) + spec_write_list(items.drop_first()),
    decreases items.len(),
{
    if items.len() == 1 {
        assert(items.drop_last() =~= Seq::<Seq<char>>::empty());
        assert(items.drop_first() =~= Seq::<Seq<char>>::empty());
        assert(items.last() == items[0]);
        assert(spec_list_field(items[0]) + spec_write_list(items.drop_first()) =~= spec_list_field(
            items[0],
        ));
        assert(spec_write_list(items) =~= spec_list_field(items[0]));
    } else {
        lemma_write_list_front(items.drop_last());
        assert(items.drop_last()[0] == items[0]);
        assert(items.drop_last().drop_first() =~= items.drop_first().drop_last());
        assert(items.drop_first().last() == items.last());
        assert(spec_write_list(items.drop_first()) == spec_write_list(
            items.drop_first().drop_last(),
        ) + spec_list_field(items.last())) by {
            assert(spec_write_list(items.drop_first()) =~= spec_write_list(
                items.drop_first().drop_last(),
            ) + spec_list_field(items.drop_first().last()));
        }
        assert(spec_write_list(items) =~= spec_list_field(items[0]) + spec_write_list(
            items.drop_first(),
        ));
    }
}

proof fn lemma_len_bits_small(n: nat)
    ensures
        spec_len_bits(n) < 0x1_0000_0000,
{
    let n2: nat = if n < 0x1000000 {
        n
    } else {
        0xffffff
    };
    if n2 != 0 {
        lemma_pow2k_values();
        let p = spec_ilog2(n2);
        assert(p <= 23) by {
            if p >= 24 {
                lemma_pow2k_monotonic(24, p);
                lemma_ilog2_bounds(n2);
            }
        }
        lemma_ilog2_bounds(n2);
        let k = (23 - p) as nat;
        lemma_pow2k_split(k, 24nat);
        assert(n2 * pow2k(k) < pow2k((p + 1) as nat) * pow2k(k)) by (nonlinear_arith)
            requires
                n2 < pow2k((p + 1) as nat),
                pow2k(k) > 0,
        {
            assert(pow2k(k) >= 1) by {
                lemma_pow2k_pos(k);
            }
        }
        assert(pow2k(k) > 0) by {
            lemma_pow2k_pos(k);
        }
        assert(pow2k((p + 1) as nat) * pow2k(k) == pow2k(24)) by {
            assert((24 - k) as nat == p + 1);
            assert(pow2k(24) == pow2k(k) * pow2k((24 - k) as nat));
            assert(pow2k(k) * pow2k((p + 1) as nat) == pow2k((p + 1) as nat) * pow2k(k))
                by (nonlinear_arith);
        }
        assert((127 + p) * 0x800000 <= 150 * 0x800000) by (nonlinear_arith)
            requires
                p <= 23,
        {
        }
    }
}

/// Writing a list of texts and parsing the bytes back returns the same
/// list, as long as no text is longer than the length field carries
/// exactly (fewer than two to the twenty-fourth bytes).
pub proof fn lemma_list_round_trip(items: Seq<Seq<char>>)
    requires
        forall|i: int|
            0 <= i < items.len() ==> vstd::utf8::encode_utf8(#[trigger] items[i]).len()
                < 0x1000000,
    ensures
        spec_parse_list(spec_write_list(items)) == Some(items),
    decreases items.len(),
{
    if items.len() == 0 {
        assert(spec_write_list(items).len() == 0);
        assert(Seq::<Seq<char>>::empty() =~= items);
    } else {
        lemma_write_list_front(items);
        let first = items[0];
        let eb = vstd::utf8::encode_utf8(first);
        let field = spec_list_field(first);
        let rest_bytes = spec_write_list(items.drop_first());
        let b = spec_write_list(items);
        assert(b == field + rest_bytes);
        lemma_len_bits_small(eb.len());
        crate::wire::lemma_pow256_values();
        crate::wire::lemma_nat_to_be_len(spec_len_bits(eb.len()), 4);
        crate::wire::lemma_be_round_trip_nat(spec_len_bits(eb.len()), 4);
        assert(b.len() >= 4 + eb.len());
        assert(b.take(4) =~= nat_to_be(spec_len_bits(eb.len()), 4));
        assert(be_to_nat(b.take(4)) == spec_len_bits(eb.len()));
        lemma_len_bits_round_trip(eb.len());
        assert(spec_bits_len(be_to_nat(b.take(4))) == Some(eb.len()));
        assert(b.subrange(4, 4 + eb.len() as int) =~= eb);
        vstd::utf8::encode_utf8_valid_utf8(first);
        vstd::utf8::encode_utf8_decode_utf8(first);
        assert(b.skip(4 + eb.len() as int) =~= rest_bytes);
        lemma_list_round_trip(items.drop_first());
        assert(seq![first] + items.drop_first() =~= items);
    }
}

} // verus!
