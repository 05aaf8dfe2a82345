//! Big-endian byte codecs for the fixed-width binary table types.
//!
//! FITS stores every fixed-width binary value in network byte order.  The
//! functions here convert between byte strings and machine integers; floats
//! travel as their IEEE-754 bit patterns (`u32` / `u64`), which keeps the
//! codec bit-exact.

use vstd::prelude::*;
use vstd::slice::slice_index_get;

verus! {

/// 256 raised to `n`.
pub open spec fn pow256(n: nat) -> nat
    decreases n,
{
    if n == 0 {
        1
    } else {
        256 * pow256((n - 1) as nat)
    }
}

/// The unsigned value of a big-endian byte string.
pub open spec fn be_to_nat(s: Seq<u8>) -> nat
    decreases s.len(),
{
    if s.len() == 0 {
        0
    } else {
        (be_to_nat(s.drop_last()) * 256 + s.last()) as nat
    }
}

/// The `n` big-endian bytes of `x`, most significant first.
pub open spec fn nat_to_be(x: nat, n: nat) -> Seq<u8>
    decreases n,
{
    if n == 0 {
        Seq::empty()
    } else {
        nat_to_be(x / 256, (n - 1) as nat).push((x % 256) as u8)
    }
}

pub proof fn lemma_nat_to_be_len(x: nat, n: nat)
    ensures
        nat_to_be(x, n).len() == n,
    decreases n,
{
    if n > 0 {
        lemma_nat_to_be_len(x / 256, (n - 1) as nat);
    }
}

pub proof fn lemma_be_to_nat_bound(s: Seq<u8>)
    ensures
        be_to_nat(s) < pow256(s.len()),
    decreases s.len(),
{
    if s.len() > 0 {
        lemma_be_to_nat_bound(s.drop_last());
    }
}

/// Decoding the encoding of `x` gives `x` back.
pub proof fn lemma_be_round_trip_nat(x: nat, n: nat)
    requires
        x < pow256(n),
    ensures
        be_to_nat(nat_to_be(x, n)) == x,
    decreases n,
{
    if n == 0 {
    } else {
        assert(pow256(n) == 256 * pow256((n - 1) as nat));
        assert(x / 256 < pow256((n - 1) as nat)) by {
            if x / 256 >= pow256((n - 1) as nat) {
                assert(x >= 256 * pow256((n - 1) as nat)) by (nonlinear_arith)
                    requires
                        x / 256 >= pow256((n - 1) as nat),
                {
                }
            }
        }
        lemma_be_round_trip_nat(x / 256, (n - 1) as nat);
        let s = nat_to_be(x / 256, (n - 1) as nat);
        assert(s.push((x % 256) as u8).drop_last() == s);
        assert(be_to_nat(nat_to_be(x, n)) == be_to_nat(s) * 256 + x % 256);
    }
}

/// Reads up to eight big-endian bytes as an unsigned value.
pub fn be_bytes_to_u64(s: &[u8]) -> (r: u64)
    requires
        s@.len() <= 8,
    ensures
        r == be_to_nat(s@),
{
    let n = s.len();
    let mut acc: u64 = 0;
    let mut i: usize = 0;
    while i < n
        invariant
            i <= n,
            n == s@.len(),
            n <= 8,
            acc == be_to_nat(s@.take(i as int)),
        decreases n - i,
    {
        proof {
            lemma_be_to_nat_bound(s@.take(i as int));
            lemma_pow256_monotonic(i as nat, 7);
            lemma_pow256_values();
        }
        let b = *slice_index_get(s, i);
        acc = acc * 256 + (b as u64);
        proof {
            assert(s@.take(i + 1).drop_last() =~= s@.take(i as int));
            assert(s@.take(i + 1).last() == s@[i as int]);
        }
        i += 1;
    }
    proof {
        assert(s@.take(n as int) =~= s@);
    }
    acc
}

pub proof fn lemma_pow256_monotonic(a: nat, b: nat)
    requires
        a <= b,
    ensures
        pow256(a) <= pow256(b),
    decreases b,
{
    if a < b {
        lemma_pow256_monotonic(a, (b - 1) as nat);
    }
}

/// Concrete powers of 256 that the codecs need.
pub proof fn lemma_pow256_values()
    ensures
        pow256(0) == 1,
        pow256(1) == 0x100,
        pow256(2) == 0x10000,
        pow256(4) == 0x1_0000_0000,
        pow256(7) == 0x100_0000_0000_0000,
        pow256(8) == 0x1_0000_0000_0000_0000,
{
    reveal_with_fuel(pow256, 9);
}

/// Writes the `n` big-endian bytes of `x`.
pub fn u64_to_be_bytes(x: u64, n: usize) -> (r: Vec<u8>)
    requires
        n <= 8,
        x < pow256(n as nat),
    ensures
        r@ == nat_to_be(x as nat, n as nat),
        r@.len() == n,
    decreases n,
{
    proof {
        lemma_nat_to_be_len(x as nat, n as nat);
    }
    if n == 0 {
        Vec::new()
    } else {
        proof {
            assert(pow256(n as nat) == 256 * pow256((n - 1) as nat));
            assert(x / 256 < pow256((n - 1) as nat)) by {
                if x / 256 >= pow256((n - 1) as nat) {
                    assert(x >= 256 * pow256((n - 1) as nat)) by (nonlinear_arith)
                        requires
                            x as nat / 256 >= pow256((n - 1) as nat),
                    {
                    }
                }
            }
        }
        let mut v = u64_to_be_bytes(x / 256, n - 1);
        v.push((x % 256) as u8);
        v
    }
}

/// Two's-complement reading of an unsigned value below `m` (`m` a power of
/// two): values in the upper half stand for negatives.
pub open spec fn to_signed(v: nat, m: nat) -> int {
    if 2 * v >= m {
        v - m
    } else {
        v as int
    }
}

/// Inverse of [`to_signed`] for `-m/2 <= x < m/2`.
pub open spec fn from_signed(x: int, m: nat) -> nat {
    if x < 0 {
        (x + m) as nat
    } else {
        x as nat
    }
}

pub proof fn lemma_signed_round_trip(x: int, m: nat)
    requires
        0 < m,
        -(m as int) <= 2 * x < m,
    ensures
        to_signed(from_signed(x, m), m) == x,
{
}

/// Reads two big-endian bytes as an `i16`.
pub fn i16_from_be(s: &[u8]) -> (r: i16)
    requires
        s@.len() == 2,
    ensures
        r as int == to_signed(be_to_nat(s@), 0x10000),
{
    proof {
        lemma_be_to_nat_bound(s@);
        lemma_pow256_values();
    }
    let u = be_bytes_to_u64(s);
    if u >= 0x8000 {
        ((u as i32) - 0x10000) as i16
    } else {
        u as i16
    }
}

/// Writes an `i16` as two big-endian bytes.
pub fn i16_to_be(x: i16) -> (r: Vec<u8>)
    ensures
        r@ == nat_to_be(from_signed(x as int, 0x10000), 2),
        r@.len() == 2,
{
    proof {
        lemma_pow256_values();
    }
    let u: u64 = if x < 0 {
        ((x as i32) + 0x10000) as u64
    } else {
        x as u64
    };
    u64_to_be_bytes(u, 2)
}

/// Reads four big-endian bytes as an `i32`.
pub fn i32_from_be(s: &[u8]) -> (r: i32)
    requires
        s@.len() == 4,
    ensures
        r as int == to_signed(be_to_nat(s@), 0x1_0000_0000),
{
    proof {
        lemma_be_to_nat_bound(s@);
        lemma_pow256_values();
    }
    let u = be_bytes_to_u64(s);
    if u >= 0x8000_0000 {
        ((u as i64) - 0x1_0000_0000) as i32
    } else {
        u as i32
    }
}

/// Writes an `i32` as four big-endian bytes.
pub fn i32_to_be(x: i32) -> (r: Vec<u8>)
    ensures
        r@ == nat_to_be(from_signed(x as int, 0x1_0000_0000), 4),
        r@.len() == 4,
{
    proof {
        lemma_pow256_values();
    }
    let u: u64 = if x < 0 {
        (((x as i64) + 0x1_0000_0000) as u64)
    } else {
        x as u64
    };
    u64_to_be_bytes(u, 4)
}

/// Reads eight big-endian bytes as an `i64`.
pub fn i64_from_be(s: &[u8]) -> (r: i64)
    requires
        s@.len() == 8,
    ensures
        r as int == to_signed(be_to_nat(s@), 0x1_0000_0000_0000_0000),
{
    proof {
        lemma_be_to_nat_bound(s@);
        lemma_pow256_values();
    }
    let u = be_bytes_to_u64(s);
    if u >= 0x8000_0000_0000_0000 {
        ((u as i128) - 0x1_0000_0000_0000_0000) as i64
    } else {
        u as i64
    }
}

/// Writes an `i64` as eight big-endian bytes.
pub fn i64_to_be(x: i64) -> (r: Vec<u8>)
    ensures
        r@ == nat_to_be(from_signed(x as int, 0x1_0000_0000_0000_0000), 8),
        r@.len() == 8,
{
    proof {
        lemma_pow256_values();
    }
    let u: u64 = if x < 0 {
        (((x as i128) + 0x1_0000_0000_0000_0000) as u64)
    } else {
        x as u64
    };
    u64_to_be_bytes(u, 8)
}

/// Reads one byte as an `i8`.
pub fn i8_from_be(s: &[u8]) -> (r: i8)
    requires
        s@.len() == 1,
    ensures
        r as int == to_signed(be_to_nat(s@), 0x100),
{
    proof {
        lemma_be_to_nat_bound(s@);
        lemma_pow256_values();
    }
    let u = be_bytes_to_u64(s);
    if u >= 0x80 {
        ((u as i16) - 0x100) as i8
    } else {
        u as i8
    }
}

/// Writes an `i8` as one byte.
pub fn i8_to_be(x: i8) -> (r: Vec<u8>)
    ensures
        r@ == nat_to_be(from_signed(x as int, 0x100), 1),
        r@.len() == 1,
{
    proof {
        lemma_pow256_values();
    }
    let u: u64 = if x < 0 {
        (((x as i16) + 0x100) as u64)
    } else {
        x as u64
    };
    u64_to_be_bytes(u, 1)
}

/// Reads four big-endian bytes as a `u32` (float bit patterns).
pub fn u32_from_be(s: &[u8]) -> (r: u32)
    requires
        s@.len() == 4,
    ensures
        r == be_to_nat(s@),
{
    proof {
        lemma_be_to_nat_bound(s@);
        lemma_pow256_values();
    }
    be_bytes_to_u64(s) as u32
}

/// Writes a `u32` as four big-endian bytes.
pub fn u32_to_be(x: u32) -> (r: Vec<u8>)
    ensures
        r@ == nat_to_be(x as nat, 4),
        r@.len() == 4,
{
    proof {
        lemma_pow256_values();
    }
    u64_to_be_bytes(x as u64, 4)
}

/// Reads eight big-endian bytes as a `u64` (double bit patterns).
pub fn u64_from_be(s: &[u8]) -> (r: u64)
    requires
        s@.len() == 8,
    ensures
        r == be_to_nat(s@),
{
    be_bytes_to_u64(s)
}

/// Writes a `u64` as eight big-endian bytes.
pub fn u64_to_be(x: u64) -> (r: Vec<u8>)
    ensures
        r@ == nat_to_be(x as nat, 8),
        r@.len() == 8,
{
    proof {
        lemma_pow256_values();
        lemma_be_to_nat_bound(nat_to_be(x as nat, 8));
    }
    u64_to_be_bytes(x, 8)
}

/// Reads two big-endian bytes as a `u16`.
pub fn u16_from_be(s: &[u8]) -> (r: u16)
    requires
        s@.len() == 2,
    ensures
        r == be_to_nat(s@),
{
    proof {
        lemma_be_to_nat_bound(s@);
        lemma_pow256_values();
    }
    be_bytes_to_u64(s) as u16
}

/// Writes a `u16` as two big-endian bytes.
pub fn u16_to_be(x: u16) -> (r: Vec<u8>)
    ensures
        r@ == nat_to_be(x as nat, 2),
        r@.len() == 2,
{
    proof {
        lemma_pow256_values();
    }
    u64_to_be_bytes(x as u64, 2)
}

} // verus!
