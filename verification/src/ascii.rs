//! Fixed-width text fields for ASCII tables.
//!
//! ASCII table cells are character fields: numerics stand right-justified,
//! strings left-justified, and both are padded with spaces to the declared
//! field width.  Reading trims the spaces back off.  This module holds the
//! byte-level field operations and the decimal integer codec; floating
//! point text itself is produced outside the codec and only normalized and
//! justified here.

use vstd::prelude::*;
use vstd::slice::slice_index_get;
use crate::format::spec_is_digit;
use crate::format::spec_all_digits;
use crate::format::spec_dec_value;
use crate::format::all_digits;
use crate::format::lemma_dec_value_monotonic;

verus! {

/// `n` space bytes.
pub open spec fn spec_spaces(n: nat) -> Seq<u8> {
    Seq::new(n, |i: int| 0x20u8)
}

/// `v` padded on the left with spaces to width `w`.
pub open spec fn spec_right_justify(v: Seq<u8>, w: nat) -> Seq<u8> {
    spec_spaces((w - v.len()) as nat) + v
}

/// `v` padded on the right with spaces to width `w`.
pub open spec fn spec_left_justify(v: Seq<u8>, w: nat) -> Seq<u8> {
    v + spec_spaces((w - v.len()) as nat)
}

/// `v` without its leading spaces.
pub open spec fn spec_trim_start(t: Seq<u8>) -> Seq<u8>
    decreases t.len(),
{
    if t.len() > 0 && t[0] == 0x20 {
        spec_trim_start(t.drop_first())
    } else {
        t
    }
}

/// `v` without its trailing spaces.
pub open spec fn spec_trim_end(t: Seq<u8>) -> Seq<u8>
    decreases t.len(),
{
    if t.len() > 0 && t.last() == 0x20 {
        spec_trim_end(t.drop_last())
    } else {
        t
    }
}

/// `v` without leading and trailing spaces.
pub open spec fn spec_trim(t: Seq<u8>) -> Seq<u8> {
    spec_trim_end(spec_trim_start(t))
}

proof fn lemma_trim_start_characterize(t: Seq<u8>, lo: int)
    requires
        0 <= lo <= t.len(),
        forall|j: int| 0 <= j < lo ==> t[j] == 0x20,
        lo < t.len() ==> t[lo] != 0x20,
    ensures
        spec_trim_start(t) == t.skip(lo),
    decreases lo,
{
    if lo == 0 {
        assert(t.skip(0) =~= t);
    } else {
        lemma_trim_start_characterize(t.drop_first(), lo - 1);
        assert(t.drop_first().skip(lo - 1) =~= t.skip(lo));
    }
}

proof fn lemma_trim_end_characterize(t: Seq<u8>, hi: int)
    requires
        0 <= hi <= t.len(),
        forall|j: int| hi <= j < t.len() ==> t[j] == 0x20,
        hi > 0 ==> t[hi - 1] != 0x20,
    ensures
        spec_trim_end(t) == t.take(hi),
    decreases t.len(),
{
    if hi == t.len() {
        if t.len() > 0 {
            assert(t.take(hi) =~= t);
        } else {
            assert(t.take(0) =~= t);
        }
    } else {
        assert(t.last() == 0x20);
        lemma_trim_end_characterize(t.drop_last(), hi);
        assert(t.drop_last().take(hi) =~= t.take(hi));
    }
}

/// Copies `t` without its leading and trailing spaces.
pub fn trim_spaces(t: &[u8]) -> (r: Vec<u8>)
    ensures
        r@ == spec_trim(t@),
{
    let n = t.len();
    let mut lo: usize = 0;
    loop
        invariant
            lo <= n,
            n == t@.len(),
            forall|j: int| 0 <= j < lo ==> t@[j] == 0x20,
        ensures
            lo <= n,
            forall|j: int| 0 <= j < lo ==> t@[j] == 0x20,
            lo < n ==> t@[lo as int] != 0x20,
        decreases n - lo,
    {
        if lo >= n {
            break;
        }
        if *slice_index_get(t, lo) != 0x20 {
            break;
        }
        lo += 1;
    }
    let mut hi: usize = n;
    loop
        invariant
            lo <= hi <= n,
            n == t@.len(),
            forall|j: int| 0 <= j < lo ==> t@[j] == 0x20,
            lo < n ==> t@[lo as int] != 0x20,
            forall|j: int| hi <= j < n ==> t@[j] == 0x20,
        ensures
            lo <= hi <= n,
            forall|j: int| hi <= j < n ==> t@[j] == 0x20,
            hi > lo ==> t@[hi - 1] != 0x20,
        decreases hi,
    {
        if hi <= lo {
            break;
        }
        if *slice_index_get(t, hi - 1) != 0x20 {
            break;
        }
        hi -= 1;
    }
    proof {
        lemma_trim_start_characterize(t@, lo as int);
        let u = t@.skip(lo as int);
        if hi > lo {
            lemma_trim_end_characterize(u, hi - lo);
        } else {
            // everything from lo on is spaces, so the suffix trims away
            assert(forall|j: int| 0 <= j < u.len() ==> u[j] == 0x20);
            lemma_trim_end_characterize(u, 0);
        }
        assert(u.take(hi - lo) =~= t@.subrange(lo as int, hi as int));
    }
    let mid = vstd::slice::slice_subrange(t, lo, hi);
    vstd::slice::slice_to_vec(mid)
}

/// Trimming does nothing to a byte string without spaces at its ends.
pub proof fn lemma_trim_of_clean(v: Seq<u8>)
    requires
        v.len() > 0 ==> v[0] != 0x20,
        v.len() > 0 ==> v.last() != 0x20,
    ensures
        spec_trim(v) == v,
{
}

/// Trimming recovers a right-justified field whose payload neither starts
/// nor ends with a space.
pub proof fn lemma_trim_right_justify(v: Seq<u8>, w: nat)
    requires
        v.len() <= w,
        v.len() > 0 ==> v[0] != 0x20,
        v.len() > 0 ==> v.last() != 0x20,
    ensures
        spec_trim(spec_right_justify(v, w)) == v,
{
    lemma_trim_start_spaces_prefix((w - v.len()) as nat, v);
    if v.len() > 0 {
        lemma_trim_of_clean(v);
    } else {
        assert(spec_trim_start(v) == v);
    }
}

/// Trimming recovers a left-justified field likewise.
pub proof fn lemma_trim_left_justify(v: Seq<u8>, w: nat)
    requires
        v.len() <= w,
        v.len() > 0 ==> v[0] != 0x20,
        v.len() > 0 ==> v.last() != 0x20,
    ensures
        spec_trim(spec_left_justify(v, w)) == v,
{
    if v.len() > 0 {
        assert(spec_trim_start(spec_left_justify(v, w)) == spec_left_justify(v, w));
        lemma_trim_end_spaces_suffix(v, (w - v.len()) as nat);
    } else {
        lemma_trim_start_spaces_prefix((w - v.len()) as nat, v);
        assert(spec_spaces(0) + v =~= v);
    }
}

pub proof fn lemma_trim_start_spaces_prefix(k: nat, v: Seq<u8>)
    ensures
        spec_trim_start(spec_spaces(k) + v) == spec_trim_start(v),
    decreases k,
{
    if k == 0 {
        assert(spec_spaces(0) + v =~= v);
    } else {
        assert((spec_spaces(k) + v)[0] == 0x20);
        assert((spec_spaces(k) + v).drop_first() =~= spec_spaces((k - 1) as nat) + v);
        lemma_trim_start_spaces_prefix((k - 1) as nat, v);
    }
}

pub proof fn lemma_trim_end_spaces_suffix(v: Seq<u8>, k: nat)
    ensures
        spec_trim_end(v + spec_spaces(k)) == spec_trim_end(v),
    decreases k,
{
    if k == 0 {
        assert(v + spec_spaces(0) =~= v);
    } else {
        assert((v + spec_spaces(k)).last() == 0x20);
        assert((v + spec_spaces(k)).drop_last() =~= v + spec_spaces((k - 1) as nat));
        lemma_trim_end_spaces_suffix(v, (k - 1) as nat);
    }
}

/// Pads `v` on the left with spaces to width `w`.
pub fn right_justify(v: &Vec<u8>, w: usize) -> (r: Vec<u8>)
    requires
        v@.len() <= w,
    ensures
        r@ == spec_right_justify(v@, w as nat),
        r@.len() == w,
{
    let pad = w - v.len();
    let mut r: Vec<u8> = Vec::new();
    let mut i: usize = 0;
    while i < pad
        invariant
            i <= pad,
            r@ =~= spec_spaces(i as nat),
        decreases pad - i,
    {
        r.push(0x20);
        proof {
            assert(r@ =~= spec_spaces((i + 1) as nat));
        }
        i += 1;
    }
    let mut j: usize = 0;
    let n = v.len();
    while j < n
        invariant
            j <= n,
            n == v@.len(),
            n + pad == w,
            r@ =~= spec_spaces(pad as nat) + v@.take(j as int),
        decreases n - j,
    {
        r.push(v[j]);
        proof {
            assert(r@ =~= spec_spaces(pad as nat) + v@.take(j + 1));
        }
        j += 1;
    }
    proof {
        assert(v@.take(n as int) =~= v@);
    }
    r
}

/// Pads `v` on the right with spaces to width `w`.
pub fn left_justify(v: &Vec<u8>, w: usize) -> (r: Vec<u8>)
    requires
        v@.len() <= w,
    ensures
        r@ == spec_left_justify(v@, w as nat),
        r@.len() == w,
{
    let mut r: Vec<u8> = Vec::new();
    let mut j: usize = 0;
    let n = v.len();
    while j < n
        invariant
            j <= n,
            n == v@.len(),
            r@ =~= v@.take(j as int),
        decreases n - j,
    {
        r.push(v[j]);
        proof {
            assert(r@ =~= v@.take(j + 1));
        }
        j += 1;
    }
    proof {
        assert(v@.take(n as int) =~= v@);
    }
    let mut i: usize = 0;
    let pad = w - n;
    while i < pad
        invariant
            i <= pad,
            n == v@.len(),
            r@ =~= v@ + spec_spaces(i as nat),
        decreases pad - i,
    {
        r.push(0x20);
        proof {
            assert(r@ =~= v@ + spec_spaces((i + 1) as nat));
        }
        i += 1;
    }
    r
}

/// The decimal digits of `n`, most significant first, no leading zeros.
pub open spec fn spec_udec(n: nat) -> Seq<u8>
    decreases n,
{
    if n < 10 {
        seq![(0x30 + n) as u8]
    } else {
        spec_udec(n / 10).push((0x30 + n % 10) as u8)
    }
}

/// The decimal text of an integer: a minus sign for negatives, then the
/// digits of the magnitude.
pub open spec fn spec_int_text(x: int) -> Seq<u8> {
    if x < 0 {
        seq![0x2du8] + spec_udec((-x) as nat)
    } else {
        spec_udec(x as nat)
    }
}

pub proof fn lemma_udec_shape(n: nat)
    ensures
        spec_udec(n).len() >= 1,
        spec_all_digits(spec_udec(n)),
        spec_udec(n)[0] != 0x20,
        spec_udec(n).last() != 0x20,
    decreases n,
{
    if n >= 10 {
        lemma_udec_shape(n / 10);
        assert forall|j: int| 0 <= j < spec_udec(n).len() implies spec_is_digit(
            #[trigger] spec_udec(n)[j],
        ) by {
            if j < spec_udec(n).len() - 1 {
                assert(spec_udec(n)[j] == spec_udec(n / 10)[j]);
            }
        }
    }
}

/// Reading the digits of `n` back gives `n`.
pub proof fn lemma_dec_value_of_udec(n: nat)
    ensures
        spec_dec_value(spec_udec(n)) == n,
    decreases n,
{
    if n < 10 {
        let s = spec_udec(n);
        assert(s.len() == 1);
        assert(s.drop_last() =~= Seq::<u8>::empty());
        assert(spec_dec_value(s.drop_last()) == 0);
        assert(s.last() == (0x30 + n) as u8);
        assert(s.last() - 0x30 == n);
        assert(spec_dec_value(s) == n);
    } else {
        lemma_dec_value_of_udec(n / 10);
        vstd::arithmetic::div_mod::lemma_fundamental_div_mod(n as int, 10);
        let s = spec_udec(n);
        assert(s.drop_last() =~= spec_udec(n / 10));
        assert(s.last() == (0x30 + n % 10) as u8);
        assert(s.last() - 0x30 == n % 10);
        assert(s.len() > 0);
        assert(spec_dec_value(s) == (spec_dec_value(s.drop_last()) * 10 + (s.last() - 0x30)) as nat);
        assert(spec_dec_value(s) == n);
    }
}

/// Writes `n` in decimal.
pub fn format_u64(n: u64) -> (r: Vec<u8>)
    ensures
        r@ == spec_udec(n as nat),
    decreases n,
{
    if n < 10 {
        let mut v: Vec<u8> = Vec::new();
        v.push(0x30 + (n as u8));
        proof {
            assert(v@ =~= seq![(0x30 + n) as u8]);
        }
        v
    } else {
        let mut v = format_u64(n / 10);
        v.push(0x30 + ((n % 10) as u8));
        v
    }
}

/// Writes a signed integer in decimal.
pub fn format_i64(x: i64) -> (r: Vec<u8>)
    ensures
        r@ == spec_int_text(x as int),
{
    if x < 0 {
        let mag: u64 = if x == i64::MIN {
            0x8000_0000_0000_0000u64
        } else {
            (-x) as u64
        };
        let digits = format_u64(mag);
        let mut v: Vec<u8> = Vec::new();
        v.push(0x2d);
        let mut i: usize = 0;
        let n = digits.len();
        while i < n
            invariant
                i <= n,
                n == digits@.len(),
                v@ =~= seq![0x2du8] + digits@.take(i as int),
            decreases n - i,
        {
            v.push(digits[i]);
            proof {
                assert(v@ =~= seq![0x2du8] + digits@.take(i + 1));
            }
            i += 1;
        }
        proof {
            assert(digits@.take(n as int) =~= digits@);
        }
        v
    } else {
        format_u64(x as u64)
    }
}

/// The integer an ASCII field holds: spaces trimmed, an optional sign,
/// then at least one digit, within the range of `i64`.
pub open spec fn spec_parse_int_text(t: Seq<u8>) -> Option<i64> {
    let u = spec_trim(t);
    if u.len() == 0 {
        None
    } else {
        let neg = u[0] == 0x2d;
        let digits = if u[0] == 0x2d || u[0] == 0x2b {
            u.drop_first()
        } else {
            u
        };
        if digits.len() == 0 || !spec_all_digits(digits) {
            None
        } else {
            let mag = spec_dec_value(digits) as int;
            let v = if neg {
                -mag
            } else {
                mag
            };
            if i64::MIN <= v <= i64::MAX {
                Some(v as i64)
            } else {
                None
            }
        }
    }
}

/// Parses the integer in an ASCII field.
pub fn parse_int_text(t: &[u8]) -> (r: Option<i64>)
    ensures
        r == spec_parse_int_text(t@),
{
    let u = trim_spaces(t);
    let un = u.len();
    if un == 0 {
        return None;
    }
    let first = u[0];
    let neg = first == 0x2d;
    let start: usize = if first == 0x2d || first == 0x2b {
        1
    } else {
        0
    };
    let digits = vstd::slice::slice_subrange(u.as_slice(), start, un);
    proof {
        if start == 1 {
            assert(digits@ =~= u@.drop_first());
        } else {
            assert(digits@ =~= u@);
        }
    }
    let dn = digits.len();
    if dn == 0 {
        return None;
    }
    if !all_digits(digits) {
        return None;
    }
    // 2^63 == 9223372036854775808; anything above cannot be an i64 either
    // way, and the running value only grows with more digits.
    let mut acc: u64 = 0;
    let mut too_big = false;
    let mut i: usize = 0;
    while i < dn
        invariant
            i <= dn,
            dn == digits@.len(),
            spec_all_digits(digits@),
            !too_big ==> acc == spec_dec_value(digits@.take(i as int)) && acc
                <= 0x8000_0000_0000_0000u64,
            too_big ==> spec_dec_value(digits@.take(i as int)) > 0x8000_0000_0000_0000u64,
        decreases dn - i,
    {
        proof {
            assert(digits@.take(i + 1).drop_last() =~= digits@.take(i as int));
        }
        if !too_big {
            let b = *slice_index_get(digits, i);
            let d = (b - 0x30) as u64;
            if acc > (u64::MAX - d) / 10 {
                proof {
                    let m = (u64::MAX - d) as int;
                    vstd::arithmetic::div_mod::lemma_fundamental_div_mod(m, 10);
                    assert(10 * (acc as int) >= 10 * (m / 10 + 1));
                    assert(spec_dec_value(digits@.take(i + 1)) > u64::MAX);
                }
                too_big = true;
            } else {
                proof {
                    let m = (u64::MAX - d) as int;
                    vstd::arithmetic::div_mod::lemma_fundamental_div_mod(m, 10);
                    assert(10 * (acc as int) <= 10 * (m / 10));
                }
                acc = acc * 10 + d;
                if acc > 0x8000_0000_0000_0000u64 {
                    too_big = true;
                }
            }
        } else {
            proof {
                assert(spec_dec_value(digits@.take(i + 1)) >= spec_dec_value(
                    digits@.take(i as int),
                ));
            }
        }
        i += 1;
    }
    proof {
        assert(digits@.take(dn as int) =~= digits@);
    }
    if too_big {
        return None;
    }
    if neg {
        if acc > 0x8000_0000_0000_0000u64 {
            return None;
        }
        if acc == 0x8000_0000_0000_0000u64 {
            return Some(i64::MIN);
        }
        Some(-(acc as i64))
    } else {
        if acc > 0x7fff_ffff_ffff_ffffu64 {
            return None;
        }
        Some(acc as i64)
    }
}

/// Formatting an integer and reading the field back returns the integer.
pub proof fn lemma_int_text_round_trip(x: int)
    requires
        i64::MIN <= x <= i64::MAX,
    ensures
        spec_parse_int_text(spec_int_text(x)) == Some(x as i64),
{
    if x < 0 {
        lemma_udec_shape((-x) as nat);
        lemma_dec_value_of_udec((-x) as nat);
        let v = spec_int_text(x);
        assert(v[0] == 0x2d);
        assert(v.last() == spec_udec((-x) as nat).last());
        lemma_trim_of_clean(v);
        assert(v.drop_first() =~= spec_udec((-x) as nat));
    } else {
        lemma_udec_shape(x as nat);
        lemma_dec_value_of_udec(x as nat);
        lemma_trim_of_clean(spec_int_text(x));
    }
}

/// The digits of an integer, right-justified in a field of width `w`,
/// still read back as the integer.
pub proof fn lemma_int_field_round_trip(x: int, w: nat)
    requires
        i64::MIN <= x <= i64::MAX,
        spec_int_text(x).len() <= w,
    ensures
        spec_parse_int_text(spec_right_justify(spec_int_text(x), w)) == Some(x as i64),
{
    let v = spec_int_text(x);
    if x < 0 {
        lemma_udec_shape((-x) as nat);
    } else {
        lemma_udec_shape(x as nat);
    }
    lemma_trim_right_justify(v, w);
    lemma_trim_of_clean(v);
    lemma_int_text_round_trip(x);
    lemma_trim_start_spaces_prefix((w - v.len()) as nat, v);
    assert(spec_trim(spec_right_justify(v, w)) == spec_trim(v));
}


/// The exact zero artifact scientific formatting produces.
pub open spec fn spec_zero_sci() -> Seq<u8> {
    seq![0x30u8, 0x65u8, 0x30u8]
}

/// Trailing exponent markers and decimal points, dropped after a
/// truncation so a field never ends mid-number.
pub open spec fn spec_drop_trailing_markers(t: Seq<u8>) -> Seq<u8>
    decreases t.len(),
{
    if t.len() > 0 && (t.last() == 0x45 || t.last() == 0x2e) {
        spec_drop_trailing_markers(t.drop_last())
    } else {
        t
    }
}

/// What normalizing a scientific-notation field yields: a literal `0e0`
/// collapses to `0.0`, the exponent letter is uppercased, and a field
/// truncated to `max` never ends on a bare `E` or `.`.
pub open spec fn spec_normalize_sci(s: Seq<u8>, max: nat) -> Seq<u8> {
    let s1 = if s == spec_zero_sci() {
        seq![0x30u8, 0x2eu8, 0x30u8]
    } else {
        s
    };
    let s2 = Seq::new(
        s1.len(),
        |i: int|
            if s1[i] == 0x65 {
                0x45u8
            } else {
                s1[i]
            },
    );
    if s2.len() > max {
        spec_drop_trailing_markers(s2.take(max as int))
    } else {
        s2
    }
}

proof fn lemma_drop_markers_characterize(t: Seq<u8>, hi: int)
    requires
        0 <= hi <= t.len(),
        forall|j: int| hi <= j < t.len() ==> t[j] == 0x45 || t[j] == 0x2e,
        hi > 0 ==> !(t[hi - 1] == 0x45 || t[hi - 1] == 0x2e),
    ensures
        spec_drop_trailing_markers(t) == t.take(hi),
    decreases t.len(),
{
    if hi == t.len() {
        assert(t.take(hi) =~= t);
    } else {
        lemma_drop_markers_characterize(t.drop_last(), hi);
        assert(t.drop_last().take(hi) =~= t.take(hi));
    }
}

/// Normalizes one scientific-notation text field.
///
/// This is the string half of Fortran-style float formatting: the digits
/// themselves are produced elsewhere; here the `0e0` artifact collapses
/// to `0.0`, `e` becomes `E`, and truncation to the field width backs
/// off past any trailing exponent marker or decimal point.
pub fn normalize_scientific(s: &Vec<u8>, max_len: usize) -> (r: Vec<u8>)
    ensures
        r@ == spec_normalize_sci(s@, max_len as nat),
{
    let n = s.len();
    let is_zero_artifact = n == 3 && s[0] == 0x30 && s[1] == 0x65 && s[2] == 0x30;
    let mut s2: Vec<u8> = Vec::new();
    if is_zero_artifact {
        s2.push(0x30);
        s2.push(0x2e);
        s2.push(0x30);
        proof {
            assert(s@ =~= spec_zero_sci());
            assert(s2@ =~= Seq::new(
                3,
                |i: int|
                    if seq![0x30u8, 0x2eu8, 0x30u8][i] == 0x65 {
                        0x45u8
                    } else {
                        seq![0x30u8, 0x2eu8, 0x30u8][i]
                    },
            ));
        }
    } else {
        proof {
            if s@.len() == 3 && s@ == spec_zero_sci() {
                assert(s@[0] == 0x30 && s@[1] == 0x65 && s@[2] == 0x30);
            }
        }
        let mut i: usize = 0;
        while i < n
            invariant
                i <= n,
                n == s@.len(),
                s2@ =~= Seq::new(
                    i as nat,
                    |j: int|
                        if s@[j] == 0x65 {
                            0x45u8
                        } else {
                            s@[j]
                        },
                ),
            decreases n - i,
        {
            let b = s[i];
            if b == 0x65 {
                s2.push(0x45);
            } else {
                s2.push(b);
            }
            proof {
                assert(s2@ =~= Seq::new(
                    (i + 1) as nat,
                    |j: int|
                        if s@[j] == 0x65 {
                            0x45u8
                        } else {
                            s@[j]
                        },
                ));
            }
            i += 1;
        }
    }
    let m = s2.len();
    if m <= max_len {
        return s2;
    }
    s2.truncate(max_len);
    let mut hi = s2.len();
    loop
        invariant
            hi <= s2@.len(),
            forall|j: int| hi <= j < s2@.len() ==> s2@[j] == 0x45 || s2@[j] == 0x2e,
        ensures
            hi <= s2@.len(),
            forall|j: int| hi <= j < s2@.len() ==> s2@[j] == 0x45 || s2@[j] == 0x2e,
            hi > 0 ==> !(s2@[hi - 1] == 0x45 || s2@[hi - 1] == 0x2e),
        decreases hi,
    {
        if hi == 0 {
            break;
        }
        let b = s2[hi - 1];
        if b != 0x45 && b != 0x2e {
            break;
        }
        hi -= 1;
    }
    proof {
        lemma_drop_markers_characterize(s2@, hi as int);
    }
    s2.truncate(hi);
    s2
}

} // verus!
