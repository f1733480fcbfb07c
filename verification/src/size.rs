//! The size token parser: converts a human-readable size token such as
//! `"12.5 GB"`, `"3,2 MB"`, `"940"` or `"1 K"` into an exact byte count.
//!
//! Digits before the first alphabetic byte form the magnitude; the first
//! `.` or `,` starts the fractional part (every later digit before the
//! unit counts as fractional).  The unit is the first run of alphabetic
//! bytes after the digits.  Malformed numeric content degrades to zero;
//! no input is ever rejected.

use crate::bytes::{
    first_match, is_alpha_byte, is_ascii_alpha, is_ascii_digit, is_digit_byte, lemma_first_match,
    lemma_first_match_is, lower_byte, to_lower,
};
use vstd::arithmetic::div_mod::{
    lemma_div_denominator, lemma_div_is_ordered, lemma_div_pos_is_pos, lemma_fundamental_div_mod,
    lemma_fundamental_div_mod_converse,
};
use vstd::arithmetic::mul::lemma_mul_nonnegative;
use vstd::prelude::*;

verus! {

/// 10 to the power `k`.
pub open spec fn pow10(k: nat) -> int
    decreases k,
{
    if k == 0 {
        1
    } else {
        10 * pow10((k - 1) as nat)
    }
}

pub proof fn lemma_pow10_pos(k: nat)
    ensures
        pow10(k) >= 1,
    decreases k,
{
    if k > 0 {
        lemma_pow10_pos((k - 1) as nat);
    }
}

/// The ASCII digit bytes of `s`, in order, everything else dropped.
pub open spec fn digits_of(s: Seq<u8>) -> Seq<u8>
    decreases s.len(),
{
    if s.len() == 0 {
        Seq::empty()
    } else if is_ascii_digit(s.last()) {
        digits_of(s.drop_last()).push(s.last())
    } else {
        digits_of(s.drop_last())
    }
}

pub proof fn lemma_digits_of_are_digits(s: Seq<u8>)
    ensures
        forall|i: int| 0 <= i < digits_of(s).len() ==> is_ascii_digit(digits_of(s)[i]),
    decreases s.len(),
{
    if s.len() > 0 {
        lemma_digits_of_are_digits(s.drop_last());
        if is_ascii_digit(s.last()) {
            assert forall|i: int| 0 <= i < digits_of(s).len() implies is_ascii_digit(
                #[trigger] digits_of(s)[i],
            ) by {
                if i < digits_of(s.drop_last()).len() {
                    assert(digits_of(s)[i] == digits_of(s.drop_last())[i]);
                } else {
                    assert(digits_of(s)[i] == s.last());
                }
            }
        }
    }
}

/// Numeric value of a sequence of ASCII digit bytes, most significant first.
pub open spec fn digits_val(ds: Seq<u8>) -> int
    decreases ds.len(),
{
    if ds.len() == 0 {
        0
    } else {
        10 * digits_val(ds.drop_last()) + (ds.last() - 48)
    }
}

pub proof fn lemma_digits_val_nonneg(ds: Seq<u8>)
    requires
        forall|i: int| 0 <= i < ds.len() ==> is_ascii_digit(ds[i]),
    ensures
        digits_val(ds) >= 0,
    decreases ds.len(),
{
    if ds.len() > 0 {
        lemma_digits_val_nonneg(ds.drop_last());
    }
}

pub proof fn lemma_digits_of_push(s: Seq<u8>, x: u8)
    ensures
        digits_of(s.push(x)) == if is_ascii_digit(x) {
            digits_of(s).push(x)
        } else {
            digits_of(s)
        },
{
    assert(s.push(x).len() == s.len() + 1);
    assert(s.push(x).last() == x);
    assert(s.push(x).drop_last() =~= s);
}

pub proof fn lemma_digits_val_push(ds: Seq<u8>, x: u8)
    ensures
        digits_val(ds.push(x)) == 10 * digits_val(ds) + (x - 48),
{
    assert(ds.push(x).len() == ds.len() + 1);
    assert(ds.push(x).last() == x);
    assert(ds.push(x).drop_last() =~= ds);
}

pub proof fn lemma_digits_of_concat(a: Seq<u8>, b: Seq<u8>)
    ensures
        digits_of(a + b) == digits_of(a) + digits_of(b),
    decreases b.len(),
{
    if b.len() == 0 {
        assert(a + b =~= a);
        assert(digits_of(a) + digits_of(b) =~= digits_of(a));
    } else {
        let bd = b.drop_last();
        let x = b.last();
        lemma_digits_of_concat(a, bd);
        assert(a + b =~= (a + bd).push(x));
        assert(b =~= bd.push(x));
        lemma_digits_of_push(a + bd, x);
        lemma_digits_of_push(bd, x);
        if is_ascii_digit(x) {
            assert(digits_of(a) + digits_of(b) =~= (digits_of(a) + digits_of(bd)).push(x));
        }
    }
}

#[verifier::rlimit(30)]
pub proof fn lemma_digits_val_concat(a: Seq<u8>, b: Seq<u8>)
    ensures
        digits_val(a + b) == digits_val(a) * pow10(b.len()) + digits_val(b),
    decreases b.len(),
{
    if b.len() == 0 {
        assert(a + b =~= a);
        assert(digits_val(b) == 0);
        assert(pow10(0) == 1);
        assert(digits_val(a) * 1 == digits_val(a));
    } else {
        let bd = b.drop_last();
        let x = b.last();
        lemma_digits_val_concat(a, bd);
        assert(a + b =~= (a + bd).push(x));
        assert(b =~= bd.push(x));
        lemma_digits_val_push(a + bd, x);
        lemma_digits_val_push(bd, x);
        let p = pow10((b.len() - 1) as nat);
        assert(pow10(b.len()) == 10 * p);
        assert(digits_val(a + b) == 10 * (digits_val(a) * p + digits_val(bd)) + (x - 48));
        assert(10 * (digits_val(a) * p + digits_val(bd)) == 10 * (digits_val(a) * p) + 10
            * digits_val(bd));
        assert(10 * (digits_val(a) * p) == digits_val(a) * (10 * p)) by (nonlinear_arith);
        assert(digits_val(b) == 10 * digits_val(bd) + (x - 48));
        assert(digits_val(a + b) == digits_val(a) * (10 * p) + digits_val(b));
    }
}

/// Index where the unit suffix begins: the first alphabetic byte of `s`.
pub open spec fn unit_start(s: Seq<u8>) -> int {
    first_match(s, |b: u8| is_ascii_alpha(b))
}

/// Index of the first fractional separator before the unit.
pub open spec fn sep_idx(s: Seq<u8>) -> int {
    first_match(s.take(unit_start(s)), |b: u8| b == 46 || b == 44)
}

/// The digits giving the integer magnitude.
pub open spec fn int_digits(s: Seq<u8>) -> Seq<u8> {
    digits_of(s.take(sep_idx(s)))
}

/// The digits after the first separator: the fractional magnitude.
pub open spec fn frac_digits(s: Seq<u8>) -> Seq<u8> {
    digits_of(s.subrange(sep_idx(s), unit_start(s)))
}

/// The unit token: the first run of alphabetic bytes after the digits.
pub open spec fn unit_token(s: Seq<u8>) -> Seq<u8> {
    let u = s.skip(unit_start(s));
    u.take(first_match(u, |b: u8| !is_ascii_alpha(b)))
}

/// Byte multiplier of a unit token, compared case-insensitively:
/// `T`/`TB`, `G`/`GB`, `M`/`MB`, `K`/`KB`; anything else counts plain bytes.
pub open spec fn unit_mult(u: Seq<u8>) -> int {
    if u.len() == 1 || (u.len() == 2 && to_lower(u[1]) == 98) {
        if to_lower(u[0]) == 116 {
            0x100_0000_0000
        } else if to_lower(u[0]) == 103 {
            0x4000_0000
        } else if to_lower(u[0]) == 109 {
            0x10_0000
        } else if to_lower(u[0]) == 107 {
            0x400
        } else {
            1
        }
    } else {
        1
    }
}

pub proof fn lemma_unit_mult_bounds(u: Seq<u8>)
    ensures
        1 <= unit_mult(u) <= 0x100_0000_0000,
{
}

/// The exact byte count a size token denotes: integer and fractional
/// magnitudes scaled by the unit multiplier, truncated toward zero.
pub open spec fn token_bytes(s: Seq<u8>) -> int {
    let m = unit_mult(unit_token(s));
    let fd = frac_digits(s);
    digits_val(int_digits(s)) * m + (digits_val(fd) * m) / pow10(fd.len())
}

/// What `parse_size_bytes` returns: `token_bytes`, saturated at `i64::MAX`.
pub open spec fn parsed_size(s: Seq<u8>) -> int {
    if token_bytes(s) <= i64::MAX {
        token_bytes(s)
    } else {
        i64::MAX as int
    }
}

pub proof fn lemma_token_bytes_bounds(s: Seq<u8>)
    ensures
        digits_val(int_digits(s)) >= 0,
        token_bytes(s) >= digits_val(int_digits(s)),
{
    let m = unit_mult(unit_token(s));
    let fd = frac_digits(s);
    let iv = digits_val(int_digits(s));
    lemma_unit_mult_bounds(unit_token(s));
    lemma_digits_of_are_digits(s.take(sep_idx(s)));
    lemma_digits_of_are_digits(s.subrange(sep_idx(s), unit_start(s)));
    lemma_digits_val_nonneg(int_digits(s));
    lemma_digits_val_nonneg(fd);
    lemma_pow10_pos(fd.len());
    lemma_mul_nonnegative(digits_val(fd), m);
    lemma_div_pos_is_pos(digits_val(fd) * m, pow10(fd.len()));
    assert(iv * m >= iv) by (nonlinear_arith)
        requires
            iv >= 0,
            m >= 1,
    ;
}

/// Appending more bytes to the numeric region can only increase the
/// integer magnitude.
proof fn lemma_int_digits_extend(s: Seq<u8>, j: int, x: int)
    requires
        0 <= j <= sep_idx(s),
        sep_idx(s) <= s.len(),
        x == digits_val(digits_of(s.take(j))),
        x >= 0,
    ensures
        digits_val(int_digits(s)) >= x,
{
    let a = s.take(j);
    let b = s.subrange(j, sep_idx(s));
    assert(s.take(sep_idx(s)) =~= a + b);
    lemma_digits_of_concat(a, b);
    lemma_digits_val_concat(digits_of(a), digits_of(b));
    lemma_digits_of_are_digits(b);
    lemma_digits_val_nonneg(digits_of(b));
    let p = pow10(digits_of(b).len());
    lemma_pow10_pos(digits_of(b).len());
    assert(x * p >= x) by (nonlinear_arith)
        requires
            x >= 0,
            p >= 1,
    ;
}

/// One step of the right-to-left carry pass over the fractional digits:
/// folding in the digit at `t` keeps the carry equal to the truncated
/// scaled value of the suffix, and keeps it below the multiplier.
proof fn lemma_carry_roll(fd: Seq<u8>, t: int, m: int, carry: int)
    requires
        0 <= t < fd.len(),
        forall|i: int| 0 <= i < fd.len() ==> is_ascii_digit(fd[i]),
        1 <= m,
        0 <= carry < m,
        carry == (digits_val(fd.skip(t + 1)) * m) / pow10((fd.len() - t - 1) as nat),
    ensures
        ((fd[t] - 48) * m + carry) / 10 == (digits_val(fd.skip(t)) * m) / pow10(
            (fd.len() - t) as nat,
        ),
        0 <= ((fd[t] - 48) * m + carry) / 10 < m,
        0 <= (fd[t] - 48) * m + carry <= 10 * m - 1,
{
    let d = fd[t] - 48;
    let p = pow10((fd.len() - t - 1) as nat);
    let v = digits_val(fd.skip(t + 1));
    lemma_pow10_pos((fd.len() - t - 1) as nat);
    assert(fd.skip(t) =~= seq![fd[t]] + fd.skip(t + 1));
    lemma_digits_val_concat(seq![fd[t]], fd.skip(t + 1));
    assert(seq![fd[t]] =~= Seq::<u8>::empty().push(fd[t]));
    lemma_digits_val_push(Seq::<u8>::empty(), fd[t]);
    assert(digits_val(Seq::<u8>::empty()) == 0);
    assert(digits_val(seq![fd[t]]) == d);
    assert(digits_val(fd.skip(t)) == d * p + v);
    assert forall|i: int| 0 <= i < fd.skip(t + 1).len() implies is_ascii_digit(
        #[trigger] fd.skip(t + 1)[i],
    ) by {
        assert(fd.skip(t + 1)[i] == fd[t + 1 + i]);
    }
    lemma_digits_val_nonneg(fd.skip(t + 1));
    let q = (v * m) / p;
    let r = (v * m) % p;
    lemma_mul_nonnegative(v, m);
    lemma_fundamental_div_mod(v * m, p);
    assert(0 <= r < p) by {
        vstd::arithmetic::div_mod::lemma_mod_division_less_than_divisor(v * m, p);
    }
    assert(q == carry);
    assert((d * p + v) * m == (d * m + q) * p + r) by (nonlinear_arith)
        requires
            v * m == p * q + r,
    ;
    assert(0 <= d * m) by (nonlinear_arith)
        requires
            d >= 0,
            m >= 1,
    ;
    assert((d * p + v) * m >= 0) by (nonlinear_arith)
        requires
            d >= 0,
            p >= 1,
            v >= 0,
            m >= 1,
    ;
    lemma_fundamental_div_mod_converse((d * p + v) * m, p, d * m + q, r);
    lemma_div_denominator((d * p + v) * m, p, 10);
    assert(pow10((fd.len() - t) as nat) == 10 * p);
    assert(p * 10 == 10 * p);
    assert(((d * p + v) * m) / (p * 10) == (d * m + q) / 10);
    assert(d * m <= 9 * m) by (nonlinear_arith)
        requires
            d <= 9,
            m >= 1,
    ;
    assert(d * m + carry <= 10 * m - 1);
    lemma_div_is_ordered(d * m + carry, 10 * m - 1, 10);
    assert((10 * m - 1) / 10 == m - 1) by {
        lemma_fundamental_div_mod_converse(10 * m - 1, 10, m - 1, 9);
    }
    lemma_div_pos_is_pos(d * m + carry, 10);
}

/// Parses a human-readable size token into an exact byte count.
///
/// The scaled value is truncated toward zero and saturates at `i64::MAX`.
pub fn parse_size_bytes(s: &[u8]) -> (r: i64)
    ensures
        r == parsed_size(s@),
        r >= 0,
{
    let n = s.len();
    // Locate the unit: the first alphabetic byte.
    let mut us: usize = 0;
    while us < n && !is_alpha_byte(s[us])
        invariant
            0 <= us <= n,
            n == s@.len(),
            forall|j: int| 0 <= j < us ==> !is_ascii_alpha(s@[j]),
        decreases n - us,
    {
        us += 1;
    }
    proof {
        lemma_first_match_is(s@, |b: u8| is_ascii_alpha(b), us as int);
        assert(unit_start(s@) == us as int);
    }
    // Locate the first fractional separator before the unit.
    let mut si: usize = 0;
    while si < us && !(s[si] == 46 || s[si] == 44)
        invariant
            0 <= si <= us <= n,
            n == s@.len(),
            forall|j: int| 0 <= j < si ==> !(s@[j] == 46 || s@[j] == 44),
        decreases us - si,
    {
        si += 1;
    }
    proof {
        let region = s@.take(us as int);
        assert forall|j: int| 0 <= j < si implies !(region[j] == 46 || region[j] == 44) by {
            assert(region[j] == s@[j]);
        }
        if (si as int) < us as int {
            assert(region[si as int] == s@[si as int]);
        }
        lemma_first_match_is(region, |b: u8| b == 46 || b == 44, si as int);
        assert(sep_idx(s@) == si as int);
    }
    // Accumulate the integer magnitude, saturating at i64::MAX.
    let mut iv: u64 = 0;
    let mut j: usize = 0;
    while j < si
        invariant
            0 <= j <= si <= us <= n,
            n == s@.len(),
            si as int == sep_idx(s@),
            us as int == unit_start(s@),
            iv <= i64::MAX as u64,
            iv as int == digits_val(digits_of(s@.take(j as int))),
        decreases si - j,
    {
        let b = s[j];
        proof {
            assert(s@.take(j + 1) =~= s@.take(j as int).push(s@[j as int]));
        }
        if is_digit_byte(b) {
            let d = (b - 48) as u64;
            let x: u128 = iv as u128 * 10 + d as u128;
            if x > i64::MAX as u128 {
                proof {
                    let t = s@.take(j as int);
                    lemma_digits_of_push(t, b);
                    lemma_digits_val_push(digits_of(t), b);
                    lemma_int_digits_extend(s@, j + 1, x as int);
                    lemma_token_bytes_bounds(s@);
                }
                return i64::MAX;
            }
            iv = x as u64;
            proof {
                let t = s@.take(j as int);
                lemma_digits_of_push(t, b);
                lemma_digits_val_push(digits_of(t), b);
            }
        } else {
            proof {
                let t = s@.take(j as int);
                lemma_digits_of_push(t, b);
            }
        }
        j += 1;
    }
    proof {
        assert(s@.take(si as int) =~= s@.take(j as int));
        assert(iv as int == digits_val(int_digits(s@)));
    }
    // Collect the fractional digits.
    let mut fd: Vec<u8> = Vec::new();
    let mut j2: usize = si;
    while j2 < us
        invariant
            si <= j2 <= us <= n,
            n == s@.len(),
            fd@ == digits_of(s@.subrange(si as int, j2 as int)),
            forall|i: int| 0 <= i < fd@.len() ==> is_ascii_digit(fd@[i]),
        decreases us - j2,
    {
        let b = s[j2];
        proof {
            assert(s@.subrange(si as int, j2 + 1) =~= s@.subrange(si as int, j2 as int).push(
                s@[j2 as int],
            ));
        }
        proof {
            lemma_digits_of_push(s@.subrange(si as int, j2 as int), b);
        }
        if is_digit_byte(b) {
            fd.push(b);
        }
        j2 += 1;
    }
    proof {
        assert(fd@ == frac_digits(s@));
    }
    // The unit: the first run of alphabetic bytes from the unit start.
    let mut ue: usize = us;
    while ue < n && is_alpha_byte(s[ue])
        invariant
            us <= ue <= n,
            n == s@.len(),
            forall|j3: int| us <= j3 < ue ==> is_ascii_alpha(s@[j3]),
        decreases n - ue,
    {
        ue += 1;
    }
    proof {
        let u = s@.skip(us as int);
        assert forall|j3: int| 0 <= j3 < (ue - us) implies is_ascii_alpha(u[j3]) by {
            assert(u[j3] == s@[us + j3]);
        }
        if ue < n {
            assert(u[ue - us] == s@[ue as int]);
        }
        lemma_first_match_is(u, |b: u8| !is_ascii_alpha(b), ue - us);
        assert(unit_token(s@) =~= s@.subrange(us as int, ue as int));
    }
    let ulen = ue - us;
    let m: u64 = if ulen == 1 || (ulen == 2 && lower_byte(s[us + 1]) == 98) {
        let c = lower_byte(s[us]);
        if c == 116 {
            0x100_0000_0000
        } else if c == 103 {
            0x4000_0000
        } else if c == 109 {
            0x10_0000
        } else if c == 107 {
            0x400
        } else {
            1
        }
    } else {
        1
    };
    proof {
        let u = unit_token(s@);
        assert(u.len() == ulen);
        if ulen >= 1 {
            assert(u[0] == s@[us as int]);
        }
        if ulen >= 2 {
            assert(u[1] == s@[us + 1]);
        }
        assert(m as int == unit_mult(u));
        lemma_unit_mult_bounds(u);
    }
    // Fold the fractional digits from the right: the carry is the
    // truncated scaled value of the suffix processed so far.
    let flen = fd.len();
    let mut carry: u64 = 0;
    let mut t: usize = flen;
    while t > 0
        invariant
            0 <= t <= flen,
            flen == fd@.len(),
            fd@ == frac_digits(s@),
            forall|i: int| 0 <= i < fd@.len() ==> is_ascii_digit(fd@[i]),
            1 <= m <= 0x100_0000_0000,
            carry < m,
            carry as int == (digits_val(fd@.skip(t as int)) * (m as int)) / pow10(
                (flen - t) as nat,
            ),
        decreases t,
    {
        t -= 1;
        let d = (fd[t] - 48) as u64;
        proof {
            lemma_carry_roll(fd@, t as int, m as int, carry as int);
        }
        carry = (d * m + carry) / 10;
    }
    proof {
        assert(fd@.skip(0) =~= fd@);
        assert(carry as int == (digits_val(frac_digits(s@)) * (m as int)) / pow10(
            frac_digits(s@).len(),
        ));
    }
    let a128: u128 = iv as u128;
    let m128: u128 = m as u128;
    proof {
        assert(a128 * m128 <= 0x7fff_ffff_ffff_ffff * 0x100_0000_0000) by (nonlinear_arith)
            requires
                a128 <= 0x7fff_ffff_ffff_ffff,
                m128 <= 0x100_0000_0000,
        ;
    }
    let total: u128 = a128 * m128 + carry as u128;
    proof {
        assert(token_bytes(s@) == iv as int * (m as int) + carry as int);
        lemma_token_bytes_bounds(s@);
    }
    if total > i64::MAX as u128 {
        i64::MAX
    } else {
        total as i64
    }
}

} // verus!
