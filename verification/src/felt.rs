//! Elements of the field of the Cairo virtual machine, read as signed
//! numbers. An element is held by its digits to the base 2^32, the least
//! significant first; the arithmetic on such digits is that of big unsigned
//! integers.

use num_bigint::BigUint;
use num_traits::ToPrimitive;
use vstd::prelude::*;

verus! {

/// The base of the digits.
pub open spec fn base() -> nat {
    0x1_0000_0000
}

/// The number that a list of digits stands for, the least significant digit
/// first.
pub open spec fn digits_value(d: Seq<u32>) -> nat
    decreases d.len(),
{
    if d.len() == 0 {
        0
    } else {
        d[0] as nat + base() * digits_value(d.skip(1))
    }
}

/// The prime of the field: 2^251 + 17 * 2^192 + 1.
pub open spec fn cairo_prime() -> nat {
    let b2 = base() * base();
    let b6 = b2 * b2 * b2;
    1 + 17 * b6 + 0x0800_0000 * (b6 * base())
}

/// Half of the prime, rounded down.
pub open spec fn half_cairo_prime() -> nat {
    cairo_prime() / 2
}

/// The largest fixed-point number.
pub open spec fn fixed_max() -> int {
    0x7fff_ffff_ffff_ffff
}

/// The signed number that an element of the field stands for: the elements
/// above half of the prime stand for the negative numbers.
pub open spec fn centered(v: nat) -> int {
    if v > half_cairo_prime() {
        v - cairo_prime()
    } else {
        v as int
    }
}

/// The fixed-point number that an element of the field stands for: the
/// elements from half of the prime on stand for the negative numbers, and a
/// number beyond the largest fixed-point number, on either side of zero,
/// is replaced by the largest one.
pub open spec fn fixed_of(v: nat) -> int {
    if v >= half_cairo_prime() {
        if cairo_prime() - v > fixed_max() {
            -fixed_max()
        } else {
            -(cairo_prime() - v)
        }
    } else {
        if v > fixed_max() {
            fixed_max()
        } else {
            v as int
        }
    }
}

/// Whether the first number is at most the second. The comparison is that
/// of `num_bigint::BigUint`, which orders big unsigned integers by their
/// value.
#[verifier::external_body]
fn big_le(a: &Vec<u32>, b: &Vec<u32>) -> (r: bool)
    ensures
        r == (digits_value(a@) <= digits_value(b@)),
{
    BigUint::from_slice(a) <= BigUint::from_slice(b)
}

/// The difference of two numbers. The subtraction is that of
/// `num_bigint::BigUint`, which gives the exact difference and stops the
/// program where the second number is the larger: that case is left out.
#[verifier::external_body]
fn big_sub(a: &Vec<u32>, b: &Vec<u32>) -> (r: Vec<u32>)
    requires
        digits_value(b@) <= digits_value(a@),
    ensures
        digits_value(r@) == digits_value(a@) - digits_value(b@),
{
    (BigUint::from_slice(a) - BigUint::from_slice(b)).to_u32_digits()
}

/// The number as a machine integer, unless it is too large for one. The
/// conversion is `to_i128` of `num_bigint::BigUint`.
#[verifier::external_body]
fn big_to_i128(a: &Vec<u32>) -> (r: Option<i128>)
    ensures
        r == (if digits_value(a@) <= i128::MAX {
            Some(digits_value(a@) as i128)
        } else {
            None::<i128>
        }),
{
    BigUint::from_slice(a).to_i128()
}

/// The value of eight digits, written out.
pub proof fn lemma_eight_digits(d: Seq<u32>)
    requires
        d.len() == 8,
    ensures
        digits_value(d) == d[0] + base() * (d[1] + base() * (d[2] + base() * (d[3] + base() * (d[4]
            + base() * (d[5] + base() * (d[6] + base() * d[7])))))),
{
    let d1 = d.skip(1);
    let d2 = d1.skip(1);
    let d3 = d2.skip(1);
    let d4 = d3.skip(1);
    let d5 = d4.skip(1);
    let d6 = d5.skip(1);
    let d7 = d6.skip(1);
    let d8 = d7.skip(1);
    assert(digits_value(d8) == 0);
    assert(digits_value(d7) == d[7] + base() * digits_value(d8));
    assert(digits_value(d6) == d[6] + base() * digits_value(d7));
    assert(digits_value(d5) == d[5] + base() * digits_value(d6));
    assert(digits_value(d4) == d[4] + base() * digits_value(d5));
    assert(digits_value(d3) == d[3] + base() * digits_value(d4));
    assert(digits_value(d2) == d[2] + base() * digits_value(d3));
    assert(digits_value(d1) == d[1] + base() * digits_value(d2));
    assert(digits_value(d) == d[0] + base() * digits_value(d1));
}

/// The digits of the prime of the field.
pub fn cairo_prime_digits() -> (r: Vec<u32>)
    ensures
        digits_value(r@) == cairo_prime(),
{
    let mut d: Vec<u32> = Vec::new();
    d.push(1);
    d.push(0);
    d.push(0);
    d.push(0);
    d.push(0);
    d.push(0);
    d.push(17);
    d.push(0x0800_0000);
    proof {
        lemma_eight_digits(d@);
        let b = base();
        let b2 = b * b;
        assert(1 + b * (0 + b * (0 + b * (0 + b * (0 + b * (0 + b * (17 + b * 0x0800_0000))))))
            == 1 + 17 * (b2 * b2 * b2) + 0x0800_0000 * ((b2 * b2 * b2) * b))
            by (nonlinear_arith)
            requires
                b2 == b * b,
        ;
    }
    d
}

/// The digits of half of the prime.
pub fn half_cairo_prime_digits() -> (r: Vec<u32>)
    ensures
        digits_value(r@) == half_cairo_prime(),
{
    let mut d: Vec<u32> = Vec::new();
    d.push(0);
    d.push(0);
    d.push(0);
    d.push(0);
    d.push(0);
    d.push(0x8000_0000);
    d.push(8);
    d.push(0x0400_0000);
    proof {
        lemma_eight_digits(d@);
        let b = base();
        let b2 = b * b;
        let h = digits_value(d@);
        assert(h == 0 + b * (0 + b * (0 + b * (0 + b * (0 + b * (0x8000_0000 + b * (8 + b
            * 0x0400_0000)))))));
        assert(2 * h + 1 == 1 + 17 * (b2 * b2 * b2) + 0x0800_0000 * ((b2 * b2 * b2) * b))
            by (nonlinear_arith)
            requires
                b2 == b * b,
                b == 0x1_0000_0000,
                h == 0 + b * (0 + b * (0 + b * (0 + b * (0 + b * (0x8000_0000 + b * (8 + b
                    * 0x0400_0000)))))),
        ;
    }
    d
}

/// A copy of a list of digits.
pub fn copy_digits(d: &Vec<u32>) -> (r: Vec<u32>)
    ensures
        r@ == d@,
{
    let mut out: Vec<u32> = Vec::new();
    let mut k: usize = 0;
    while k < d.len()
        invariant
            k <= d.len(),
            out.len() == k,
            forall|j: int| 0 <= j < k ==> out[j] == d[j],
        decreases d.len() - k,
    {
        out.push(d[k]);
        k += 1;
    }
    assert(out@ =~= d@);
    out
}

/// Whether the digits stand for an element of the field: a number below the
/// prime.
pub fn is_felt(felt: &Vec<u32>) -> (r: bool)
    ensures
        r == (digits_value(felt@) < cairo_prime()),
{
    let prime = cairo_prime_digits();
    !big_le(&prime, felt)
}

/// The signed number that the digits stand for, as its sign and the digits
/// of its magnitude: `true` marks a negative number. A number above half of
/// the prime stands for itself less the prime; any other, for itself.
pub fn felt_to_int(felt: &Vec<u32>) -> (r: (bool, Vec<u32>))
    ensures
        centered(digits_value(felt@)) == (if r.0 {
            -(digits_value(r.1@) as int)
        } else {
            digits_value(r.1@) as int
        }),
        r.0 ==> digits_value(r.1@) > 0,
{
    let prime = cairo_prime_digits();
    let half = half_cairo_prime_digits();
    if big_le(felt, &half) {
        (false, copy_digits(felt))
    } else if big_le(&prime, felt) {
        (false, big_sub(felt, &prime))
    } else {
        (true, big_sub(&prime, felt))
    }
}

/// The fixed-point number that an element of the field stands for, as
/// [`fixed_of`] has it; none for digits that stand for no element.
pub fn felt_to_fixed(felt: &Vec<u32>) -> (r: Option<i128>)
    ensures
        match r {
            Some(x) => digits_value(felt@) < cairo_prime() && x == fixed_of(digits_value(felt@)),
            None => digits_value(felt@) >= cairo_prime(),
        },
{
    let prime = cairo_prime_digits();
    let half = half_cairo_prime_digits();
    if big_le(&prime, felt) {
        return None;
    }
    let max: i128 = 0x7fff_ffff_ffff_ffff;
    if big_le(&half, felt) {
        let rest = big_sub(&prime, felt);
        let x: i128 = match big_to_i128(&rest) {
            Some(x) => x,
            None => max,
        };
        if x > max {
            Some(-max)
        } else {
            Some(-x)
        }
    } else {
        let x: i128 = match big_to_i128(felt) {
            Some(x) => x,
            None => max,
        };
        if x > max {
            Some(max)
        } else {
            Some(x)
        }
    }
}

} // verus!
