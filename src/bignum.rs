//! Arbitrary-precision integers held as base 2^32 limbs.
//!
//! The value of a number is a plain sequence of limbs, least significant
//! first, so that contracts can speak of it as a mathematical integer. The
//! arithmetic itself is done by `num-bigint`.

use num_bigint::{BigInt, BigUint, RandBigInt, Sign};
use vstd::arithmetic::power::pow;
use vstd::arithmetic::power2::pow2;
use vstd::prelude::*;

verus! {

/// The base of one limb.
pub open spec fn limb_base() -> nat {
    0x1_0000_0000
}

/// The value of a sequence of limbs, least significant limb first.
pub open spec fn limbs_value(s: Seq<u32>) -> nat
    decreases s.len(),
{
    if s.len() == 0 {
        0
    } else {
        s[0] as nat + limb_base() * limbs_value(s.drop_first())
    }
}

/// A non-negative integer of any size.
#[derive(Debug, Clone)]
pub struct Natural {
    limbs: Vec<u32>,
}

impl View for Natural {
    type V = nat;

    closed spec fn view(&self) -> nat {
        limbs_value(self.limbs@)
    }
}

/// Relies on `BigUint::from(u64)` and `BigUint::to_u32_digits`: the limbs of
/// a machine integer.
#[verifier::external_body]
fn limbs_of_u64(v: u64) -> (r: Vec<u32>)
    ensures
        limbs_value(r@) == v,
{
    BigUint::from(v).to_u32_digits()
}

/// Relies on `Add for BigUint`: the sum of two numbers.
#[verifier::external_body]
fn big_add(a: &Natural, b: &Natural) -> (r: Natural)
    ensures
        r@ == a@ + b@,
{
    Natural { limbs: (BigUint::from_slice(&a.limbs) + BigUint::from_slice(&b.limbs)).to_u32_digits() }
}

/// Relies on `PartialEq for BigUint`: equality of values, whatever the limbs.
#[verifier::external_body]
fn big_eq(a: &Natural, b: &Natural) -> (r: bool)
    ensures
        r == (a@ == b@),
{
    BigUint::from_slice(&a.limbs) == BigUint::from_slice(&b.limbs)
}

/// Relies on `Mul for BigUint`: the product of two numbers.
#[verifier::external_body]
fn big_mul(a: &Natural, b: &Natural) -> (r: Natural)
    ensures
        r@ == a@ * b@,
{
    Natural { limbs: (BigUint::from_slice(&a.limbs) * BigUint::from_slice(&b.limbs)).to_u32_digits() }
}

/// Relies on `Sub for BigUint`, which panics when the result would be negative.
#[verifier::external_body]
fn big_sub(a: &Natural, b: &Natural) -> (r: Natural)
    requires
        b@ <= a@,
    ensures
        r@ == a@ - b@,
{
    Natural { limbs: (BigUint::from_slice(&a.limbs) - BigUint::from_slice(&b.limbs)).to_u32_digits() }
}

/// Relies on `Rem for BigUint`, which panics on a zero divisor.
#[verifier::external_body]
fn big_rem(a: &Natural, b: &Natural) -> (r: Natural)
    requires
        b@ > 0,
    ensures
        r@ == a@ % b@,
{
    Natural { limbs: (BigUint::from_slice(&a.limbs) % BigUint::from_slice(&b.limbs)).to_u32_digits() }
}

/// Relies on `BigUint::modpow`, which panics on a zero modulus.
#[verifier::external_body]
fn big_modpow(b: &Natural, e: &Natural, m: &Natural) -> (r: Natural)
    requires
        m@ > 0,
    ensures
        r@ == pow(b@ as int, e@) % (m@ as int),
{
    let base = BigUint::from_slice(&b.limbs);
    Natural { limbs: base.modpow(&BigUint::from_slice(&e.limbs), &BigUint::from_slice(&m.limbs)).to_u32_digits() }
}

/// The number of binary digits of `n`, none for zero.
pub open spec fn bit_length(n: nat) -> nat
    decreases n,
{
    if n == 0 {
        0
    } else {
        1 + bit_length(n / 2)
    }
}

/// Relies on `BigUint::bits`: the number of bits needed to write the value.
#[verifier::external_body]
fn big_bits(a: &Natural) -> (r: u64)
    ensures
        r == bit_length(a@),
{
    BigUint::from_slice(&a.limbs).bits()
}

/// Relies on `Shl<usize> for BigUint`: one shifted left by `n` bits.
#[verifier::external_body]
fn big_pow2(n: usize) -> (r: Natural)
    ensures
        r@ == pow2(n as nat),
{
    Natural { limbs: (BigUint::from(1u32) << n).to_u32_digits() }
}

/// The character of a decimal digit.
pub open spec fn digit_char(d: nat) -> char {
    ((d + 48) as u8) as char
}

/// The decimal numeral of `n`, most significant digit first.
pub open spec fn decimal(n: nat) -> Seq<char>
    decreases n,
{
    if n < 10 {
        seq![digit_char(n)]
    } else {
        decimal(n / 10).push(digit_char(n % 10))
    }
}

/// Relies on `BigUint::to_str_radix` with radix ten: the decimal numeral.
#[verifier::external_body]
fn big_decimal(a: &Natural) -> (r: String)
    ensures
        r@ == decimal(a@),
{
    BigUint::from_slice(&a.limbs).to_str_radix(10)
}

/// Relies on `RandBigInt::gen_biguint_range` over `rand::thread_rng`, which
/// panics on an empty range: a number drawn from `[low, high)`.
#[verifier::external_body]
fn big_random_range(low: &Natural, high: &Natural) -> (r: Natural)
    requires
        low@ < high@,
    ensures
        low@ <= r@ < high@,
{
    let (lo, hi) = (BigUint::from_slice(&low.limbs), BigUint::from_slice(&high.limbs));
    Natural { limbs: rand::thread_rng().gen_biguint_range(&lo, &hi).to_u32_digits() }
}

impl Natural {
    /// The number with the value `v`.
    pub fn from_u64(v: u64) -> (r: Natural)
        ensures
            r@ == v,
    {
        Natural { limbs: limbs_of_u64(v) }
    }

    /// The number zero.
    pub fn zero() -> (r: Natural)
        ensures
            r@ == 0,
    {
        let r = Natural { limbs: Vec::new() };
        assert(r.limbs@.len() == 0);
        r
    }

    /// The number whose limbs, least significant first, are `limbs`.
    pub fn from_limbs(limbs: Vec<u32>) -> (r: Natural)
        ensures
            r@ == limbs_value(limbs@),
    {
        Natural { limbs }
    }

    /// The limbs of the number, least significant first.
    pub fn limbs(&self) -> (r: Vec<u32>)
        ensures
            limbs_value(r@) == self@,
    {
        self.limbs.clone()
    }

    /// A second number with the same value.
    pub fn duplicate(&self) -> (r: Natural)
        ensures
            r@ == self@,
    {
        Natural { limbs: self.limbs.clone() }
    }

    /// Whether the number is zero.
    pub fn is_zero(&self) -> (r: bool)
        ensures
            r == (self@ == 0),
    {
        big_eq(self, &Natural::zero())
    }

    /// Subtracts `other`, which may not exceed this number.
    pub fn sub(&self, other: &Natural) -> (r: Natural)
        requires
            other@ <= self@,
        ensures
            r@ == self@ - other@,
    {
        big_sub(self, other)
    }

    /// Multiplies two numbers.
    pub fn mul(&self, other: &Natural) -> (r: Natural)
        ensures
            r@ == self@ * other@,
    {
        big_mul(self, other)
    }

    /// The remainder of the division by a positive `divisor`.
    pub fn rem(&self, divisor: &Natural) -> (r: Natural)
        requires
            divisor@ > 0,
        ensures
            r@ == self@ % divisor@,
    {
        big_rem(self, divisor)
    }

    /// This number raised to `exponent`, modulo a positive `modulus`.
    pub fn modpow(&self, exponent: &Natural, modulus: &Natural) -> (r: Natural)
        requires
            modulus@ > 0,
        ensures
            r@ == pow(self@ as int, exponent@) % (modulus@ as int),
    {
        big_modpow(self, exponent, modulus)
    }

    /// The number of binary digits.
    pub fn bits(&self) -> (r: u64)
        ensures
            r == bit_length(self@),
    {
        big_bits(self)
    }

    /// Two raised to `n`.
    pub fn power_of_two(n: usize) -> (r: Natural)
        ensures
            r@ == pow2(n as nat),
    {
        big_pow2(n)
    }

    /// A number drawn at random from `[low, high)`.
    pub fn random_range(low: &Natural, high: &Natural) -> (r: Natural)
        requires
            low@ < high@,
        ensures
            low@ <= r@ < high@,
    {
        big_random_range(low, high)
    }

    /// The decimal numeral of the number.
    pub fn to_string(&self) -> (r: String)
        ensures
            r@ == decimal(self@),
    {
        big_decimal(self)
    }

    /// Adds two numbers.
    pub fn add(&self, other: &Natural) -> (r: Natural)
        ensures
            r@ == self@ + other@,
    {
        big_add(self, other)
    }
}

/// An integer of any size and either sign.
#[derive(Debug, Clone)]
pub struct Integer {
    negative: bool,
    magnitude: Vec<u32>,
}

impl View for Integer {
    type V = int;

    closed spec fn view(&self) -> int {
        if self.negative {
            -limbs_value(self.magnitude@)
        } else {
            limbs_value(self.magnitude@) as int
        }
    }
}

/// The absolute value of `x`.
pub open spec fn abs(x: int) -> nat {
    if x < 0 {
        (-x) as nat
    } else {
        x as nat
    }
}

/// The quotient of `n` by `d`, rounded toward zero.
pub open spec fn trunc_div(n: int, d: int) -> int {
    let q = (abs(n) / abs(d)) as int;
    if (n < 0) == (d < 0) {
        q
    } else {
        -q
    }
}

/// The remainder that goes with `trunc_div`: it has the sign of `n`.
pub open spec fn trunc_rem(n: int, d: int) -> int {
    n - d * trunc_div(n, d)
}

/// Relies on `Add for BigInt`: the sum of two integers.
#[verifier::external_body]
fn int_add(a: &Integer, b: &Integer) -> (r: Integer)
    ensures
        r@ == a@ + b@,
{
    let x = BigInt::from_slice(if a.negative { Sign::Minus } else { Sign::Plus }, &a.magnitude);
    let y = BigInt::from_slice(if b.negative { Sign::Minus } else { Sign::Plus }, &b.magnitude);
    let (sign, magnitude) = (x + y).to_u32_digits();
    Integer { negative: sign == Sign::Minus, magnitude }
}

/// Relies on `Sub for BigInt`: the difference of two integers.
#[verifier::external_body]
fn int_sub(a: &Integer, b: &Integer) -> (r: Integer)
    ensures
        r@ == a@ - b@,
{
    let x = BigInt::from_slice(if a.negative { Sign::Minus } else { Sign::Plus }, &a.magnitude);
    let y = BigInt::from_slice(if b.negative { Sign::Minus } else { Sign::Plus }, &b.magnitude);
    let (sign, magnitude) = (x - y).to_u32_digits();
    Integer { negative: sign == Sign::Minus, magnitude }
}

/// Relies on `Mul for BigInt`: the product of two integers.
#[verifier::external_body]
fn int_mul(a: &Integer, b: &Integer) -> (r: Integer)
    ensures
        r@ == a@ * b@,
{
    let x = BigInt::from_slice(if a.negative { Sign::Minus } else { Sign::Plus }, &a.magnitude);
    let y = BigInt::from_slice(if b.negative { Sign::Minus } else { Sign::Plus }, &b.magnitude);
    let (sign, magnitude) = (x * y).to_u32_digits();
    Integer { negative: sign == Sign::Minus, magnitude }
}

/// Relies on `Div for BigInt`, which rounds toward zero and panics on a zero
/// divisor.
#[verifier::external_body]
fn int_div(a: &Integer, b: &Integer) -> (r: Integer)
    requires
        b@ != 0,
    ensures
        r@ == trunc_div(a@, b@),
{
    let x = BigInt::from_slice(if a.negative { Sign::Minus } else { Sign::Plus }, &a.magnitude);
    let y = BigInt::from_slice(if b.negative { Sign::Minus } else { Sign::Plus }, &b.magnitude);
    let (sign, magnitude) = (x / y).to_u32_digits();
    Integer { negative: sign == Sign::Minus, magnitude }
}

/// Relies on `Rem for BigInt`, whose result takes the sign of the dividend,
/// and which panics on a zero divisor.
#[verifier::external_body]
fn int_rem(a: &Integer, b: &Integer) -> (r: Integer)
    requires
        b@ != 0,
    ensures
        r@ == trunc_rem(a@, b@),
{
    let x = BigInt::from_slice(if a.negative { Sign::Minus } else { Sign::Plus }, &a.magnitude);
    let y = BigInt::from_slice(if b.negative { Sign::Minus } else { Sign::Plus }, &b.magnitude);
    let (sign, magnitude) = (x % y).to_u32_digits();
    Integer { negative: sign == Sign::Minus, magnitude }
}

/// Relies on `PartialEq for BigInt`: equality of values.
#[verifier::external_body]
fn int_eq(a: &Integer, b: &Integer) -> (r: bool)
    ensures
        r == (a@ == b@),
{
    let x = BigInt::from_slice(if a.negative { Sign::Minus } else { Sign::Plus }, &a.magnitude);
    x == BigInt::from_slice(if b.negative { Sign::Minus } else { Sign::Plus }, &b.magnitude)
}

impl Integer {
    /// The integer with the value of `n`.
    pub fn from_natural(n: &Natural) -> (r: Integer)
        ensures
            r@ == n@ as int,
    {
        Integer { negative: false, magnitude: n.limbs.clone() }
    }

    /// The integer with the value `v`.
    pub fn from_i64(v: i64) -> (r: Integer)
        ensures
            r@ == v as int,
    {
        if v < 0 {
            let m: u64 = if v == i64::MIN { 0x8000_0000_0000_0000u64 } else { (-v) as u64 };
            Integer { negative: true, magnitude: limbs_of_u64(m) }
        } else {
            Integer { negative: false, magnitude: limbs_of_u64(v as u64) }
        }
    }

    /// The value as a natural number, where it is not negative.
    pub fn to_natural(&self) -> (r: Option<Natural>)
        ensures
            r matches Some(n) ==> n@ as int == self@,
            r is None <==> self@ < 0,
    {
        let m = Natural { limbs: self.magnitude.clone() };
        if !self.negative || m.is_zero() {
            Some(m)
        } else {
            None
        }
    }

    /// A second integer with the same value.
    pub fn duplicate(&self) -> (r: Integer)
        ensures
            r@ == self@,
    {
        Integer { negative: self.negative, magnitude: self.magnitude.clone() }
    }

    /// Whether the integer is zero.
    pub fn is_zero(&self) -> (r: bool)
        ensures
            r == (self@ == 0),
    {
        int_eq(self, &Integer::from_i64(0))
    }

    /// Adds two integers.
    pub fn add(&self, other: &Integer) -> (r: Integer)
        ensures
            r@ == self@ + other@,
    {
        int_add(self, other)
    }

    /// Subtracts `other` from this integer.
    pub fn sub(&self, other: &Integer) -> (r: Integer)
        ensures
            r@ == self@ - other@,
    {
        int_sub(self, other)
    }

    /// Multiplies two integers.
    pub fn mul(&self, other: &Integer) -> (r: Integer)
        ensures
            r@ == self@ * other@,
    {
        int_mul(self, other)
    }

    /// The quotient by a non-zero `divisor`, rounded toward zero.
    pub fn div(&self, divisor: &Integer) -> (r: Integer)
        requires
            divisor@ != 0,
        ensures
            r@ == trunc_div(self@, divisor@),
    {
        int_div(self, divisor)
    }

    /// The remainder by a non-zero `divisor`, with the sign of this integer.
    pub fn rem(&self, divisor: &Integer) -> (r: Integer)
        requires
            divisor@ != 0,
        ensures
            r@ == trunc_rem(self@, divisor@),
    {
        int_rem(self, divisor)
    }
}

impl PartialEq for Integer {
    fn eq(&self, other: &Integer) -> (r: bool) {
        int_eq(self, other)
    }
}

impl vstd::std_specs::cmp::PartialEqSpecImpl for Integer {
    open spec fn obeys_eq_spec() -> bool {
        true
    }

    open spec fn eq_spec(&self, other: &Integer) -> bool {
        self@ == other@
    }
}

impl Eq for Integer {
}

impl PartialEq for Natural {
    fn eq(&self, other: &Natural) -> (r: bool) {
        big_eq(self, other)
    }
}

impl vstd::std_specs::cmp::PartialEqSpecImpl for Natural {
    open spec fn obeys_eq_spec() -> bool {
        true
    }

    open spec fn eq_spec(&self, other: &Natural) -> bool {
        self@ == other@
    }
}

impl Eq for Natural {
}

} // verus!
