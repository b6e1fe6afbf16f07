//! Dense polynomials over the natural numbers, as used to split a secret.

use crate::bignum::{decimal, Natural};
use vstd::arithmetic::power::pow;
use vstd::arithmetic::power2::pow2;
use vstd::prelude::*;
use vstd::string::StringExecFns;

verus! {

/// The value of the polynomial with coefficients `c` (constant term first) at `x`.
pub open spec fn poly_eval(c: Seq<nat>, x: int) -> int
    decreases c.len(),
{
    if c.len() == 0 {
        0
    } else {
        poly_eval(c.drop_last(), x) + c.last() * pow(x, (c.len() - 1) as nat)
    }
}

/// The text of the term `c x^k`.
pub open spec fn term_text(c: nat, k: nat) -> Seq<char> {
    if k == 0 {
        decimal(c)
    } else if k == 1 {
        decimal(c) + seq!['x']
    } else {
        decimal(c) + seq!['x', '^'] + decimal(k)
    }
}

/// The text of a polynomial: its terms in order, joined by `" + "`.
pub open spec fn poly_text(c: Seq<nat>) -> Seq<char>
    decreases c.len(),
{
    if c.len() == 0 {
        seq![]
    } else if c.len() == 1 {
        term_text(c[0], 0)
    } else {
        poly_text(c.drop_last()) + seq![' ', '+', ' '] + term_text(c.last(), (c.len() - 1) as nat)
    }
}

/// A polynomial whose coefficients are natural numbers.
pub struct Polynomial {
    /// The coefficients, constant term first.
    pub coefficients: Vec<Natural>,
}

impl View for Polynomial {
    type V = Seq<nat>;

    open spec fn view(&self) -> Seq<nat> {
        self.coefficients@.map_values(|c: Natural| c@)
    }
}

impl Polynomial {
    /// A polynomial of the given degree whose coefficients are all drawn at
    /// random from `[1, 2^max_bit_size)`.
    pub fn new(degree: usize, max_bit_size: usize) -> (r: Polynomial)
        requires
            degree < usize::MAX,
            max_bit_size >= 1,
        ensures
            r@.len() == degree + 1,
            forall|k: int| 0 <= k < r@.len() ==> 1 <= #[trigger] r@[k] < pow2(max_bit_size as nat),
    {
        let one = Natural::from_u64(1);
        let n = Natural::power_of_two(max_bit_size);
        proof {
            vstd::arithmetic::power2::lemma_pow2_strictly_increases(0, max_bit_size as nat);
            vstd::arithmetic::power2::lemma2_to64();
        }
        let mut coefficients: Vec<Natural> = Vec::new();
        let mut k: usize = 0;
        while k <= degree
            invariant
                k <= degree + 1,
                degree < usize::MAX,
                one@ == 1,
                n@ == pow2(max_bit_size as nat),
                1 < n@,
                coefficients@.len() == k,
                forall|j: int| 0 <= j < k ==> 1 <= #[trigger] coefficients@[j]@ < n@,
            decreases degree + 1 - k,
        {
            coefficients.push(Natural::random_range(&one, &n));
            k = k + 1;
        }
        Polynomial { coefficients }
    }

    /// A polynomial of the given degree whose constant term is `secret` and
    /// whose other coefficients are drawn at random from `[1, 2^max_bit_size)`.
    pub fn new_for_shamir(degree: usize, max_bit_size: usize, secret: &Natural) -> (r: Polynomial)
        requires
            degree < usize::MAX,
            degree == 0 || max_bit_size >= 1,
        ensures
            r@.len() == degree + 1,
            r@[0] == secret@,
            forall|k: int| 1 <= k < r@.len() ==> 1 <= #[trigger] r@[k] < pow2(max_bit_size as nat),
    {
        let one = Natural::from_u64(1);
        let n = Natural::power_of_two(max_bit_size);
        proof {
            if max_bit_size >= 1 {
                vstd::arithmetic::power2::lemma_pow2_strictly_increases(0, max_bit_size as nat);
                vstd::arithmetic::power2::lemma2_to64();
            }
        }
        let mut coefficients: Vec<Natural> = Vec::new();
        coefficients.push(secret.duplicate());
        let mut k: usize = 1;
        while k <= degree
            invariant
                1 <= k <= degree + 1,
                degree < usize::MAX,
                degree > 0 ==> 1 < n@,
                one@ == 1,
                n@ == pow2(max_bit_size as nat),
                coefficients@.len() == k,
                coefficients@[0]@ == secret@,
                forall|j: int| 1 <= j < k ==> 1 <= #[trigger] coefficients@[j]@ < n@,
            decreases degree + 1 - k,
        {
            coefficients.push(Natural::random_range(&one, &n));
            k = k + 1;
        }
        Polynomial { coefficients }
    }

    /// The value of the polynomial at `x`, not reduced by any modulus.
    pub fn evaluate(&self, x: &Natural) -> (r: Natural)
        ensures
            r@ == poly_eval(self@, x@ as int),
    {
        let mut result = Natural::zero();
        let mut x_pow = Natural::from_u64(1);
        let mut k: usize = 0;
        proof {
            reveal(pow);
        }
        while k < self.coefficients.len()
            invariant
                k <= self.coefficients@.len(),
                result@ == poly_eval(self@.take(k as int), x@ as int),
                x_pow@ == pow(x@ as int, k as nat),
            decreases self.coefficients@.len() - k,
        {
            let term = self.coefficients[k].mul(&x_pow);
            result = result.add(&term);
            x_pow = x_pow.mul(x);
            proof {
                reveal(pow);
                let c = self@.take(k as int + 1);
                assert(c.drop_last() =~= self@.take(k as int));
                assert(x_pow@ == pow(x@ as int, (k + 1) as nat)) by (nonlinear_arith)
                    requires
                        x_pow@ == pow(x@ as int, k as nat) * x@,
                        pow(x@ as int, (k + 1) as nat) == x@ * pow(x@ as int, k as nat),
                ;
            }
            k = k + 1;
        }
        assert(self@.take(k as int) =~= self@);
        result
    }

    /// The polynomial as text, such as `1 + 2x + 3x^2`.
    pub fn to_string(&self) -> (r: String)
        ensures
            r@ == poly_text(self@),
    {
        let mut text = String::new();
        let mut k: usize = 0;
        while k < self.coefficients.len()
            invariant
                k <= self.coefficients@.len(),
                text@ == poly_text(self@.take(k as int)),
            decreases self.coefficients@.len() - k,
        {
            proof {
                reveal_strlit(" + ");
                reveal_strlit("x");
                reveal_strlit("x^");
                assert(self@.take(k as int + 1).drop_last() =~= self@.take(k as int));
            }
            if k > 0 {
                text.append(" + ");
            }
            let coef = self.coefficients[k].to_string();
            text.append(coef.as_str());
            if k == 1 {
                text.append("x");
            } else if k > 1 {
                text.append("x^");
                let power = Natural::from_u64(k as u64).to_string();
                text.append(power.as_str());
            }
            assert(text@ =~= poly_text(self@.take(k as int + 1)));
            k = k + 1;
        }
        assert(self@.take(k as int) =~= self@);
        text
    }
}

} // verus!
