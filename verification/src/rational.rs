//! The exact rational magnitude carried by every unit value: a
//! numerator/denominator pair with a positive denominator.  Supplies
//! multiplication, value equality, and reduction to lowest terms.

use vstd::prelude::*;
use vstd::arithmetic::div_mod::{
    lemma_fundamental_div_mod, lemma_fundamental_div_mod_converse, lemma_mod_multiples_basic,
};

verus! {

/// An exact rational number `num / den`.
#[derive(Clone, Copy, Debug)]
pub struct Numeric {
    pub num: i64,
    pub den: i64,
}

/// The greatest common divisor, by Euclid's rule.
pub open spec fn spec_gcd(a: nat, b: nat) -> nat
    decreases b,
{
    if b == 0 {
        a
    } else {
        spec_gcd(b, a % b)
    }
}

/// The gcd of `a` and a positive `b` is positive and divides both.
pub proof fn lemma_gcd_divides(a: nat, b: nat)
    requires
        b >= 1,
    ensures
        1 <= spec_gcd(a, b) <= b,
        a % spec_gcd(a, b) == 0,
        b % spec_gcd(a, b) == 0,
    decreases b,
{
    let g = spec_gcd(a, b);
    let r = a % b;
    assert(g == spec_gcd(b, r));
    if r == 0 {
        assert(g == spec_gcd(b, 0) == b);
        assert(a % b == 0);
        assert(b % b == 0) by {
            lemma_mod_multiples_basic(1, b as int);
        }
    } else {
        lemma_gcd_divides(b, r);
        assert(1 <= g <= r);
        assert(b % g == 0);
        assert(r % g == 0);
        let gi = g as int;
        let bi = b as int;
        let ri = r as int;
        let ai = a as int;
        let kb = bi / gi;
        let kr = ri / gi;
        assert(bi == kb * gi) by {
            lemma_fundamental_div_mod(bi, gi);
        }
        assert(ri == kr * gi) by {
            lemma_fundamental_div_mod(ri, gi);
        }
        let q = ai / bi;
        assert(ai == q * bi + ri) by {
            lemma_fundamental_div_mod(ai, bi);
        }
        assert(ai == (q * kb + kr) * gi) by (nonlinear_arith)
            requires
                bi == kb * gi,
                ri == kr * gi,
                ai == q * bi + ri,
        ;
        lemma_mod_multiples_basic(q * kb + kr, gi);
        assert(ai % gi == 0);
        assert(g <= r < b);
    }
}

/// `a` and `b` each divided by their gcd; the canonical lowest-terms
/// form of the fraction `a / b` for `b >= 1`.
pub open spec fn spec_reduced(n: int, d: int) -> (int, int)
    recommends
        d >= 1,
{
    let g = spec_gcd(abs_int(n), d as nat) as int;
    (n / g, d / g)
}

/// The absolute value of an integer, as a natural number.
pub open spec fn abs_int(n: int) -> nat {
    if n >= 0 {
        n as nat
    } else {
        (-n) as nat
    }
}

/// Value equality of two rationals, by cross multiplication.
pub open spec fn rat_eq(a: Numeric, b: Numeric) -> bool {
    a.num * b.den == b.num * a.den
}

/// Whether the exact product of two rationals fits the representation.
pub open spec fn mul_fits(a: Numeric, b: Numeric) -> bool {
    &&& i64::MIN <= a.num * b.num <= i64::MAX
    &&& a.den * b.den <= i64::MAX
}

/// The product of two values in `i64` range fits an `i128`.
proof fn lemma_i64_product_fits(a: int, b: int)
    requires
        i64::MIN <= a <= i64::MAX,
        i64::MIN <= b <= i64::MAX,
    ensures
        i128::MIN <= a * b <= i128::MAX,
{
    assert(i128::MIN <= a * b <= i128::MAX) by (nonlinear_arith)
        requires
            -0x8000000000000000 <= a <= 0x7fffffffffffffff,
            -0x8000000000000000 <= b <= 0x7fffffffffffffff,
    ;
}

/// Euclid's algorithm.
pub fn gcd(a: u64, b: u64) -> (g: u64)
    ensures
        g == spec_gcd(a as nat, b as nat),
{
    let mut x = a;
    let mut y = b;
    while y != 0
        invariant
            spec_gcd(x as nat, y as nat) == spec_gcd(a as nat, b as nat),
        decreases y,
    {
        let t = x % y;
        x = y;
        y = t;
    }
    x
}

impl Numeric {
    /// The representation invariant: a positive denominator.
    pub open spec fn wf(&self) -> bool {
        self.den >= 1
    }

    /// The rational one.
    pub fn one() -> (r: Numeric)
        ensures
            r.num == 1,
            r.den == 1,
            r.wf(),
    {
        Numeric { num: 1, den: 1 }
    }

    /// A rational from a numerator and a positive denominator.
    pub fn new(num: i64, den: i64) -> (r: Numeric)
        requires
            den >= 1,
        ensures
            r.num == num,
            r.den == den,
            r.wf(),
    {
        Numeric { num, den }
    }

    /// Exact product; `None` when the product does not fit.
    pub fn checked_mul(&self, other: &Numeric) -> (r: Option<Numeric>)
        requires
            self.wf(),
            other.wf(),
        ensures
            match r {
                Some(p) => {
                    &&& mul_fits(*self, *other)
                    &&& p.wf()
                    &&& p.num == self.num * other.num
                    &&& p.den == self.den * other.den
                },
                None => !mul_fits(*self, *other),
            },
    {
        proof {
            lemma_i64_product_fits(self.num as int, other.num as int);
            lemma_i64_product_fits(self.den as int, other.den as int);
        }
        let n: i128 = (self.num as i128) * (other.num as i128);
        let d: i128 = (self.den as i128) * (other.den as i128);
        if n < i64::MIN as i128 || n > i64::MAX as i128 || d > i64::MAX as i128 {
            None
        } else {
            proof {
                assert(d >= 1) by (nonlinear_arith)
                    requires
                        self.den >= 1,
                        other.den >= 1,
                        d == self.den as i128 * other.den as i128,
                ;
            }
            Some(Numeric { num: n as i64, den: d as i64 })
        }
    }

    /// Whether two rationals denote the same value.
    pub fn eq_value(&self, other: &Numeric) -> (r: bool)
        ensures
            r == rat_eq(*self, *other),
    {
        proof {
            lemma_i64_product_fits(self.num as int, other.den as int);
            lemma_i64_product_fits(other.num as int, self.den as int);
        }
        (self.num as i128) * (other.den as i128) == (other.num as i128) * (self.den as i128)
    }

    /// This value in lowest terms, as a numerator/denominator pair.
    pub fn to_rational(&self) -> (r: (i64, i64))
        requires
            self.wf(),
        ensures
            (r.0 as int, r.1 as int) == spec_reduced(self.num as int, self.den as int),
            r.1 >= 1,
    {
        let a: u64 = if self.num >= 0 {
            self.num as u64
        } else if self.num == i64::MIN {
            9223372036854775808u64
        } else {
            (-self.num) as u64
        };
        proof {
            assert(a == abs_int(self.num as int));
        }
        let g = gcd(a, self.den as u64);
        proof {
            lemma_gcd_divides(a as nat, self.den as nat);
        }
        let qa: u64 = a / g;
        let qd: u64 = (self.den as u64) / g;
        proof {
            let gi = g as int;
            let ai = a as int;
            let di = self.den as int;
            assert(gi >= 1);
            assert(ai % gi == 0);
            assert(di % gi == 0);
            lemma_fundamental_div_mod(ai, gi);
            lemma_fundamental_div_mod(di, gi);
            assert(qa as int == ai / gi);
            assert(qd as int == di / gi);
            assert(ai == (qa as int) * gi);
            assert(di == (qd as int) * gi);
        }
        let rnum: i64 = if self.num >= 0 {
            qa as i64
        } else if qa == 9223372036854775808u64 {
            i64::MIN
        } else {
            -(qa as i64)
        };
        proof {
            let gi = g as int;
            let ai = a as int;
            let di = self.den as int;
            if self.num >= 0 {
                lemma_fundamental_div_mod_converse(self.num as int, gi, rnum as int, 0);
            } else {
                assert(rnum as int == -(qa as int));
                assert(self.num as int == -ai);
                assert((rnum as int) * gi == self.num as int) by (nonlinear_arith)
                    requires
                        rnum as int == -(qa as int),
                        ai == (qa as int) * gi,
                        self.num as int == -ai,
                ;
                lemma_fundamental_div_mod_converse(self.num as int, gi, rnum as int, 0);
            }
            lemma_fundamental_div_mod_converse(di, gi, qd as int, 0);
            assert(qd >= 1) by (nonlinear_arith)
                requires
                    di == (qd as int) * gi,
                    di >= 1,
                    gi >= 1,
                    qd >= 0,
            ;
        }
        (rnum, qd as i64)
    }
}

} // verus!
