use crate::frac::{
    fadd, fdiv, feq, fint, fle, flt, fmul, fneg, fnorm, fsub, gcd, iabs, lemma_fnorm,
    lemma_fnorm_exact, rat_fits, Frac,
};
use vstd::arithmetic::div_mod::lemma_fundamental_div_mod;
use vstd::prelude::*;

verus! {

broadcast use vstd::string::group_string_axioms;

/// An exact rational number: `num / den` with `den > 0`, kept in lowest
/// terms by every constructor and arithmetic operation. The numerator stays
/// above `i64::MIN` so that negation never overflows.
#[derive(Clone, Copy, Debug)]
pub struct Rat {
    /// Numerator, carrying the sign of the value.
    pub num: i64,
    /// Denominator, always positive.
    pub den: i64,
}

impl View for Rat {
    type V = Frac;

    open spec fn view(&self) -> Frac {
        Frac { n: self.num as int, d: self.den as int }
    }
}

impl PartialEq for Rat {
    /// Value equality by exact cross multiplication; representations in
    /// lowest terms are not required.
    fn eq(&self, other: &Rat) -> (r: bool) {
        proof {
            lemma_i64_any_products_fit(self.num as int, self.den as int, other.num as int,
                other.den as int);
        }
        (self.num as i128) * (other.den as i128) == (other.num as i128) * (self.den as i128)
    }
}

impl vstd::std_specs::cmp::PartialEqSpecImpl for Rat {
    open spec fn obeys_eq_spec() -> bool {
        true
    }

    open spec fn eq_spec(&self, other: &Rat) -> bool {
        feq(self@, other@)
    }
}

/// The error text returned when an exact result leaves the representable
/// range.
fn overflow_message() -> (s: String)
    ensures
        s@ == "Exact rational arithmetic overflow."@,
{
    "Exact rational arithmetic overflow.".to_string()
}

/// Greatest common divisor of two machine naturals, by Euclid's loop.
fn gcd_u128(a0: u128, b0: u128) -> (g: u128)
    requires
        a0 >= 1 || b0 >= 1,
    ensures
        g as nat == gcd(a0 as nat, b0 as nat),
        g >= 1,
{
    let mut a = a0;
    let mut b = b0;
    while b != 0
        invariant
            a >= 1 || b >= 1,
            gcd(a as nat, b as nat) == gcd(a0 as nat, b0 as nat),
        decreases b,
    {
        let t = a % b;
        a = b;
        b = t;
    }
    a
}

impl Rat {
    /// A well-formed rational: positive denominator, numerator negatable
    /// without overflow.
    pub open spec fn wf(self) -> bool {
        self.den > 0 && self.num > i64::MIN
    }

    /// Reduces `n / d` to lowest terms with a positive denominator and packs
    /// it into a `Rat`, or reports overflow when the reduced parts do not
    /// fit in 64 bits.
    fn from_i128(n: i128, d: i128) -> (r: Result<Rat, String>)
        requires
            d != 0,
            n > i128::MIN,
            d > i128::MIN,
        ensures
            r matches Ok(v) ==> v@ == fnorm(Frac { n: n as int, d: d as int }) && v.wf(),
            r is Ok <==> rat_fits(fnorm(Frac { n: n as int, d: d as int })),
            r matches Err(e) ==> e@ == "Exact rational arithmetic overflow."@,
    {
        let ghost f = Frac { n: n as int, d: d as int };
        let neg: bool = (n < 0) != (d < 0);
        let an: u128 = if n < 0 {
            (-n) as u128
        } else {
            n as u128
        };
        let ad: u128 = if d < 0 {
            (-d) as u128
        } else {
            d as u128
        };
        proof {
            assert(an as int == iabs(f.n));
            assert(ad as int == iabs(f.d));
            lemma_fnorm_exact(f);
            lemma_fnorm(f);
        }
        let g = gcd_u128(an, ad);
        let mn = an / g;
        let md = ad / g;
        proof {
            let gs = gcd(iabs(f.n) as nat, iabs(f.d) as nat) as int;
            assert(g as int == gs);
            lemma_fundamental_div_mod(an as int, gs);
            lemma_fundamental_div_mod(ad as int, gs);
            assert(mn as int == iabs(f.n) / gs && md as int == iabs(f.d) / gs)
                by (nonlinear_arith)
                requires
                    gs >= 1,
                    an as int == iabs(f.n),
                    ad as int == iabs(f.d),
                    g as int == gs,
                    mn == an / g,
                    md == ad / g,
                    an as int == gs * (an as int / gs) + an as int % gs,
                    ad as int == gs * (ad as int / gs) + ad as int % gs,
            ;
            assert(fnorm(f).n == if neg { -(mn as int) } else { mn as int });
            assert(fnorm(f).d == md as int);
        }
        if mn > i64::MAX as u128 || md > i64::MAX as u128 {
            Err(overflow_message())
        } else {
            let num: i64 = if neg {
                -(mn as i64)
            } else {
                mn as i64
            };
            Ok(Rat { num, den: md as i64 })
        }
    }

    /// The rational `num / den`, reduced to lowest terms with a positive
    /// denominator. Reduction of 64-bit parts always fits, so this cannot
    /// fail.
    pub fn new(num: i64, den: i64) -> (r: Rat)
        requires
            den != 0,
            num > i64::MIN,
            den > i64::MIN,
        ensures
            r@ == fnorm(Frac { n: num as int, d: den as int }),
            r.wf(),
    {
        proof {
            lemma_fnorm(Frac { n: num as int, d: den as int });
        }
        match Self::from_i128(num as i128, den as i128) {
            Ok(v) => v,
            Err(_) => vstd::pervasive::unreached(),
        }
    }

    /// The integer `i` as a rational with denominator one.
    pub fn from_int(i: i64) -> (r: Rat)
        requires
            i > i64::MIN,
        ensures
            r@ == fint(i as int),
            r.wf(),
    {
        Rat { num: i, den: 1 }
    }

    /// The rational zero.
    pub fn zero() -> (r: Rat)
        ensures
            r@ == fint(0),
            r.wf(),
    {
        Rat { num: 0, den: 1 }
    }

    /// Exact sum; fails only when the reduced result leaves 64 bits.
    pub fn add(&self, other: &Rat) -> (r: Result<Rat, String>)
        requires
            self.wf(),
            other.wf(),
        ensures
            r matches Ok(v) ==> v@ == fnorm(fadd(self@, other@)) && v.wf(),
            r is Ok <==> rat_fits(fnorm(fadd(self@, other@))),
            r matches Err(e) ==> e@ == "Exact rational arithmetic overflow."@,
    {
        proof {
            lemma_i64_products_fit(self.num as int, self.den as int, other.num as int,
                other.den as int);
        }
        let n = (self.num as i128) * (other.den as i128) + (other.num as i128) * (self.den
            as i128);
        let d = (self.den as i128) * (other.den as i128);
        Self::from_i128(n, d)
    }

    /// Exact difference; fails only when the reduced result leaves 64 bits.
    pub fn sub(&self, other: &Rat) -> (r: Result<Rat, String>)
        requires
            self.wf(),
            other.wf(),
        ensures
            r matches Ok(v) ==> v@ == fnorm(fsub(self@, other@)) && v.wf(),
            r is Ok <==> rat_fits(fnorm(fsub(self@, other@))),
            r matches Err(e) ==> e@ == "Exact rational arithmetic overflow."@,
    {
        proof {
            lemma_i64_products_fit(self.num as int, self.den as int, other.num as int,
                other.den as int);
            assert((-(other@.n)) * self@.d == -(other@.n * self@.d)) by (nonlinear_arith);
        }
        let n = (self.num as i128) * (other.den as i128) - (other.num as i128) * (self.den
            as i128);
        let d = (self.den as i128) * (other.den as i128);
        Self::from_i128(n, d)
    }

    /// Exact product; fails only when the reduced result leaves 64 bits.
    pub fn mul(&self, other: &Rat) -> (r: Result<Rat, String>)
        requires
            self.wf(),
            other.wf(),
        ensures
            r matches Ok(v) ==> v@ == fnorm(fmul(self@, other@)) && v.wf(),
            r is Ok <==> rat_fits(fnorm(fmul(self@, other@))),
            r matches Err(e) ==> e@ == "Exact rational arithmetic overflow."@,
    {
        proof {
            lemma_i64_products_fit(self.num as int, self.den as int, other.num as int,
                other.den as int);
        }
        let n = (self.num as i128) * (other.num as i128);
        let d = (self.den as i128) * (other.den as i128);
        Self::from_i128(n, d)
    }

    /// Exact quotient by a nonzero rational; fails only when the reduced
    /// result leaves 64 bits.
    pub fn div(&self, other: &Rat) -> (r: Result<Rat, String>)
        requires
            self.wf(),
            other.wf(),
            other@.n != 0,
        ensures
            r matches Ok(v) ==> v@ == fnorm(fdiv(self@, other@)) && v.wf(),
            r is Ok <==> rat_fits(fnorm(fdiv(self@, other@))),
            r matches Err(e) ==> e@ == "Exact rational arithmetic overflow."@,
    {
        proof {
            lemma_i64_products_fit(self.num as int, self.den as int, other.num as int,
                other.den as int);
            assert(self@.d * other@.n != 0) by (nonlinear_arith)
                requires
                    self@.d > 0,
                    other@.n != 0,
            ;
        }
        let n = (self.num as i128) * (other.den as i128);
        let d = (self.den as i128) * (other.num as i128);
        Self::from_i128(n, d)
    }

    /// Exact negation; never fails.
    pub fn neg(&self) -> (r: Rat)
        requires
            self.wf(),
        ensures
            r@ == fneg(self@),
            r.wf(),
    {
        Rat { num: -self.num, den: self.den }
    }

    /// Whether the value is zero.
    pub fn is_zero(&self) -> (r: bool)
        requires
            self.wf(),
        ensures
            r == (self@.n == 0),
    {
        self.num == 0
    }

    /// Whether the value is at least zero.
    pub fn is_nonneg(&self) -> (r: bool)
        requires
            self.wf(),
        ensures
            r == (self@.n >= 0),
    {
        self.num >= 0
    }

    /// Whether the value is strictly positive.
    pub fn is_pos(&self) -> (r: bool)
        requires
            self.wf(),
        ensures
            r == (self@.n > 0),
    {
        self.num > 0
    }

    /// Whether the value is strictly negative.
    pub fn is_neg(&self) -> (r: bool)
        requires
            self.wf(),
        ensures
            r == (self@.n < 0),
    {
        self.num < 0
    }

    /// Exact order test `self <= other`.
    pub fn le(&self, other: &Rat) -> (r: bool)
        requires
            self.wf(),
            other.wf(),
        ensures
            r == fle(self@, other@),
    {
        proof {
            lemma_i64_any_products_fit(self.num as int, self.den as int, other.num as int,
                other.den as int);
        }
        (self.num as i128) * (other.den as i128) <= (other.num as i128) * (self.den as i128)
    }

    /// Exact order test `self < other`.
    pub fn lt(&self, other: &Rat) -> (r: bool)
        requires
            self.wf(),
            other.wf(),
        ensures
            r == flt(self@, other@),
    {
        proof {
            lemma_i64_any_products_fit(self.num as int, self.den as int, other.num as int,
                other.den as int);
        }
        (self.num as i128) * (other.den as i128) < (other.num as i128) * (self.den as i128)
    }
}

/// Cross products of arbitrary 64-bit parts fit in 128 bits.
proof fn lemma_i64_any_products_fit(a: int, b: int, c: int, d: int)
    requires
        i64::MIN as int <= a <= i64::MAX as int,
        i64::MIN as int <= b <= i64::MAX as int,
        i64::MIN as int <= c <= i64::MAX as int,
        i64::MIN as int <= d <= i64::MAX as int,
    ensures
        iabs(a * d) <= i64::MIN as int * (i64::MIN as int),
        iabs(c * b) <= i64::MIN as int * (i64::MIN as int),
        i64::MIN as int * (i64::MIN as int) < i128::MAX as int,
{
    assert(iabs(a * d) <= i64::MIN as int * (i64::MIN as int) && iabs(c * b) <= i64::MIN
        as int * (i64::MIN as int)) by (nonlinear_arith)
        requires
            i64::MIN as int <= a <= i64::MAX as int,
            i64::MIN as int <= b <= i64::MAX as int,
            i64::MIN as int <= c <= i64::MAX as int,
            i64::MIN as int <= d <= i64::MAX as int,
    ;
}

/// All four cross products of 64-bit parts fit comfortably in 128 bits.
proof fn lemma_i64_products_fit(a: int, b: int, c: int, d: int)
    requires
        -(i64::MAX as int) <= a <= i64::MAX as int,
        0 < b <= i64::MAX as int,
        -(i64::MAX as int) <= c <= i64::MAX as int,
        0 < d <= i64::MAX as int,
    ensures
        iabs(a * d) <= i64::MAX as int * (i64::MAX as int),
        iabs(c * b) <= i64::MAX as int * (i64::MAX as int),
        iabs(a * c) <= i64::MAX as int * (i64::MAX as int),
        0 < b * d <= i64::MAX as int * (i64::MAX as int),
        iabs(b * c) <= i64::MAX as int * (i64::MAX as int),
        2 * (i64::MAX as int * (i64::MAX as int)) < i128::MAX as int,
{
    assert(iabs(a * d) <= i64::MAX as int * (i64::MAX as int) && iabs(c * b) <= i64::MAX
        as int * (i64::MAX as int) && iabs(a * c) <= i64::MAX as int * (i64::MAX as int) && 0 < b
        * d <= i64::MAX as int * (i64::MAX as int) && iabs(b * c) <= i64::MAX as int * (i64::MAX
        as int)) by (nonlinear_arith)
        requires
            -(i64::MAX as int) <= a <= i64::MAX as int,
            0 < b <= i64::MAX as int,
            -(i64::MAX as int) <= c <= i64::MAX as int,
            0 < d <= i64::MAX as int,
    ;
}

} // verus!
