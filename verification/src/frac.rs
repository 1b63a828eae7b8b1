use vstd::arithmetic::div_mod::{lemma_fundamental_div_mod, lemma_mod_multiples_basic};
use vstd::prelude::*;

verus! {

/// A rational number at the specification level, written as the quotient
/// `n / d` of two unbounded integers. A value is meaningful only when
/// `d != 0`; executable code keeps denominators positive.
pub struct Frac {
    /// Numerator.
    pub n: int,
    /// Denominator.
    pub d: int,
}

/// The integer `i` as a fraction.
pub open spec fn fint(i: int) -> Frac {
    Frac { n: i, d: 1 }
}

/// Magnitude of an integer.
pub open spec fn iabs(i: int) -> int {
    if i < 0 {
        -i
    } else {
        i
    }
}

/// Value equality of two fractions, by cross multiplication.
pub open spec fn feq(a: Frac, b: Frac) -> bool {
    a.n * b.d == b.n * a.d
}

/// Value order of two fractions; meaningful when both denominators are
/// positive.
pub open spec fn fle(a: Frac, b: Frac) -> bool {
    a.n * b.d <= b.n * a.d
}

/// Strict value order; meaningful when both denominators are positive.
pub open spec fn flt(a: Frac, b: Frac) -> bool {
    a.n * b.d < b.n * a.d
}

/// Sum of two fractions.
pub open spec fn fadd(a: Frac, b: Frac) -> Frac {
    Frac { n: a.n * b.d + b.n * a.d, d: a.d * b.d }
}

/// Negation of a fraction.
pub open spec fn fneg(a: Frac) -> Frac {
    Frac { n: -a.n, d: a.d }
}

/// Difference of two fractions.
pub open spec fn fsub(a: Frac, b: Frac) -> Frac {
    fadd(a, fneg(b))
}

/// Product of two fractions.
pub open spec fn fmul(a: Frac, b: Frac) -> Frac {
    Frac { n: a.n * b.n, d: a.d * b.d }
}

/// Reciprocal of a fraction; meaningful when `a.n != 0`.
pub open spec fn finv(a: Frac) -> Frac {
    Frac { n: a.d, d: a.n }
}

/// Quotient of two fractions; meaningful when `b.n != 0`.
pub open spec fn fdiv(a: Frac, b: Frac) -> Frac {
    fmul(a, finv(b))
}

/// Greatest common divisor, by Euclid's recursion.
pub open spec fn gcd(a: nat, b: nat) -> nat
    decreases b,
{
    if b == 0 {
        a
    } else {
        gcd(b, a % b)
    }
}

/// The canonical representative of a fraction: magnitudes divided by their
/// greatest common divisor, sign carried by the numerator, denominator
/// positive. Meaningful when `f.d != 0`.
pub open spec fn fnorm(f: Frac) -> Frac {
    let g = gcd(iabs(f.n) as nat, iabs(f.d) as nat) as int;
    let mn = iabs(f.n) / g;
    let md = iabs(f.d) / g;
    Frac { n: if (f.n < 0) == (f.d < 0) { mn } else { -mn }, d: md }
}

/// Whether a canonical fraction fits the executable representation.
pub open spec fn rat_fits(f: Frac) -> bool {
    &&& -(i64::MAX as int) <= f.n <= i64::MAX as int
    &&& 1 <= f.d <= i64::MAX as int
}

/// The greatest common divisor of two naturals, not both zero, is positive.
pub proof fn lemma_gcd_pos(a: nat, b: nat)
    requires
        a > 0 || b > 0,
    ensures
        gcd(a, b) > 0,
    decreases b,
{
    if b != 0 {
        lemma_gcd_pos(b, a % b);
    }
}

/// The greatest common divisor divides both of its arguments.
pub proof fn lemma_gcd_divides(a: nat, b: nat)
    requires
        a > 0 || b > 0,
    ensures
        gcd(a, b) > 0,
        a as int % (gcd(a, b) as int) == 0,
        b as int % (gcd(a, b) as int) == 0,
    decreases b,
{
    lemma_gcd_pos(a, b);
    let g = gcd(a, b) as int;
    if b == 0 {
        lemma_mod_multiples_basic(1, g);
        assert(a as int % g == 0) by {
            assert(a as int == 1 * g);
        };
        assert(b as int % g == 0) by {
            assert(b as int == 0 * g);
            lemma_mod_multiples_basic(0, g);
        };
    } else {
        lemma_gcd_divides(b, a % b);
        assert(g == gcd(b, a % b));
        let r = (a % b) as int;
        lemma_fundamental_div_mod(a as int, b as int);
        lemma_fundamental_div_mod(b as int, g);
        lemma_fundamental_div_mod(r, g);
        let q = a as int / b as int;
        let kb = b as int / g;
        let kr = r / g;
        assert(a as int == g * (kb * q + kr)) by (nonlinear_arith)
            requires
                a as int == b as int * q + r,
                b as int == g * kb,
                r == g * kr,
        ;
        assert(((kb * q + kr) * g) % g == 0) by {
            lemma_mod_multiples_basic(kb * q + kr, g);
        };
        assert(a as int == (kb * q + kr) * g) by (nonlinear_arith)
            requires
                a as int == g * (kb * q + kr),
        ;
    }
}

/// Exact division facts for the canonical representative: the magnitudes of
/// `f` are the canonical magnitudes scaled by the (positive) divisor.
pub proof fn lemma_fnorm_exact(f: Frac)
    requires
        f.d != 0,
    ensures
        ({
            let g = gcd(iabs(f.n) as nat, iabs(f.d) as nat) as int;
            &&& g >= 1
            &&& iabs(f.n) == g * (iabs(f.n) / g)
            &&& iabs(f.d) == g * (iabs(f.d) / g)
        }),
{
    let an = iabs(f.n) as nat;
    let ad = iabs(f.d) as nat;
    lemma_gcd_divides(an, ad);
    let g = gcd(an, ad) as int;
    lemma_fundamental_div_mod(an as int, g);
    lemma_fundamental_div_mod(ad as int, g);
}

/// The canonical representative of a fraction equals it in value, has a
/// positive denominator no larger than the original magnitude, a numerator
/// of no larger magnitude, and the sign of the original value.
pub proof fn lemma_fnorm(f: Frac)
    requires
        f.d != 0,
    ensures
        fnorm(f).d >= 1,
        feq(fnorm(f), f),
        feq(f, fnorm(f)),
        iabs(fnorm(f).n) <= iabs(f.n),
        fnorm(f).d <= iabs(f.d),
        fnorm(f).n == 0 <==> f.n == 0,
        fnorm(f).n > 0 <==> (f.n > 0 && f.d > 0) || (f.n < 0 && f.d < 0),
        fnorm(f).n < 0 <==> (f.n < 0 && f.d > 0) || (f.n > 0 && f.d < 0),
{
    lemma_fnorm_exact(f);
    let g = gcd(iabs(f.n) as nat, iabs(f.d) as nat) as int;
    let mn = iabs(f.n) / g;
    let md = iabs(f.d) / g;
    assert(mn >= 0 && md >= 1 && mn <= iabs(f.n) && md <= iabs(f.d)) by (nonlinear_arith)
        requires
            g >= 1,
            iabs(f.n) == g * mn,
            iabs(f.d) == g * md,
            iabs(f.n) >= 0,
            iabs(f.d) >= 1,
    ;
    assert(mn == 0 <==> iabs(f.n) == 0) by (nonlinear_arith)
        requires
            g >= 1,
            iabs(f.n) == g * mn,
            mn >= 0,
    ;
    let c = fnorm(f);
    assert(c.n * f.d == f.n * c.d) by (nonlinear_arith)
        requires
            g >= 1,
            iabs(f.n) == g * mn,
            iabs(f.d) == g * md,
            c.n == if (f.n < 0) == (f.d < 0) { mn } else { -mn },
            c.d == md,
            iabs(f.n) == if f.n < 0 { -f.n } else { f.n },
            iabs(f.d) == if f.d < 0 { -f.d } else { f.d },
    ;
}

/// Dividing a value by the negated pivot entry and then by the negated
/// reciprocal restores it: the two scalings of one dictionary entry made
/// by a pivot and its repetition cancel.
pub proof fn lemma_unscale(x: Frac, a: Frac, p1: Frac, y: Frac, z: Frac)
    requires
        a.d > 0,
        a.n != 0,
        x.d != 0,
        feq(p1, Frac { n: -a.d, d: -a.n }),
        p1.d != 0,
        p1.n != 0,
        y == fnorm(fdiv(x, fneg(a))),
        z == fnorm(fdiv(y, fneg(p1))),
    ensures
        feq(z, x),
        y.d >= 1,
        z.d >= 1,
{
    let yr = fdiv(x, fneg(a));
    assert(yr.n == x.n * a.d && yr.d == x.d * (-a.n));
    assert(yr.d != 0) by (nonlinear_arith)
        requires
            x.d != 0,
            a.n != 0,
            yr.d == x.d * (-a.n),
    ;
    lemma_fnorm(yr);
    let zr = fdiv(y, fneg(p1));
    assert(zr.n == y.n * p1.d && zr.d == y.d * (-p1.n));
    assert(zr.d != 0) by (nonlinear_arith)
        requires
            y.d >= 1,
            p1.n != 0,
            zr.d == y.d * (-p1.n),
    ;
    lemma_fnorm(zr);
    assert(y.n * p1.d * x.d * (-a.n) == p1.d * (x.n * a.d * y.d)) by (nonlinear_arith)
        requires
            y.n * (x.d * (-a.n)) == x.n * a.d * y.d,
    ;
    assert(p1.d * (x.n * a.d * y.d) == x.n * y.d * (p1.n * a.n)) by (nonlinear_arith)
        requires
            p1.n * (-a.n) == (-a.d) * p1.d,
    ;
    assert(x.n * y.d * (p1.n * a.n) == x.n * (y.d * (-p1.n)) * (-a.n)) by (nonlinear_arith);
    assert(zr.n * x.d == x.n * zr.d) by (nonlinear_arith)
        requires
            zr.n * x.d * (-a.n) == x.n * zr.d * (-a.n),
            a.n != 0,
    ;
    lemma_feq_trans(z, zr, x);
}

/// Multiplying a value by the reciprocal of the pivot entry and then by
/// the restored pivot entry cancels.
pub proof fn lemma_mul_unscale(x: Frac, a: Frac, p1: Frac, q: Frac, w: Frac, z: Frac)
    requires
        a.d > 0,
        a.n != 0,
        x.d != 0,
        feq(p1, Frac { n: -a.d, d: -a.n }),
        p1.d != 0,
        feq(q, a),
        q.d != 0,
        w == fnorm(fmul(p1, x)),
        z == fnorm(fmul(q, w)),
    ensures
        feq(z, x),
        w.d >= 1,
        z.d >= 1,
{
    let wr = fmul(p1, x);
    assert(wr.n == p1.n * x.n && wr.d == p1.d * x.d);
    assert(wr.d != 0) by (nonlinear_arith)
        requires
            p1.d != 0,
            x.d != 0,
            wr.d == p1.d * x.d,
    ;
    lemma_fnorm(wr);
    let zr = fmul(q, w);
    assert(zr.n == q.n * w.n && zr.d == q.d * w.d);
    assert(zr.d != 0) by (nonlinear_arith)
        requires
            q.d != 0,
            w.d >= 1,
            zr.d == q.d * w.d,
    ;
    lemma_fnorm(zr);
    // Cross equations: w against p1 * x, p1 against the reciprocal of a,
    // and q against a; combine and cancel the nonzero factors.
    assert(p1.n * a.n == a.d * p1.d) by (nonlinear_arith)
        requires
            p1.n * (-a.n) == (-a.d) * p1.d,
    ;
    assert(zr.n * x.d * (p1.d * x.d) * a.d == q.n * (w.n * (p1.d * x.d)) * x.d * a.d)
        by (nonlinear_arith)
        requires
            zr.n == q.n * w.n,
    ;
    assert(q.n * (w.n * (p1.d * x.d)) * x.d * a.d == (q.n * a.d) * (p1.n * x.n * w.d) * x.d)
        by (nonlinear_arith)
        requires
            w.n * (p1.d * x.d) == p1.n * x.n * w.d,
    ;
    assert((q.n * a.d) * (p1.n * x.n * w.d) * x.d == (p1.n * a.n) * q.d * (x.n * w.d * x.d))
        by (nonlinear_arith)
        requires
            q.n * a.d == a.n * q.d,
    ;
    assert((p1.n * a.n) * q.d * (x.n * w.d * x.d) == x.n * zr.d * (p1.d * x.d) * a.d)
        by (nonlinear_arith)
        requires
            p1.n * a.n == a.d * p1.d,
            zr.d == q.d * w.d,
    ;
    assert(zr.n * x.d == x.n * zr.d) by (nonlinear_arith)
        requires
            zr.n * x.d * (p1.d * x.d) * a.d == x.n * zr.d * (p1.d * x.d) * a.d,
            p1.d != 0,
            x.d != 0,
            a.d > 0,
    ;
    lemma_feq_trans(z, zr, x);
}

/// One elimination step of a pivot and the matching step of the repeated
/// pivot cancel: the update added the scaled pivot row once with each
/// sign, so the original entry value returns.
pub proof fn lemma_eliminate_restore(
    x: Frac,
    s: Frac,
    u: Frac,
    a: Frac,
    p1: Frac,
    r1: Frac,
    r2: Frac,
    w: Frac,
    y: Frac,
    z: Frac,
)
    requires
        a.d > 0,
        a.n != 0,
        x.d != 0,
        s.d != 0,
        u.d != 0,
        feq(p1, Frac { n: -a.d, d: -a.n }),
        p1.d != 0,
        r1 == fnorm(fdiv(s, fneg(a))),
        feq(r2, s),
        r2.d != 0,
        w == fnorm(fmul(p1, u)),
        y == fnorm(fadd(x, fnorm(fmul(r1, u)))),
        z == fnorm(fadd(y, fnorm(fmul(r2, w)))),
    ensures
        feq(z, x),
{
    let rr = fdiv(s, fneg(a));
    assert(rr.n == s.n * a.d && rr.d == s.d * (-a.n));
    assert(rr.d != 0) by (nonlinear_arith)
        requires
            s.d != 0,
            a.n != 0,
            rr.d == s.d * (-a.n),
    ;
    lemma_fnorm(rr);
    let su = fmul(s, u);
    let dd = fdiv(su, fneg(a));
    assert(dd.n == (s.n * u.n) * a.d && dd.d == (s.d * u.d) * (-a.n));
    assert(dd.d != 0) by (nonlinear_arith)
        requires
            s.d != 0,
            u.d != 0,
            a.n != 0,
            dd.d == (s.d * u.d) * (-a.n),
    ;
    // The scaled entry added by the first pivot has the value su / (-a).
    let gr = fmul(r1, u);
    assert(gr.n == r1.n * u.n && gr.d == r1.d * u.d);
    assert(gr.d != 0) by (nonlinear_arith)
        requires
            r1.d >= 1,
            u.d != 0,
            gr.d == r1.d * u.d,
    ;
    lemma_fnorm(gr);
    let g = fnorm(gr);
    lemma_fmul_congr(r1, rr, u, u);
    assert(fmul(rr, u).d != 0) by (nonlinear_arith)
        requires
            rr.d != 0,
            u.d != 0,
            fmul(rr, u).d == rr.d * u.d,
    ;
    lemma_feq_trans(g, gr, fmul(rr, u));
    assert(feq(fmul(rr, u), dd)) by (nonlinear_arith)
        requires
            fmul(rr, u).n == (s.n * a.d) * u.n,
            fmul(rr, u).d == (s.d * (-a.n)) * u.d,
            dd.n == (s.n * u.n) * a.d,
            dd.d == (s.d * u.d) * (-a.n),
    ;
    lemma_feq_trans(g, fmul(rr, u), dd);
    // The entry added by the repeated pivot has the value su * (1/a),
    // which is the negation of the first one.
    let wr = fmul(p1, u);
    assert(wr.d != 0) by (nonlinear_arith)
        requires
            p1.d != 0,
            u.d != 0,
            wr.d == p1.d * u.d,
    ;
    lemma_fnorm(wr);
    let hr = fmul(r2, w);
    assert(hr.d != 0) by (nonlinear_arith)
        requires
            r2.d != 0,
            w.d >= 1,
            hr.d == r2.d * w.d,
    ;
    lemma_fnorm(hr);
    let h = fnorm(hr);
    lemma_fmul_congr(r2, s, w, wr);
    lemma_feq_trans(h, hr, fmul(s, wr));
    let sp = fmul(su, p1);
    assert(feq(fmul(s, wr), sp)) by (nonlinear_arith)
        requires
            fmul(s, wr).n == s.n * (p1.n * u.n),
            fmul(s, wr).d == s.d * (p1.d * u.d),
            sp.n == (s.n * u.n) * p1.n,
            sp.d == (s.d * u.d) * p1.d,
    ;
    assert(fmul(s, wr).d != 0) by (nonlinear_arith)
        requires
            s.d != 0,
            p1.d != 0,
            u.d != 0,
            fmul(s, wr).d == s.d * (p1.d * u.d),
    ;
    lemma_feq_trans(h, fmul(s, wr), sp);
    lemma_fmul_congr(su, su, p1, Frac { n: -a.d, d: -a.n });
    assert(sp.d != 0) by (nonlinear_arith)
        requires
            s.d != 0,
            u.d != 0,
            p1.d != 0,
            sp.d == (s.d * u.d) * p1.d,
    ;
    let snd = fmul(su, Frac { n: -a.d, d: -a.n });
    lemma_feq_trans(h, sp, snd);
    assert(snd == fneg(dd)) by (nonlinear_arith)
        requires
            snd.n == (s.n * u.n) * (-a.d),
            snd.d == (s.d * u.d) * (-a.n),
            fneg(dd).n == -((s.n * u.n) * a.d),
            fneg(dd).d == (s.d * u.d) * (-a.n),
    ;
    // Sum up: the original value plus dd plus its negation.
    let a1 = fadd(x, g);
    assert(a1.d != 0) by (nonlinear_arith)
        requires
            x.d != 0,
            g.d >= 1,
            a1.d == x.d * g.d,
    ;
    lemma_fnorm(a1);
    lemma_fadd_congr_r(x, g, dd);
    let xd = fadd(x, dd);
    assert(xd.d != 0) by (nonlinear_arith)
        requires
            x.d != 0,
            dd.d != 0,
            xd.d == x.d * dd.d,
    ;
    lemma_feq_trans(y, a1, xd);
    let a2 = fadd(y, h);
    assert(a2.d != 0) by (nonlinear_arith)
        requires
            y.d >= 1,
            h.d >= 1,
            a2.d == y.d * h.d,
    ;
    lemma_fnorm(a2);
    lemma_fadd_congr_l(y, xd, h);
    let c1 = fadd(xd, h);
    assert(c1.d != 0) by (nonlinear_arith)
        requires
            xd.d != 0,
            h.d >= 1,
            c1.d == xd.d * h.d,
    ;
    lemma_feq_trans(z, a2, c1);
    lemma_fadd_congr_r(xd, h, fneg(dd));
    let c2 = fadd(xd, fneg(dd));
    assert(c2.d != 0) by (nonlinear_arith)
        requires
            xd.d != 0,
            dd.d != 0,
            c2.d == xd.d * dd.d,
    ;
    lemma_feq_trans(z, c1, c2);
    lemma_cancel_add_neg(x, dd);
    lemma_feq_trans(z, c2, x);
}

/// Value equality is transitive across a middle term with nonzero
/// denominator.
pub proof fn lemma_feq_trans(a: Frac, b: Frac, c: Frac)
    requires
        b.d != 0,
        feq(a, b),
        feq(b, c),
    ensures
        feq(a, c),
{
    assert(a.n * c.d == c.n * a.d) by (nonlinear_arith)
        requires
            b.d != 0,
            a.n * b.d == b.n * a.d,
            b.n * c.d == c.n * b.d,
    ;
}

/// Replacing both sides of an order test by value-equal fractions (all with
/// positive denominators) does not change the outcome.
pub proof fn lemma_order_congr(a: Frac, a2: Frac, b: Frac, b2: Frac)
    requires
        a.d > 0,
        a2.d > 0,
        b.d > 0,
        b2.d > 0,
        feq(a, a2),
        feq(b, b2),
    ensures
        fle(a, b) == fle(a2, b2),
        flt(a, b) == flt(a2, b2),
{
    assert((a.n * b.d <= b.n * a.d <==> a2.n * b2.d <= b2.n * a2.d) && (a.n * b.d < b.n * a.d
        <==> a2.n * b2.d < b2.n * a2.d)) by (nonlinear_arith)
        requires
            a.d > 0,
            a2.d > 0,
            b.d > 0,
            b2.d > 0,
            a.n * a2.d == a2.n * a.d,
            b.n * b2.d == b2.n * b.d,
    ;
}

/// Replacing the right summand by a value-equal fraction gives a
/// value-equal sum.
#[verifier::rlimit(50)]
pub proof fn lemma_fadd_congr_r(a: Frac, b: Frac, b2: Frac)
    requires
        feq(b, b2),
    ensures
        feq(fadd(a, b), fadd(a, b2)),
{
    let p = a.n * b.d;
    let q = b.n * a.d;
    let r = a.d * b2.d;
    let p2 = a.n * b2.d;
    let q2 = b2.n * a.d;
    let r2 = a.d * b.d;
    assert((p + q) * r == p * r + q * r) by (nonlinear_arith);
    assert((p2 + q2) * r2 == p2 * r2 + q2 * r2) by (nonlinear_arith);
    assert(p * r == p2 * r2) by (nonlinear_arith)
        requires
            p == a.n * b.d,
            r == a.d * b2.d,
            p2 == a.n * b2.d,
            r2 == a.d * b.d,
    ;
    assert(q * r == (b.n * b2.d) * (a.d * a.d)) by (nonlinear_arith)
        requires
            q == b.n * a.d,
            r == a.d * b2.d,
    ;
    assert(q2 * r2 == (b2.n * b.d) * (a.d * a.d)) by (nonlinear_arith)
        requires
            q2 == b2.n * a.d,
            r2 == a.d * b.d,
    ;
}

/// Replacing the left summand by a value-equal fraction gives a
/// value-equal sum.
#[verifier::rlimit(50)]
pub proof fn lemma_fadd_congr_l(a: Frac, a2: Frac, b: Frac)
    requires
        feq(a, a2),
    ensures
        feq(fadd(a, b), fadd(a2, b)),
{
    let p = a.n * b.d;
    let q = b.n * a.d;
    let r = a2.d * b.d;
    let p2 = a2.n * b.d;
    let q2 = b.n * a2.d;
    let r2 = a.d * b.d;
    assert((p + q) * r == p * r + q * r) by (nonlinear_arith);
    assert((p2 + q2) * r2 == p2 * r2 + q2 * r2) by (nonlinear_arith);
    assert(p * r == p2 * r2) by (nonlinear_arith)
        requires
            p == a.n * b.d,
            r == a2.d * b.d,
            p2 == a2.n * b.d,
            r2 == a.d * b.d,
            a.n * a2.d == a2.n * a.d,
    ;
    assert(q * r == q2 * r2) by (nonlinear_arith)
        requires
            q == b.n * a.d,
            r == a2.d * b.d,
            q2 == b.n * a2.d,
            r2 == a.d * b.d,
    ;
}

/// Replacing both factors by value-equal fractions gives a value-equal
/// product.
pub proof fn lemma_fmul_congr(a: Frac, a2: Frac, b: Frac, b2: Frac)
    requires
        feq(a, a2),
        feq(b, b2),
    ensures
        feq(fmul(a, b), fmul(a2, b2)),
{
    assert((a.n * b.n) * (a2.d * b2.d) == (a.n * a2.d) * (b.n * b2.d)) by (nonlinear_arith);
    assert((a.n * a2.d) * (b.n * b2.d) == (a2.n * a.d) * (b2.n * b.d)) by (nonlinear_arith)
        requires
            a.n * a2.d == a2.n * a.d,
            b.n * b2.d == b2.n * b.d,
    ;
    assert((a2.n * a.d) * (b2.n * b.d) == (a2.n * b2.n) * (a.d * b.d)) by (nonlinear_arith);
}

/// Adding a fraction and then its negation restores the original value.
pub proof fn lemma_cancel_add_neg(x: Frac, d: Frac)
    requires
        x.d != 0,
        d.d != 0,
    ensures
        feq(fadd(fadd(x, d), fneg(d)), x),
{
    let s = fadd(fadd(x, d), fneg(d));
    assert(s.n == (x.n * d.d + d.n * x.d) * d.d + (-d.n) * (x.d * d.d));
    assert(s.d == (x.d * d.d) * d.d);
    assert(((x.n * d.d + d.n * x.d) * d.d + (-d.n) * (x.d * d.d)) * x.d == x.n * ((x.d * d.d)
        * d.d)) by (nonlinear_arith);
}

/// A strict step followed by a weak step stays strict.
pub proof fn lemma_flt_fle_trans(a: Frac, b: Frac, c: Frac)
    requires
        a.d > 0,
        b.d > 0,
        c.d > 0,
        flt(a, b),
        fle(b, c),
    ensures
        flt(a, c),
{
    assert(a.n * c.d < c.n * a.d) by (nonlinear_arith)
        requires
            a.d > 0,
            b.d > 0,
            c.d > 0,
            a.n * b.d < b.n * a.d,
            b.n * c.d <= c.n * b.d,
    ;
}

/// Value equality of fractions with positive denominators preserves the sign
/// of the numerator.
pub proof fn lemma_feq_sign(a: Frac, b: Frac)
    requires
        a.d > 0,
        b.d > 0,
        feq(a, b),
    ensures
        a.n >= 0 <==> b.n >= 0,
        a.n > 0 <==> b.n > 0,
        a.n == 0 <==> b.n == 0,
{
    assert((a.n >= 0 <==> b.n >= 0) && (a.n > 0 <==> b.n > 0) && (a.n == 0 <==> b.n == 0))
        by (nonlinear_arith)
        requires
            a.d > 0,
            b.d > 0,
            a.n * b.d == b.n * a.d,
    ;
}

} // verus!
