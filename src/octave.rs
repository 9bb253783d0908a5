//! Distances between frequencies in octaves: the base-2 logarithm of their
//! ratio, to a 4096th of an octave.
use vstd::prelude::*;
use vstd::arithmetic::power::{lemma_pow_adds, lemma_pow_distributes, lemma_pow_multiplies, lemma_pow_positive, pow};
use vstd::arithmetic::power2::{lemma2_to64, lemma_pow2_adds, lemma_pow2_strictly_increases, pow2};
use crate::profile::MAX_FREQUENCY;

verus! {

/// Octave distances are counted in 4096ths of an octave.
pub const STEPS_PER_OCTAVE: u64 = 4096;

/// `s` measures the distance from `f0` up to `f1`, in 4096ths of an
/// octave, to within two of them: `s <= 4096 log2(f1 / f0) < s + 2`.
pub open spec fn octave_span_within(f0: int, f1: int, s: int) -> bool {
    &&& 0 <= s
    &&& pow(2, s as nat) * pow(f0, 4096) <= pow(f1, 4096)
    &&& pow(f1, 4096) < pow(2, (s + 2) as nat) * pow(f0, 4096)
}

/// One in the fixed point of the fractional search.
const ONE: u128 = 0x1000_0000_0000_0000;

proof fn lemma_square_lower(m: int, a: int, q: int, s: int, p: int, m2: int)
    requires
        0 <= m,
        0 <= a,
        0 <= q,
        0 <= m2,
        s > 0,
        m * a * q <= s * p,
        m2 * s <= m * m,
    ensures
        m2 * (a * a) * (q * q) <= s * (p * p),
{
    let x = m * a * q;
    let y = s * p;
    assert(0 <= x) by (nonlinear_arith) requires 0 <= m, 0 <= a, 0 <= q, x == m * a * q;
    assert(x * x <= y * y) by (nonlinear_arith) requires 0 <= x <= y;
    assert(x * x == (m * m) * ((a * a) * (q * q))) by (nonlinear_arith) requires x == m * a * q;
    assert((m2 * s) * ((a * a) * (q * q)) <= (m * m) * ((a * a) * (q * q))) by (nonlinear_arith)
        requires m2 * s <= m * m, 0 <= (a * a) * (q * q);
    assert(s * (m2 * (a * a) * (q * q)) <= s * (s * (p * p))) by (nonlinear_arith)
        requires (m2 * s) * ((a * a) * (q * q)) <= y * y, y == s * p;
    assert(m2 * (a * a) * (q * q) <= s * (p * p)) by (nonlinear_arith)
        requires s * (m2 * (a * a) * (q * q)) <= s * (s * (p * p)), s > 0;
}

proof fn lemma_square_upper(u: int, a: int, q: int, s: int, p: int, u2: int)
    requires
        0 <= p,
        0 <= a,
        0 <= q,
        s > 0,
        s * p <= u * a * q,
        u * u <= u2 * s,
    ensures
        s * (p * p) <= u2 * (a * a) * (q * q),
{
    let x = s * p;
    let y = u * a * q;
    assert(0 <= x) by (nonlinear_arith) requires 0 <= p, s > 0, x == s * p;
    assert(x * x <= y * y) by (nonlinear_arith) requires 0 <= x <= y;
    assert(y * y == (u * u) * ((a * a) * (q * q))) by (nonlinear_arith) requires y == u * a * q;
    assert((u * u) * ((a * a) * (q * q)) <= (u2 * s) * ((a * a) * (q * q))) by (nonlinear_arith)
        requires u * u <= u2 * s, 0 <= (a * a) * (q * q);
    assert(s * (s * (p * p)) <= s * (u2 * (a * a) * (q * q))) by (nonlinear_arith)
        requires x * x <= (u2 * s) * ((a * a) * (q * q)), x == s * p;
    assert(s * (p * p) <= u2 * (a * a) * (q * q)) by (nonlinear_arith)
        requires s * (s * (p * p)) <= s * (u2 * (a * a) * (q * q)), s > 0;
}

proof fn lemma_div_facts(a: int, b: int)
    requires
        b > 0,
        a >= 0,
    ensures
        (a / b) * b <= a,
        a < (a / b + 1) * b,
        a / b >= 0,
{
    vstd::arithmetic::div_mod::lemma_fundamental_div_mod(a, b);
    vstd::arithmetic::div_mod::lemma_div_pos_is_pos(a, b);
    assert(a / b * b == b * (a / b)) by (nonlinear_arith);
    assert((a / b + 1) * b == b * (a / b) + b) by (nonlinear_arith);
}

/// `4096 log2(f1 / f0)` to within two, for `f0 <= f1`.
pub fn octave_span_of(f0: u64, f1: u64) -> (r: u64)
    requires
        0 < f0 <= f1 <= MAX_FREQUENCY,
    ensures
        octave_span_within(f0 as int, f1 as int, r as int),
        r <= 40 * STEPS_PER_OCTAVE,
{
    // Whole octaves.
    let mut base: u64 = f0;
    let mut k: u64 = 0;
    proof {
        vstd::arithmetic::power::lemma_pow0(2);
    }
    while base <= f1 / 2
        invariant
            0 < f0 <= base <= f1 <= MAX_FREQUENCY,
            k <= 30,
            base == f0 * pow(2, k as nat),
            pow(2, k as nat) <= base,
        decreases f1 - base,
    {
        proof {
            lemma_pow_adds(2, k as nat, 1);
            vstd::arithmetic::power::lemma_pow1(2);
            assert(pow(2, (k + 1) as nat) == pow(2, k as nat) * 2);
            if k == 30 {
                lemma2_to64();
                assert(pow2(30) == 0x40000000);
                lemma_pow_positive(2, 30);
                assert(pow(2, 30) == 0x40000000);
                assert(false);
            }
        }
        base = base * 2;
        k = k + 1;
        proof {
            assert(base == f0 * pow(2, k as nat)) by (nonlinear_arith)
                requires base == 2 * (f0 * pow(2, (k - 1) as nat)), pow(2, k as nat) == pow(2, (k - 1) as nat) * 2;
        }
    }
    // Fractional bits of log2(f1 / base), which lies in [0, 1).
    let p = f1 as u128;
    let q = base as u128;
    let mut m: u128 = p * ONE / q;
    let mut u: u128 = (p * ONE + q - 1) / q;
    let mut c: u128 = 1;
    let mut y: u64 = 0;
    let mut i: u64 = 0;
    let ghost mut e: nat = 1;
    let ghost mut pp: int = p as int;
    let ghost mut qq: int = q as int;
    proof {
        lemma2_to64();
        let pi = p as int;
        let qi = q as int;
        let one = ONE as int;
        lemma_div_facts(pi * one, qi);
        lemma_div_facts(pi * one + qi - 1, qi);
        let mi = m as int;
        let ui = u as int;
        assert(mi == pi * one / qi);
        assert(ui == (pi * one + qi - 1) / qi);
        assert(one <= mi) by (nonlinear_arith)
            requires pi * one < (mi + 1) * qi, qi <= pi, one > 0, qi > 0;
        assert(mi < 2 * one) by (nonlinear_arith)
            requires mi * qi <= pi * one, pi < 2 * qi, one > 0, qi > 0;
        assert(pi * one <= ui * qi) by (nonlinear_arith)
            requires pi * one + qi - 1 < (ui + 1) * qi;
        assert(ui <= mi + 1) by (nonlinear_arith)
            requires ui * qi <= pi * one + qi - 1, pi * one < (mi + 1) * qi, qi > 0;
        assert(mi * 1 * qi <= one * pi) by (nonlinear_arith) requires mi * qi <= pi * one;
        assert(one * pi <= ui * 1 * qi) by (nonlinear_arith) requires pi * one <= ui * qi;
        vstd::arithmetic::power::lemma_pow1(pi);
        vstd::arithmetic::power::lemma_pow1(qi);
        vstd::arithmetic::power::lemma_pow0(2);
    }
    while i < 12
        invariant
            0 < q <= p < 2 * q,
            p <= MAX_FREQUENCY,
            i <= 12,
            ONE <= m < 2 * ONE,
            u <= m + c,
            c + 1 <= pow2((2 * i + 2) as nat),
            (y as int) < pow2(i as nat),
            e == pow2(i as nat),
            pp == pow(p as int, e),
            qq == pow(q as int, e),
            0 < qq,
            m * pow(2, y as nat) * qq <= ONE * pp,
            ONE * pp <= u * pow(2, y as nat) * qq,
        decreases 12 - i,
    {
        proof {
            lemma2_to64();
            lemma_pow2_strictly_increases((2 * i + 2) as nat, 26);
            lemma_pow2_adds((2 * i + 2) as nat, 2);
            lemma_pow2_adds(i as nat, 1);
            lemma_pow_adds(p as int, e, e);
            lemma_pow_adds(q as int, e, e);
            lemma_pow_adds(2, y as nat, y as nat);
            lemma_pow_adds(2, (2 * y) as nat, 1);
            vstd::arithmetic::power::lemma_pow1(2);
            lemma_pow_positive(2, y as nat);
            lemma_pow_positive(q as int, e);
            lemma_pow_positive(p as int, e);
            assert(m * m < 4 * ONE * ONE) by (nonlinear_arith) requires m < 2 * ONE;
            assert(u * u <= (m + c) * (m + c)) by (nonlinear_arith) requires u <= m + c;
            assert((m + c) * (m + c) < 9 * ONE * ONE) by (nonlinear_arith)
                requires m < 2 * ONE, c < ONE;
        }
        let m2: u128 = m * m / ONE;
        let u2: u128 = (u * u + ONE - 1) / ONE;
        let ghost a = pow(2, y as nat);
        proof {
            lemma_div_facts(m * m, ONE as int);
            lemma_div_facts(u * u + ONE - 1, ONE as int);
            assert(m2 == (m * m) as int / ONE as int);
            assert(u2 == (u * u + ONE - 1) as int / ONE as int);
            lemma_square_lower(m as int, a, qq, ONE as int, pp, m2 as int);
            lemma_square_upper(u as int, a, qq, ONE as int, pp, u2 as int);
            assert(ONE * ONE <= m * m) by (nonlinear_arith) requires ONE <= m;
            assert(ONE <= m2) by (nonlinear_arith)
                requires ONE * ONE <= m * m, m * m < (m2 + 1) * ONE, ONE > 0;
            assert(m2 < 4 * ONE) by (nonlinear_arith)
                requires m2 * ONE <= m * m, m * m < 4 * ONE * ONE, ONE > 0;
            // The upper bound stays within 4c + 3 of the lower one.
            assert(u2 * ONE <= u * u + ONE) by (nonlinear_arith)
                requires u2 * ONE <= u * u + ONE - 1;
            assert(u * u - m * m <= 4 * ONE * c + c * c) by (nonlinear_arith)
                requires u <= m + c, m < 2 * ONE, 0 <= c, 0 <= u;
            assert(c * c <= ONE) by (nonlinear_arith) requires c < 67_108_864;
            assert(u2 <= m2 + 4 * c + 3) by (nonlinear_arith)
                requires
                    u2 * ONE <= u * u + ONE,
                    m * m < (m2 + 1) * ONE,
                    u * u - m * m <= 4 * ONE * c + c * c,
                    c * c <= ONE,
                    ONE > 0;
        }
        if m2 >= 2 * ONE {
            m = m2 / 2;
            u = (u2 + 1) / 2;
            y = 2 * y + 1;
            proof {
                assert(pow(2, y as nat) == a * a * 2);
                lemma_div_facts(m2 as int, 2);
                lemma_div_facts(u2 as int + 1, 2);
                assert(m * 2 <= m2);
                assert(u2 <= u * 2);
                assert(m * (a * a * 2) * (qq * qq) <= m2 * (a * a) * (qq * qq)) by (nonlinear_arith)
                    requires m * 2 <= m2, 0 <= (a * a) * (qq * qq);
                assert(u2 * (a * a) * (qq * qq) <= u * (a * a * 2) * (qq * qq)) by (nonlinear_arith)
                    requires u2 <= u * 2, 0 <= (a * a) * (qq * qq);
            }
        } else {
            m = m2;
            u = u2;
            y = 2 * y;
            proof {
                assert(pow(2, y as nat) == a * a);
            }
        }
        c = 4 * c + 3;
        i = i + 1;
        proof {
            e = 2 * e;
            pp = pp * pp;
            qq = qq * qq;
            lemma_pow_positive(2, y as nat);
            lemma_pow_positive(q as int, e);
            assert(m * pow(2, y as nat) * qq == m * (pow(2, y as nat) * qq)) by (nonlinear_arith);
            assert(u * pow(2, y as nat) * qq == u * (pow(2, y as nat) * qq)) by (nonlinear_arith);
            assert(0 < qq) by (nonlinear_arith) requires qq == pow(q as int, e) , pow(q as int, e) > 0;
        }
    }
    proof {
        lemma2_to64();
        assert(e == 4096);
        let a = pow(2, y as nat);
        lemma_pow_positive(2, y as nat);
        // Lower: ONE * a * qq <= m * a * qq <= ONE * pp.
        assert(a * qq <= pp) by (nonlinear_arith)
            requires ONE <= m, m * a * qq <= ONE * pp, a > 0, qq > 0;
        // Upper: ONE * pp <= u * a * qq < 4 * ONE * a * qq.
        assert(u < 4 * ONE);
        assert(pp < 4 * a * qq) by (nonlinear_arith)
            requires ONE * pp <= u * a * qq, u < 4 * ONE, a > 0, qq > 0;
        lemma_pow_adds(2, y as nat, 2);
        assert(pow(2, 2) == 4) by { vstd::arithmetic::power::lemma_square_is_pow2(2); }
        // base^4096 = f0^4096 * 2^(4096 k).
        lemma_pow_distributes(f0 as int, pow(2, k as nat), 4096);
        lemma_pow_multiplies(2, k as nat, 4096);
        lemma_pow_adds(2, y as nat, (k * 4096) as nat);
        lemma_pow_adds(2, (y + 2) as nat, (k * 4096) as nat);
        let f = pow(f0 as int, 4096);
        let t = pow(2, (k * 4096) as nat);
        assert(qq == f * t);
        assert(a * qq == pow(2, (y + k * 4096) as nat) * f) by (nonlinear_arith)
            requires qq == f * t, a * t == pow(2, (y + k * 4096) as nat);
        assert(4 * a * qq == pow(2, (y + 2 + k * 4096) as nat) * f) by (nonlinear_arith)
            requires qq == f * t, 4 * a == pow(2, (y + 2) as nat),
                pow(2, (y + 2) as nat) * t == pow(2, (y + 2 + k * 4096) as nat);
    }
    k * 4096 + y
}

} // verus!
