//! Integer helpers shared by the analysis and matching stages: floor
//! division on signed values, sums over sequences and integer square roots.
use vstd::prelude::*;

verus! {

/// Sum of a sequence of integers, accumulated from the front.
pub open spec fn sum(s: Seq<int>) -> int
    decreases s.len(),
{
    if s.len() == 0 {
        0
    } else {
        sum(s.drop_last()) + s.last()
    }
}

/// Every entry of `s` lies in `[-b, b]`.
pub open spec fn bounded(s: Seq<int>, b: int) -> bool {
    forall|i: int| 0 <= i < s.len() ==> -b <= #[trigger] s[i] <= b
}

/// `r` is the square root of `n` rounded down.
pub open spec fn is_sqrt_floor(n: int, r: int) -> bool {
    0 <= r && r * r <= n && n < (r + 1) * (r + 1)
}

/// The floor of the square root of `n`, for `n >= 0`.
pub open spec fn sqrt_floor(n: int) -> int {
    choose|r: int| #[trigger] is_sqrt_floor(n, r)
}

pub proof fn lemma_sum_bounded(s: Seq<int>, b: int)
    requires
        bounded(s, b),
    ensures
        -(s.len() * b) <= sum(s) <= s.len() * b,
    decreases s.len(),
{
    if s.len() > 0 {
        let t = s.drop_last();
        assert(bounded(t, b)) by {
            assert forall|i: int| 0 <= i < t.len() implies -b <= #[trigger] t[i] <= b by {
                assert(t[i] == s[i]);
            }
        }
        lemma_sum_bounded(t, b);
        assert(-b <= s[s.len() - 1] <= b);
        assert((t.len() + 1) * b == t.len() * b + b) by (nonlinear_arith);
    }
}

pub proof fn lemma_sum_take_step(s: Seq<int>, i: int)
    requires
        0 <= i < s.len(),
    ensures
        sum(s.take(i + 1)) == sum(s.take(i)) + s[i],
{
    assert(s.take(i + 1).drop_last() =~= s.take(i));
}

/// Floor division of `a` by `b` within the bound `a`, `b` fit.
pub proof fn lemma_floor_div_bound(a: int, b: int, n: int)
    requires
        n > 0,
        b >= 0,
        -(n * b) <= a <= n * b,
    ensures
        -b <= a / n <= b,
{
    vstd::arithmetic::div_mod::lemma_fundamental_div_mod(a, n);
    assert(a / n <= b) by (nonlinear_arith)
        requires n > 0, a <= n * b, a == n * (a / n) + a % n, 0 <= a % n < n;
    assert(-b <= a / n) by (nonlinear_arith)
        requires n > 0, -(n * b) <= a, a == n * (a / n) + a % n, 0 <= a % n < n;
}

pub proof fn lemma_mean_bounded(s: Seq<int>, b: int)
    requires
        bounded(s, b),
        s.len() > 0,
        b >= 0,
    ensures
        -b <= sum(s) / (s.len() as int) <= b,
{
    lemma_sum_bounded(s, b);
    lemma_floor_div_bound(sum(s), b, s.len() as int);
}

/// A sequence of machine integers read as mathematical integers.
pub open spec fn ints(v: Seq<i64>) -> Seq<int> {
    Seq::new(v.len(), |i: int| v[i] as int)
}

/// A sequence of unsigned machine integers read as mathematical integers.
pub open spec fn nats(v: Seq<u64>) -> Seq<int> {
    Seq::new(v.len(), |i: int| v[i] as int)
}

/// Bound on the terms that `sum_values` adds.
pub const MAX_TERM: i64 = 6_000_000;

pub proof fn lemma_push_bounded(v: Seq<i64>, x: i64, b: int)
    requires
        bounded(ints(v), b),
        -b <= x <= b,
    ensures
        bounded(ints(v.push(x)), b),
{
    let w = ints(v.push(x));
    assert forall|j: int| 0 <= j < w.len() implies -b <= #[trigger] w[j] <= b by {
        if j < v.len() {
            assert(w[j] == ints(v)[j]);
        }
    }
}

pub proof fn lemma_bounded_weaken(s: Seq<int>, b: int, c: int)
    requires
        bounded(s, b),
        b <= c,
    ensures
        bounded(s, c),
{
}

/// Sum of at most a million values, each within `MAX_TERM`.
pub fn sum_values(v: &Vec<i64>) -> (r: i64)
    requires
        v@.len() <= 1_000_000,
        bounded(ints(v@), MAX_TERM as int),
    ensures
        r == sum(ints(v@)),
{
    let ghost s = ints(v@);
    let mut acc: i64 = 0;
    let mut i: usize = 0;
    while i < v.len()
        invariant
            s == ints(v@),
            v@.len() <= 1_000_000,
            bounded(s, MAX_TERM as int),
            i <= v@.len(),
            acc == sum(s.take(i as int)),
        decreases v@.len() - i,
    {
        proof {
            lemma_sum_take_step(s, i as int);
            let t = s.take(i as int + 1);
            assert(bounded(t, MAX_TERM as int)) by {
                assert forall|j: int| 0 <= j < t.len() implies
                    -MAX_TERM <= #[trigger] t[j] <= MAX_TERM by {
                    assert(t[j] == s[j]);
                }
            }
            lemma_sum_bounded(t, MAX_TERM as int);
            assert(t.len() * MAX_TERM <= 1_000_000 * 6_000_000) by (nonlinear_arith)
                requires t.len() <= 1_000_000;
        }
        acc = acc + v[i];
        i = i + 1;
    }
    assert(s.take(i as int) =~= s);
    acc
}

/// Division rounded towards zero, as machine division does.
pub open spec fn div_trunc(a: int, b: int) -> int {
    if a >= 0 {
        a / b
    } else {
        -((-a) / b)
    }
}

pub proof fn lemma_trunc_div_bound(a: int, b: int, n: int)
    requires
        n > 0,
        b >= 0,
        -(n * b) <= a <= n * b,
    ensures
        -b <= div_trunc(a, n) <= b,
{
    if a >= 0 {
        lemma_floor_div_bound(a, b, n);
    } else {
        lemma_floor_div_bound(-a, b, n);
    }
}

/// `div_trunc` of a negated value is the negated quotient.
pub proof fn lemma_trunc_div_neg(a: int, b: int)
    requires
        b > 0,
    ensures
        div_trunc(-a, b) == -div_trunc(a, b),
{
}

/// Division rounded towards zero on any sign of `a`.
pub fn div_trunc_exec(a: i64, b: i64) -> (r: i64)
    requires
        b > 0,
        a > i64::MIN,
    ensures
        r == div_trunc(a as int, b as int),
{
    if a >= 0 {
        a / b
    } else {
        let q = (-a) / b;
        -q
    }
}

/// Division rounded towards negative infinity, on any sign of `a`.
pub fn div_floor(a: i64, b: i64) -> (r: i64)
    requires
        b > 0,
    ensures
        r == a as int / b as int,
{
    if a >= 0 {
        let q = a / b;
        assert(q == a as int / b as int);
        q
    } else {
        let m: i64 = -(a + 1);
        let q = m / b;
        proof {
            let ai = a as int;
            let bi = b as int;
            let mi = m as int;
            let qi = q as int;
            assert(mi == bi * qi + mi % bi && 0 <= mi % bi < bi) by {
                vstd::arithmetic::div_mod::lemma_fundamental_div_mod(mi, bi);
            }
            assert(ai == bi * (-qi - 1) + (bi - 1 - mi % bi)) by (nonlinear_arith)
                requires ai == -(mi + 1), mi == bi * qi + mi % bi;
            vstd::arithmetic::div_mod::lemma_fundamental_div_mod_converse(ai, bi, -qi - 1, bi - 1 - mi % bi);
        }
        -q - 1
    }
}

proof fn lemma_sqrt_unique(n: int, r: int, s: int)
    requires
        0 <= r && r * r <= n && n < (r + 1) * (r + 1),
        0 <= s && s * s <= n && n < (s + 1) * (s + 1),
    ensures
        r == s,
{
    if r < s {
        assert((r + 1) * (r + 1) <= s * s) by (nonlinear_arith)
            requires 0 <= r, r + 1 <= s;
    } else if s < r {
        assert((s + 1) * (s + 1) <= r * r) by (nonlinear_arith)
            requires 0 <= s, s + 1 <= r;
    }
}

/// Integer square root, rounded down.
pub fn isqrt(n: u64) -> (r: u64)
    requires
        n <= 10_000_000_000_000,
    ensures
        r == sqrt_floor(n as int),
        r as int * r as int <= n,
        n < (r as int + 1) * (r as int + 1),
{
    let mut r: u64 = 0;
    loop
        invariant
            r * r <= n,
            r <= 3_200_000,
            n <= 10_000_000_000_000,
        ensures
            r * r <= n,
            n < (r + 1) * (r + 1),
        decreases n - r * r,
    {
        proof {
            assert((r + 1) * (r + 1) <= 10_240_006_400_001) by (nonlinear_arith)
                requires r <= 3_200_000;
        }
        let next: u64 = (r + 1) * (r + 1);
        if next > n {
            break;
        }
        proof {
            assert(next > r * r) by (nonlinear_arith)
                requires next == (r + 1) * (r + 1), r >= 0;
            assert(r + 1 <= 3_200_000) by (nonlinear_arith)
                requires next == (r + 1) * (r + 1), next <= n, n <= 10_000_000_000_000, r >= 0;
        }
        r = r + 1;
    }
    proof {
        let ni = n as int;
        let ri = r as int;
        assert(is_sqrt_floor(ni, ri));
        let c = sqrt_floor(ni);
        assert(is_sqrt_floor(ni, c));
        lemma_sqrt_unique(ni, ri, c);
    }
    r
}

} // verus!
