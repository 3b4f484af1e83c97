//! Arithmetic on sizes and alignments.

use vstd::prelude::*;
use vstd::arithmetic::power2::*;

verus! {

/// The least multiple of `m` that is not below `n`.
pub open spec fn round_up(n: int, m: int) -> int {
    (n + m - 1) / m * m
}

/// `p` is the least power of two that is not below `n`.
pub open spec fn is_next_pow2(p: int, n: int) -> bool {
    &&& is_pow2(p)
    &&& n <= p
    &&& forall|q: int| is_pow2(q) && n <= q ==> p <= #[trigger] same(q)
}

/// The identity; marks the candidates that `is_next_pow2` ranges over.
pub open spec fn same(q: int) -> int {
    q
}

/// `round_up` gives a multiple of `m`, at least `n`, and less than `m` above it.
pub proof fn lemma_round_up(n: int, m: int)
    requires
        0 <= n,
        0 < m,
    ensures
        n <= round_up(n, m) < n + m,
        round_up(n, m) % m == 0,
        round_up(n, m) == (if n % m == 0 { n } else { n + m - n % m }),
{
    vstd::arithmetic::div_mod::lemma_fundamental_div_mod(n, m);
    let q = n / m;
    let r = n % m;
    assert(m * q == q * m) by (nonlinear_arith);
    if r == 0 {
        assert((q * m + (m - 1)) / m == q) by (nonlinear_arith)
            requires
                0 < m,
        ;
    } else {
        assert((q * m + r + m - 1) / m == q + 1) by (nonlinear_arith)
            requires
                0 < r < m,
        ;
        assert((q + 1) * m == q * m + m) by (nonlinear_arith);
    }
    vstd::arithmetic::div_mod::lemma_mod_multiples_basic((n + m - 1) / m, m);
}

/// Of two different powers of two the larger is at least twice the smaller.
pub proof fn lemma_pow2_gap(p: int, q: int)
    requires
        is_pow2(p),
        is_pow2(q),
        p < q,
    ensures
        2 * p <= q,
    decreases q,
{
    reveal(is_pow2);
    if p > 1 {
        lemma_pow2_gap(p / 2, q / 2);
    }
}

/// Twice a power of two is a power of two.
pub proof fn lemma_pow2_double(p: int)
    requires
        is_pow2(p),
    ensures
        is_pow2(2 * p),
{
    reveal(is_pow2);
    assert((2 * p) / 2 == p);
}

/// Of two powers of two the smaller divides the larger.
pub proof fn lemma_pow2_divides(p: int, q: int)
    requires
        is_pow2(p),
        is_pow2(q),
        p <= q,
    ensures
        q % p == 0,
    decreases q,
{
    reveal(is_pow2);
    if p == q {
        assert(q % p == 0) by (nonlinear_arith)
            requires
                p == q,
                0 < p,
        ;
    } else {
        lemma_pow2_gap(p, q);
        lemma_pow2_divides(p, q / 2);
        let k = (q / 2) / p;
        vstd::arithmetic::div_mod::lemma_fundamental_div_mod(q / 2, p);
        assert(q == p * (2 * k)) by (nonlinear_arith)
            requires
                q / 2 == p * k,
                q == 2 * (q / 2),
        ;
        vstd::arithmetic::div_mod::lemma_mod_multiples_basic(2 * k, p);
        assert(p * (2 * k) == (2 * k) * p) by (nonlinear_arith);
    }
}

/// Whether `n` is a power of two.
pub fn is_power_of_two(n: usize) -> (b: bool)
    ensures
        b == is_pow2(n as int),
{
    proof {
        reveal(is_pow2);
    }
    if n == 0 {
        return false;
    }
    let mut m: usize = n;
    while m % 2 == 0
        invariant
            0 < m,
            is_pow2(n as int) == is_pow2(m as int),
        decreases m,
    {
        proof {
            reveal(is_pow2);
        }
        m = m / 2;
    }
    m == 1
}

/// The least power of two that is not below `n`.
pub fn next_power_of_two(n: usize) -> (p: usize)
    requires
        n <= usize::MAX / 2 + 1,
    ensures
        is_next_pow2(p as int, n as int),
{
    let mut p: usize = 1;
    assert(is_pow2(1)) by {
        reveal(is_pow2);
    }
    assert forall|q: int| is_pow2(q) implies 1 <= #[trigger] same(q) by {
        reveal(is_pow2);
    }
    while p < n
        invariant
            n <= usize::MAX / 2 + 1,
            0 < p,
            is_pow2(p as int),
            forall|q: int| is_pow2(q) && n <= q ==> p <= #[trigger] same(q),
        decreases usize::MAX - p,
    {
        proof {
            lemma_pow2_double(p as int);
            assert forall|q: int| is_pow2(q) && n <= q implies 2 * p <= #[trigger] same(q) by {
                lemma_pow2_gap(p as int, q);
            }
        }
        p = 2 * p;
    }
    p
}

/// `next_power_of_two` finds a power of two, at least `n`, and no smaller one will do.
pub proof fn law_next_power_of_two_is_least(n: usize, p: usize, q: int)
    requires
        call_ensures(next_power_of_two, (n,), p),
        is_pow2(q),
        n <= q,
    ensures
        is_pow2(p as int),
        n <= p <= q,
{
    assert(same(q) == q);
}

/// `is_power_of_two` knows the powers of two from the other numbers: one is a power of two,
/// and of other numbers those that are twice a power of two.
pub proof fn law_powers_of_two_are_doubled(n: usize, half: usize, r: bool, r_half: bool)
    requires
        call_ensures(is_power_of_two, (n,), r),
        call_ensures(is_power_of_two, (half,), r_half),
    ensures
        n == 0 ==> !r,
        n == 1 ==> r,
        n == 2 * half && 0 < half ==> r == r_half,
        n == 2 * half + 1 && 0 < half ==> !r,
{
    reveal(is_pow2);
}

} // verus!
