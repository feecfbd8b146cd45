//! Bits of natural numbers, `bit(i, j) = (i / 2^j) % 2`, and the facts
//! about them that the cube's combinatorics rest on.

use vstd::prelude::*;
use vstd::arithmetic::power2::{pow2, lemma_pow2_unfold, lemma_pow2_pos, lemma_pow2_adds};
use vstd::arithmetic::div_mod::{
    lemma_div_denominator,
    lemma_fundamental_div_mod,
    lemma_fundamental_div_mod_converse,
    lemma_hoist_over_denominator,
    lemma_mod_multiples_vanish,
};

verus! {

/// Bit `j` of `i`.
pub open spec fn bit(i: nat, j: nat) -> nat {
    (i / pow2(j)) % 2
}

pub proof fn lemma_pow2_le(e: nat, f: nat)
    requires
        e <= f,
    ensures
        pow2(e) <= pow2(f),
{
    if e < f {
        vstd::arithmetic::power2::lemma_pow2_strictly_increases(e, f);
    }
}

/// Setting a clear bit `a` of `x` (adding `2^a`) changes bit `a` alone, and
/// leaves the quotient by any higher power of two unchanged.
pub proof fn lemma_set_clear_bit(x: nat, a: nat, j: nat)
    requires
        bit(x, a) == 0,
    ensures
        bit(x + pow2(a), j) == if j == a {
            1nat
        } else {
            bit(x, j)
        },
        j > a ==> (x + pow2(a)) / pow2(j) == x / pow2(j),
{
    lemma_pow2_pos(a);
    lemma_pow2_pos(j);
    let pa = pow2(a) as int;
    let q = x as int / pa;
    let r = x as int % pa;
    lemma_fundamental_div_mod(x as int, pa);
    if j <= a {
        let pj = pow2(j);
        let big = pow2((a - j) as nat);
        lemma_pow2_adds((a - j) as nat, j);
        assert((a - j) as nat + j == a);
        lemma_hoist_over_denominator(x as int, big as int, pj);
        assert(big * pj == pa);
        if j == a {
            assert(big == 1) by {
                vstd::arithmetic::power2::lemma2_to64();
            }
            assert((x + pow2(a)) / pow2(j) == q + 1);
            assert(q % 2 == 0);
            lemma_mod_multiples_vanish(q / 2, 1, 2);
            lemma_fundamental_div_mod(q, 2);
        } else {
            lemma_pow2_unfold((a - j) as nat);
            let half = pow2((a - j - 1) as nat);
            assert(big == 2 * half);
            lemma_mod_multiples_vanish(half as int, x as int / pj as int, 2);
        }
    } else {
        let pa1 = pow2(a + 1);
        lemma_pow2_unfold(a + 1);
        assert(pa1 == 2 * pa);
        lemma_fundamental_div_mod(q, 2);
        let z = q / 2;
        assert(q == 2 * z);
        assert(x == z * pa1 + r) by (nonlinear_arith)
            requires
                x == pa * q + r,
                q == 2 * z,
                pa1 == 2 * pa,
        ;
        lemma_fundamental_div_mod_converse(x as int, pa1 as int, z, r);
        lemma_fundamental_div_mod_converse(x + pa, pa1 as int, z, r + pa);
        let rest = pow2((j - a - 1) as nat);
        lemma_pow2_adds(a + 1, (j - a - 1) as nat);
        assert(a + 1 + (j - a - 1) as nat == j);
        lemma_pow2_pos((j - a - 1) as nat);
        lemma_div_denominator(x as int, pa1 as int, rest as int);
        lemma_div_denominator(x + pa, pa1 as int, rest as int);
    }
}

/// Bit `j` of `2^k + t`, for `t < 2^k`.
pub proof fn lemma_high_bit(k: nat, t: nat, j: nat)
    requires
        t < pow2(k),
    ensures
        bit(pow2(k) + t, j) == if j == k {
            1nat
        } else {
            bit(t, j)
        },
{
    lemma_pow2_pos(k);
    lemma_fundamental_div_mod_converse(t as int, pow2(k) as int, 0, t as int);
    assert(bit(t, k) == 0);
    lemma_set_clear_bit(t, k, j);
}

pub proof fn lemma_below_when_quotient_zero(x: nat, d: nat)
    requires
        d > 0,
        x / d == 0,
    ensures
        x < d,
{
    lemma_fundamental_div_mod(x as int, d as int);
    vstd::arithmetic::div_mod::lemma_mod_pos_bound(x as int, d as int);
}

/// Number of bit positions below `m` at which `i` and `j` differ.
pub open spec fn bit_diff(i: nat, j: nat, m: nat) -> nat
    decreases m,
{
    if m == 0 {
        0
    } else {
        bit_diff(i, j, (m - 1) as nat) + if bit(i, (m - 1) as nat) != bit(j, (m - 1) as nat) {
            1nat
        } else {
            0nat
        }
    }
}

/// Number of clear bits of `i` below `m`.
pub open spec fn zeros(i: nat, m: nat) -> nat
    decreases m,
{
    if m == 0 {
        0
    } else {
        zeros(i, (m - 1) as nat) + if bit(i, (m - 1) as nat) == 0 {
            1nat
        } else {
            0nat
        }
    }
}

/// Sum of `zeros(i, n)` over `i < m`.
pub open spec fn zeros_sum(n: nat, m: nat) -> nat
    decreases m,
{
    if m == 0 {
        0
    } else {
        zeros_sum(n, (m - 1) as nat) + zeros((m - 1) as nat, n)
    }
}

pub proof fn lemma_bit_is_binary(i: nat, j: nat)
    ensures
        bit(i, j) == 0 || bit(i, j) == 1,
{
    lemma_pow2_pos(j);
    vstd::arithmetic::div_mod::lemma_mod_pos_bound((i / pow2(j)) as int, 2);
}

/// Below `2^n` every bit from `n` on is clear.
pub proof fn lemma_bit_above(x: nat, n: nat, j: nat)
    requires
        x < pow2(n),
        n <= j,
    ensures
        bit(x, j) == 0,
{
    lemma_pow2_le(n, j);
    lemma_pow2_pos(j);
    lemma_fundamental_div_mod_converse(x as int, pow2(j) as int, 0, x as int);
}

/// `bit_diff` depends on the bits of its arguments alone.
pub proof fn lemma_bit_diff_congruent(i: nat, x: nat, y: nat, m: nat)
    requires
        forall|d: nat| d < m ==> #[trigger] bit(x, d) == bit(y, d),
    ensures
        bit_diff(i, x, m) == bit_diff(i, y, m),
        bit_diff(x, i, m) == bit_diff(y, i, m),
    decreases m,
{
    if m > 0 {
        lemma_bit_diff_congruent(i, x, y, (m - 1) as nat);
        assert(bit(x, (m - 1) as nat) == bit(y, (m - 1) as nat));
    }
}

pub proof fn lemma_zeros_congruent(x: nat, y: nat, m: nat)
    requires
        forall|d: nat| d < m ==> #[trigger] bit(x, d) == bit(y, d),
    ensures
        zeros(x, m) == zeros(y, m),
    decreases m,
{
    if m > 0 {
        lemma_zeros_congruent(x, y, (m - 1) as nat);
        assert(bit(x, (m - 1) as nat) == bit(y, (m - 1) as nat));
    }
}

pub proof fn lemma_bit_diff_le(i: nat, j: nat, m: nat, k: nat)
    requires
        m <= k,
    ensures
        bit_diff(i, j, m) <= bit_diff(i, j, k),
    decreases k,
{
    if m < k {
        lemma_bit_diff_le(i, j, m, (k - 1) as nat);
    }
}

/// Numbers below `2^n` with the same bits below `n` are equal.
pub proof fn lemma_same_bits_equal(x: nat, y: nat, n: nat)
    requires
        x < pow2(n),
        y < pow2(n),
        bit_diff(x, y, n) == 0,
    ensures
        x == y,
    decreases n,
{
    vstd::arithmetic::power2::lemma2_to64();
    if n == 0 {
    } else {
        let m = (n - 1) as nat;
        let pm = pow2(m);
        lemma_pow2_unfold(n);
        lemma_pow2_pos(m);
        lemma_bit_diff_le(x, y, m, n);
        assert(bit(x, m) == bit(y, m));
        lemma_fundamental_div_mod(x as int, pm as int);
        lemma_fundamental_div_mod(y as int, pm as int);
        vstd::arithmetic::div_mod::lemma_mod_pos_bound(x as int, pm as int);
        vstd::arithmetic::div_mod::lemma_mod_pos_bound(y as int, pm as int);
        let xl = x % pm;
        let yl = y % pm;
        let xq = x / pm;
        let yq = y / pm;
        assert(xq < 2) by {
            vstd::arithmetic::div_mod::lemma_div_pos_is_pos(x as int, pm as int);
            if xq >= 2 {
                assert(pm * xq >= pm * 2) by (nonlinear_arith)
                    requires
                        xq >= 2,
                        pm > 0,
                ;
            }
        }
        assert(yq < 2) by {
            if yq >= 2 {
                assert(pm * yq >= pm * 2) by (nonlinear_arith)
                    requires
                        yq >= 2,
                        pm > 0,
                ;
            }
        }
        assert(xq == yq);
        assert(x == pm * xq + xl);
        assert(y == pm * yq + yl);
        // the low parts share every bit below m
        assert(x == xl || x == pm + xl) by {
            if xq == 0 {
                assert(pm * xq == 0) by (nonlinear_arith)
                    requires
                        xq == 0,
                ;
            } else {
                assert(pm * xq == pm) by (nonlinear_arith)
                    requires
                        xq == 1,
                ;
            }
        }
        assert(y == yl || y == pm + yl) by {
            if yq == 0 {
                assert(pm * yq == 0) by (nonlinear_arith)
                    requires
                        yq == 0,
                ;
            } else {
                assert(pm * yq == pm) by (nonlinear_arith)
                    requires
                        yq == 1,
                ;
            }
        }
        assert forall|d: nat| d < m implies #[trigger] bit(xl, d) == bit(x, d) by {
            if x != xl {
                lemma_high_bit(m, xl, d);
            }
        }
        assert forall|d: nat| d < m implies #[trigger] bit(yl, d) == bit(y, d) by {
            if y != yl {
                lemma_high_bit(m, yl, d);
            }
        }
        assert(bit_diff(x, y, m) == 0);
        lemma_bit_diff_congruent(y, x, xl, m);
        assert(bit_diff(xl, y, m) == 0);
        lemma_bit_diff_congruent(xl, y, yl, m);
        assert(bit_diff(xl, yl, m) == 0);
        lemma_same_bits_equal(xl, yl, m);
    }
}

pub proof fn lemma_bit_diff_self(i: nat, m: nat)
    ensures
        bit_diff(i, i, m) == 0,
    decreases m,
{
    if m > 0 {
        lemma_bit_diff_self(i, (m - 1) as nat);
    }
}

pub proof fn lemma_zeros_sum_low(n: nat, m: nat)
    requires
        m <= pow2(n),
    ensures
        zeros_sum(n + 1, m) == zeros_sum(n, m) + m,
    decreases m,
{
    if m > 0 {
        lemma_zeros_sum_low(n, (m - 1) as nat);
        lemma_bit_above((m - 1) as nat, n, n);
    }
}

pub proof fn lemma_zeros_sum_high(n: nat, t: nat)
    requires
        t <= pow2(n),
    ensures
        zeros_sum(n + 1, pow2(n) + t) == zeros_sum(n + 1, pow2(n)) + zeros_sum(n, t),
    decreases t,
{
    if t > 0 {
        let u = (t - 1) as nat;
        lemma_zeros_sum_high(n, u);
        assert forall|d: nat| d < n implies #[trigger] bit(pow2(n) + u, d) == bit(u, d) by {
            lemma_high_bit(n, u, d);
        }
        lemma_zeros_congruent((pow2(n) + u) as nat, u, n);
        lemma_high_bit(n, u, n);
        assert((pow2(n) + t - 1) as nat == (pow2(n) + u) as nat);
    }
}

/// Over all `i < 2^n` there are `n * 2^(n-1)` clear bits: twice that is
/// `n * 2^n`.
pub proof fn lemma_zeros_total(n: nat)
    ensures
        2 * zeros_sum(n, pow2(n)) == n * pow2(n),
    decreases n,
{
    vstd::arithmetic::power2::lemma2_to64();
    if n == 0 {
        assert(zeros_sum(0, 0) == 0);
        assert(zeros(0, 0) == 0);
        assert(zeros_sum(0, 1) == 0);
    } else {
        let m = (n - 1) as nat;
        lemma_zeros_total(m);
        lemma_pow2_unfold(n);
        lemma_zeros_sum_high(m, pow2(m));
        lemma_zeros_sum_low(m, pow2(m));
        assert(pow2(n) == pow2(m) + pow2(m));
        assert(m + 1 == n);
        assert(zeros_sum(n, pow2(n)) == 2 * zeros_sum(m, pow2(m)) + pow2(m));
        assert(2 * (2 * zeros_sum(m, pow2(m)) + pow2(m)) == n * pow2(n)) by (nonlinear_arith)
            requires
                2 * zeros_sum(m, pow2(m)) == m * pow2(m),
                pow2(n) == 2 * pow2(m),
                n == m + 1,
        ;
    }
}

} // verus!
