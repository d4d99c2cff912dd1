//! Alignment arithmetic: rounding an address up to an alignment
//! boundary, and the divisibility facts the allocator's contracts rest
//! on.

use vstd::arithmetic::div_mod::{
    lemma_fundamental_div_mod, lemma_fundamental_div_mod_converse,
    lemma_mod_division_less_than_divisor, lemma_mod_multiples_basic,
};
use vstd::prelude::*;

verus! {

/// The least multiple of `m` that is at least `x`.
pub open spec fn round_up(x: int, m: int) -> int
    recommends
        1 <= m,
{
    ((x + m - 1) / m) * m
}

/// Whether `n` is a power of two. Request alignments are powers of two,
/// which is what lets one alignment be raised to another: the larger of
/// two powers of two is a multiple of the smaller.
pub open spec fn is_power_of_two(n: int) -> bool
    decreases n,
{
    if n < 1 {
        false
    } else if n == 1 {
        true
    } else {
        n % 2 == 0 && is_power_of_two(n / 2)
    }
}

/// What `round_up` yields: the next multiple of `m` at or above `x`,
/// reached by adding the distance to the boundary when `x` is not on
/// one already.
pub proof fn lemma_round_up(x: int, m: int)
    requires
        0 <= x,
        1 <= m,
    ensures
        x <= round_up(x, m),
        round_up(x, m) < x + m,
        round_up(x, m) % m == 0,
        x % m == 0 ==> round_up(x, m) == x,
        x % m != 0 ==> round_up(x, m) == x + (m - x % m),
{
    let q: int = x / m;
    let r: int = x % m;
    lemma_fundamental_div_mod(x, m);
    lemma_mod_division_less_than_divisor(x, m);
    if r == 0 {
        assert(x + m - 1 == q * m + (m - 1)) by (nonlinear_arith)
            requires
                x == m * q,
        ;
        lemma_fundamental_div_mod_converse(x + m - 1, m, q, m - 1);
        assert(round_up(x, m) == q * m);
        assert(q * m == x) by (nonlinear_arith)
            requires
                x == m * q,
        ;
        lemma_mod_multiples_basic(q, m);
    } else {
        assert(x + m - 1 == (q + 1) * m + (r - 1)) by (nonlinear_arith)
            requires
                x == m * q + r,
        ;
        lemma_fundamental_div_mod_converse(x + m - 1, m, q + 1, r - 1);
        assert(round_up(x, m) == (q + 1) * m);
        assert((q + 1) * m == x + (m - r)) by (nonlinear_arith)
            requires
                x == m * q + r,
        ;
        lemma_mod_multiples_basic(q + 1, m);
    }
}

/// A power of two is positive.
pub proof fn lemma_pow2_pos(n: int)
    requires
        is_power_of_two(n),
    ensures
        1 <= n,
{
}

/// The larger of two powers of two is a multiple of the smaller.
pub proof fn lemma_pow2_divides(a: int, b: int)
    requires
        is_power_of_two(a),
        is_power_of_two(b),
        a <= b,
    ensures
        b % a == 0,
    decreases b,
{
    if a == b {
        lemma_mod_multiples_basic(1, a);
        assert(1 * a == a) by (nonlinear_arith);
    } else if a == 1 {
        lemma_mod_multiples_basic(b, 1);
        assert(b * 1 == b) by (nonlinear_arith);
    } else {
        // a < b and a >= 2, so both halves are powers of two
        lemma_pow2_divides(a / 2, b / 2);
        lemma_fundamental_div_mod(b / 2, a / 2);
        let q: int = (b / 2) / (a / 2);
        lemma_fundamental_div_mod(a, 2);
        lemma_fundamental_div_mod(b, 2);
        assert(b == q * a) by (nonlinear_arith)
            requires
                b / 2 == (a / 2) * q + 0,
                a == 2 * (a / 2) + 0,
                b == 2 * (b / 2) + 0,
        ;
        lemma_mod_multiples_basic(q, a);
    }
}

/// Divisibility is transitive: if `b` divides `x` and `a` divides `b`,
/// then `a` divides `x`.
pub proof fn lemma_divides_transitive(x: int, a: int, b: int)
    requires
        0 <= x,
        1 <= a,
        1 <= b,
        x % b == 0,
        b % a == 0,
    ensures
        x % a == 0,
{
    lemma_fundamental_div_mod(x, b);
    lemma_fundamental_div_mod(b, a);
    let qx: int = x / b;
    let qb: int = b / a;
    assert(x == (qb * qx) * a) by (nonlinear_arith)
        requires
            x == b * qx + 0,
            b == a * qb + 0,
    ;
    lemma_mod_multiples_basic(qb * qx, a);
}

/// A sum of two multiples of `m` is a multiple of `m`.
pub proof fn lemma_mod_sum_zero(x: int, y: int, m: int)
    requires
        1 <= m,
        x % m == 0,
        y % m == 0,
    ensures
        (x + y) % m == 0,
{
    lemma_fundamental_div_mod(x, m);
    lemma_fundamental_div_mod(y, m);
    let qx: int = x / m;
    let qy: int = y / m;
    assert(x + y == (qx + qy) * m) by (nonlinear_arith)
        requires
            x == m * qx + 0,
            y == m * qy + 0,
    ;
    lemma_mod_multiples_basic(qx + qy, m);
}

/// `addr` rounded up to the next multiple of `align`, or `None` when
/// that multiple does not fit in the address space.
pub fn align_up(addr: usize, align: usize) -> (r: Option<usize>)
    requires
        1 <= align,
    ensures
        match r {
            Some(v) => v == round_up(addr as int, align as int),
            None => round_up(addr as int, align as int) > usize::MAX,
        },
{
    proof {
        lemma_round_up(addr as int, align as int);
    }
    let rem: usize = addr % align;
    if rem == 0 {
        Some(addr)
    } else {
        addr.checked_add(align - rem)
    }
}

} // verus!
