//! Exact integer helpers: floor division and its characterisation.
use vstd::prelude::*;
use vstd::arithmetic::div_mod::{lemma_fundamental_div_mod, lemma_fundamental_div_mod_converse};

verus! {

/// Bound on the magnitude of operands handed to `floor_div`.
pub const DIV_LIMIT: i128 = 0x100_0000_0000_0000_0000_0000_0000_0000;

/// `n / d` and `n % d` place `n` between two consecutive multiples of `d`.
pub proof fn lemma_floor_bounds(n: int, d: int)
    requires
        d > 0,
    ensures
        (n / d) * d <= n < (n / d + 1) * d,
{
    lemma_fundamental_div_mod(n, d);
    assert(0 <= n % d < d);
    assert((n / d) * d == d * (n / d)) by (nonlinear_arith);
    assert((n / d + 1) * d == d * (n / d) + d) by (nonlinear_arith);
}

/// The floor of `n / d` is at most `c` exactly when `n < (c + 1) * d`.
pub proof fn lemma_floor_le(n: int, d: int, c: int)
    requires
        d > 0,
    ensures
        (n / d <= c) <==> (n < (c + 1) * d),
        (c <= n / d) <==> (c * d <= n),
{
    lemma_floor_bounds(n, d);
    let q = n / d;
    if q <= c {
        assert((q + 1) * d <= (c + 1) * d) by (nonlinear_arith)
            requires q <= c, d > 0;
    } else {
        assert((c + 1) * d <= q * d) by (nonlinear_arith)
            requires c + 1 <= q, d > 0;
    }
    if c <= q {
        assert(c * d <= q * d) by (nonlinear_arith)
            requires c <= q, d > 0;
    } else {
        assert((q + 1) * d <= c * d) by (nonlinear_arith)
            requires q + 1 <= c, d > 0;
    }
}

/// Floor division by a positive divisor.
pub fn floor_div(n: i128, d: i128) -> (r: i128)
    requires
        0 < d < DIV_LIMIT,
        -DIV_LIMIT < n < DIV_LIMIT,
    ensures
        r == n / d,
        n >= 0 ==> 0 <= r <= n,
        n < 0 ==> n <= r < 0,
{
    if n >= 0 {
        let q = (n as u128) / (d as u128);
        proof {
            lemma_fundamental_div_mod(n as int, d as int);
            let qq = (n as u128 as int) / (d as u128 as int);
            assert(qq == n / d);
            vstd::arithmetic::div_mod::lemma_div_is_ordered_by_denominator(n as int, 1, d as int);
            vstd::arithmetic::div_mod::lemma_div_pos_is_pos(n as int, d as int);
        }
        q as i128
    } else {
        let m = (0 - n) as u128;
        let du = d as u128;
        let q = (m + du - 1) / du;
        proof {
            let mi = m as int;
            let di = d as int;
            let qi = (mi + di - 1) / di;
            let s = (mi + di - 1) % di;
            lemma_fundamental_div_mod(mi + di - 1, di);
            assert(0 <= s < di);
            assert(mi + di - 1 == di * qi + s);
            assert(n == (-qi) * di + (di - 1 - s)) by (nonlinear_arith)
                requires n == -mi, mi + di - 1 == di * qi + s;
            lemma_fundamental_div_mod_converse(n as int, di, -qi, di - 1 - s);
            assert(0 <= qi) by {
                vstd::arithmetic::div_mod::lemma_div_pos_is_pos(mi + di - 1, di);
            }
            lemma_floor_le(mi + di - 1, di, mi);
            lemma_floor_le(mi + di - 1, di, 1);
            assert((mi + 1) * di == mi * di + di) by (nonlinear_arith);
            assert(mi * di >= mi) by (nonlinear_arith) requires mi >= 1, di >= 1;
            assert(1 * di == di);
        }
        0 - (q as i128)
    }
}

} // verus!
