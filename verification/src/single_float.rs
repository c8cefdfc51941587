//! Baharev's key of a vertex, `((out as f32 / in as f32) * 1000.0) as i32`,
//! computed exactly with integers.
//!
//! Every `f32` that occurs in the key is a multiple of 2^-54, so it is held as
//! an integer: the value times 2^54 (`F32_SCALE`).  Each `f32` operation is
//! the exact result rounded to 24 significant bits, ties to even.
use vstd::prelude::*;

verus! {

/// The scale at which the values of the key are integers: 2^54.
pub const F32_SCALE: u128 = 0x40000000000000;

/// `a / b` rounded to the nearest integer, ties to the even one.
pub open spec fn round_half_even(a: nat, b: nat) -> nat {
    let q = a / b;
    let r = a % b;
    if 2 * r > b || (2 * r == b && q % 2 == 1) {
        q + 1
    } else {
        q
    }
}

/// The spacing of the numbers with 24 significant bits around `x`: 1 below
/// 2^24, doubling with each further binary digit of `x`.
pub open spec fn ulp_of(x: nat) -> nat
    decreases x,
{
    if x < 0x1000000 {
        1
    } else {
        2 * ulp_of(x / 2)
    }
}

/// `n / d` rounded to 24 significant bits, ties to even: the `f32` nearest
/// to `n / d` where `n / d` is at least 2^23 or an integer below 2^24 (the
/// rounding of an `f32` operation, at a scale where values are integers).
pub open spec fn f32_near(n: nat, d: nat) -> nat {
    let u = ulp_of(n / d);
    round_half_even(n, d * u) * u
}

/// Baharev's key for `outs` outgoing and `ins` incoming arcs:
/// `((outs as f32 / ins as f32) * 1000.0) as i32`, each step rounded as
/// `f32` arithmetic rounds it, the conversion to `i32` cutting off the
/// fraction and saturating at `i32::MAX`.
pub open spec fn baharev_key_spec(outs: nat, ins: nat) -> int {
    if outs == 0 {
        0
    } else {
        let fo = f32_near(outs, 1);
        let fi = f32_near(ins, 1);
        let q = f32_near(fo * (F32_SCALE as nat), fi);
        let r = f32_near((q * 1000) as nat, 1);
        if r / (F32_SCALE as nat) > i32::MAX {
            i32::MAX as int
        } else {
            (r / (F32_SCALE as nat)) as int
        }
    }
}

/// Facts of division that the rounding needs.
proof fn lemma_div_facts(n: nat, d: nat, u: nat)
    requires
        d >= 1,
        u >= 1,
    ensures
        n / (d * u) == (n / d) / u,
        d * (n / d) <= n,
        (n / (d * u)) * (d * u) <= n,
        n % (d * u) < d * u,
{
    vstd::arithmetic::div_mod::lemma_div_denominator(n as int, d as int, u as int);
    vstd::arithmetic::div_mod::lemma_fundamental_div_mod(n as int, d as int);
    vstd::arithmetic::div_mod::lemma_fundamental_div_mod(n as int, (d * u) as int);
    vstd::arithmetic::div_mod::lemma_mod_pos_bound(n as int, (d * u) as int);
    vstd::arithmetic::div_mod::lemma_mod_pos_bound(n as int, d as int);
    assert(0 <= d * u) by (nonlinear_arith)
        requires
            d >= 1,
            u >= 1,
    ;
}

/// Rounds `n / d` as `f32_near` does.
fn f32_round(n: u128, d: u128) -> (res: u128)
    requires
        d >= 1,
        n / d >= 1,
        n <= 0x10000000000000000000000000,
    ensures
        res == f32_near(n as nat, d as nat),
        1 <= res <= 2 * (n / d),
{
    let x = n / d;
    let mut y = x;
    let mut u: u128 = 1;
    proof {
        vstd::arithmetic::div_mod::lemma_fundamental_div_mod(n as int, d as int);
        vstd::arithmetic::div_mod::lemma_mod_pos_bound(n as int, d as int);
        assert(d * x <= n) by (nonlinear_arith)
            requires
                d * x + n % d == n,
                n % d >= 0,
        ;
    }
    while y >= 0x1000000
        invariant
            d >= 1,
            x == n / d,
            d * x <= n,
            x >= 1,
            u >= 1,
            y >= 1,
            y == x / u,
            u * y <= x,
            ulp_of(x as nat) == u * ulp_of(y as nat),
        decreases y,
    {
        let ghost y0 = y;
        let ghost u0 = u;
        proof {
            assert(u * 2 <= x) by (nonlinear_arith)
                requires
                    u * y <= x,
                    y >= 2,
                    u >= 1,
            ;
            vstd::arithmetic::div_mod::lemma_div_denominator(x as int, u as int, 2);
            assert(ulp_of(y as nat) == 2 * ulp_of((y / 2) as nat));
        }
        y = y / 2;
        u = u * 2;
        proof {
            assert(u * y <= u0 * y0) by (nonlinear_arith)
                requires
                    u == u0 * 2,
                    y == y0 / 2,
                    u0 >= 1,
            ;
            assert(ulp_of(x as nat) == u * ulp_of(y as nat)) by (nonlinear_arith)
                requires
                    ulp_of(x as nat) == u0 * ulp_of(y0 as nat),
                    ulp_of(y0 as nat) == 2 * ulp_of(y as nat),
                    u == u0 * 2,
            ;
            assert((x as int) / ((u0 * 2) as int) == y as int);
        }
    }
    proof {
        assert(ulp_of(y as nat) == 1);
        assert(ulp_of(x as nat) == u) by (nonlinear_arith)
            requires
                ulp_of(x as nat) == u * ulp_of(y as nat),
                ulp_of(y as nat) == 1,
        ;
        assert(d * u >= 1) by (nonlinear_arith)
            requires
                d >= 1,
                u >= 1,
        ;
        lemma_div_facts(n as nat, d as nat, u as nat);
        assert(d * u <= n) by (nonlinear_arith)
            requires
                d * x <= n,
                u * y <= x,
                y >= 1,
                u >= 1,
                d >= 1,
        ;
    }
    let du = d * u;
    let q = n / du;
    let r = n % du;
    proof {
        assert(q == y);
        assert(q * u <= x) by (nonlinear_arith)
            requires
                q == y,
                u * y <= x,
        ;
    }
    let k = if 2 * r > du || (2 * r == du && q % 2 == 1) {
        q + 1
    } else {
        q
    };
    proof {
        assert(k == round_half_even(n as nat, du as nat));
        assert(k * u <= x + u) by (nonlinear_arith)
            requires
                k <= q + 1,
                q * u <= x,
                u >= 1,
        ;
        assert(u <= x) by (nonlinear_arith)
            requires
                u * y <= x,
                y >= 1,
        ;
        assert(k * u >= u) by (nonlinear_arith)
            requires
                k >= 1,
                u >= 1,
        ;
    }
    k * u
}

/// Baharev's key for `outs` outgoing and `ins` incoming arcs, as
/// `baharev_key_spec` states it.
pub fn baharev_key(outs: usize, ins: usize) -> (res: i64)
    requires
        outs <= i32::MAX,
        1 <= ins <= i32::MAX,
    ensures
        res == baharev_key_spec(outs as nat, ins as nat),
{
    if outs == 0 {
        return 0;
    }
    let fo = f32_round(outs as u128, 1);
    let fi = f32_round(ins as u128, 1);
    proof {
        assert(fo * F32_SCALE <= 0x4000000000000000000000) by (nonlinear_arith)
            requires
                fo <= 2 * (outs as u128),
                outs <= 0x7fffffff,
        ;
        let big = (fo * F32_SCALE) as u128;
        assert(big >= fi) by (nonlinear_arith)
            requires
                big == fo * F32_SCALE,
                fo >= 1,
                fi <= 0xfffffffe,
        ;
        vstd::arithmetic::div_mod::lemma_fundamental_div_mod(big as int, fi as int);
        vstd::arithmetic::div_mod::lemma_mod_pos_bound(big as int, fi as int);
        if big / fi == 0 {
            assert(fi * (big / fi) == 0) by (nonlinear_arith)
                requires
                    big / fi == 0,
            ;
        }
    }
    let q = f32_round(fo * F32_SCALE, fi);
    proof {
        assert(q * 1000 <= 0x10000000000000000000000000) by (nonlinear_arith)
            requires
                q <= 2 * (((fo * F32_SCALE) as u128) / fi),
                fo * F32_SCALE <= 0x4000000000000000000000,
                fi >= 1,
        ;
    }
    let r = f32_round(q * 1000, 1);
    let k = r / F32_SCALE;
    if k > 2147483647 {
        2147483647
    } else {
        k as i64
    }
}

} // verus!
