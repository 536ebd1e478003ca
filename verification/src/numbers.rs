//! Greatest common divisor and least common multiple, with the
//! divisibility facts the obstacle scheduler builds on: the cycle after
//! which the obstacle configuration repeats is the least common multiple
//! of the interior dimensions, so it must be a multiple of each.

use vstd::prelude::*;

verus! {

use vstd::arithmetic::div_mod::{
    lemma_fundamental_div_mod, lemma_mod_multiples_basic, lemma_mod_self_0, lemma_small_mod,
};

/// Euclid's greatest common divisor.
pub open spec fn gcd_nat(a: nat, b: nat) -> nat
    decreases b,
{
    if b == 0 {
        a
    } else {
        gcd_nat(b, (a as int % b as int) as nat)
    }
}

/// The least common multiple, as the product divided by the greatest
/// common divisor.
pub open spec fn lcm_nat(a: nat, b: nat) -> nat {
    ((a * b) as int / gcd_nat(a, b) as int) as nat
}

/// A positive first argument keeps the greatest common divisor positive.
pub proof fn lemma_gcd_pos(a: nat, b: nat)
    requires
        a > 0,
    ensures
        gcd_nat(a, b) > 0,
    decreases b,
{
    if b > 0 {
        lemma_gcd_pos(b, (a as int % b as int) as nat);
    }
}

/// The greatest common divisor divides both of its arguments.
pub proof fn lemma_gcd_divides(a: nat, b: nat)
    requires
        a > 0,
    ensures
        a as int % gcd_nat(a, b) as int == 0,
        b as int % gcd_nat(a, b) as int == 0,
    decreases b,
{
    let g = gcd_nat(a, b) as int;
    if b == 0 {
        lemma_mod_self_0(a as int);
        lemma_small_mod(0, a);
    } else {
        let r = (a as int % b as int) as nat;
        lemma_gcd_divides(b, r);
        lemma_gcd_pos(b, r);
        // b and r are both multiples of g, and a == (a / b) * b + r,
        // so a is a multiple of g as well.
        lemma_fundamental_div_mod(a as int, b as int);
        lemma_fundamental_div_mod(b as int, g);
        lemma_fundamental_div_mod(r as int, g);
        let q = a as int / b as int;
        let kb = b as int / g;
        let kr = r as int / g;
        assert(a as int == (q * kb + kr) * g) by (nonlinear_arith)
            requires
                a as int == q * (b as int) + r,
                b as int == g * kb,
                r as int == g * kr,
        {}
        lemma_mod_multiples_basic(q * kb + kr, g);
    }
}

/// Swapping the arguments does not change the greatest common divisor.
pub proof fn lemma_gcd_comm(a: nat, b: nat)
    requires
        a > 0,
        b > 0,
    ensures
        gcd_nat(a, b) == gcd_nat(b, a),
{
    if a < b {
        lemma_small_mod(a, b);
    } else if b < a {
        lemma_small_mod(b, a);
    }
}

/// The least common multiple is a positive multiple of each argument and
/// no larger than their product.
pub proof fn lemma_lcm_props(a: nat, b: nat)
    requires
        a > 0,
        b > 0,
    ensures
        lcm_nat(a, b) as int % a as int == 0,
        lcm_nat(a, b) as int % b as int == 0,
        a <= lcm_nat(a, b),
        b <= lcm_nat(a, b),
        lcm_nat(a, b) <= a * b,
{
    let g = gcd_nat(a, b) as int;
    lemma_gcd_pos(a, b);
    lemma_gcd_divides(a, b);
    lemma_fundamental_div_mod(a as int, g);
    lemma_fundamental_div_mod(b as int, g);
    let ka = a as int / g;
    let kb = b as int / g;
    assert(ka >= 1 && kb >= 1) by (nonlinear_arith)
        requires
            a as int == g * ka,
            b as int == g * kb,
            a > 0,
            b > 0,
            g > 0,
    {}
    assert((a * b) as int == g * (a as int * kb)) by (nonlinear_arith)
        requires
            b as int == g * kb,
    {}
    vstd::arithmetic::div_mod::lemma_div_multiples_vanish(a as int * kb, g);
    assert(lcm_nat(a, b) as int == a as int * kb);
    assert(lcm_nat(a, b) as int == kb * a as int) by (nonlinear_arith)
        requires
            lcm_nat(a, b) as int == a as int * kb,
    {}
    lemma_mod_multiples_basic(kb, a as int);
    assert(a as int * kb == b as int * ka) by (nonlinear_arith)
        requires
            a as int == g * ka,
            b as int == g * kb,
    {}
    lemma_mod_multiples_basic(ka, b as int);
    assert(a as int * kb >= a as int && b as int * ka >= b as int) by (nonlinear_arith)
        requires
            ka >= 1,
            kb >= 1,
            a > 0,
            b > 0,
    {}
    assert(a as int * kb <= a as int * b as int) by (nonlinear_arith)
        requires
            kb <= b as int,
            a > 0,
    {}
    assert(kb <= b as int) by (nonlinear_arith)
        requires
            b as int == g * kb,
            g >= 1,
            kb >= 1,
    {}
}

/// Euclid's algorithm, as a loop that keeps the invariant that the pair's
/// greatest common divisor never changes.
pub fn gcd(first: usize, second: usize) -> (r: usize)
    requires
        first >= 1,
        second >= 1,
    ensures
        r == gcd_nat(first as nat, second as nat),
        r >= 1,
{
    let mut max = first;
    let mut min = second;
    if min > max {
        let tmp = max;
        max = min;
        min = tmp;
        proof {
            lemma_gcd_comm(first as nat, second as nat);
        }
    }

    loop
        invariant
            min >= 1,
            max >= 1,
            gcd_nat(max as nat, min as nat) == gcd_nat(first as nat, second as nat),
        decreases min,
    {
        let res: usize = max % min;
        proof {
            assert(gcd_nat(max as nat, min as nat) == gcd_nat(min as nat, res as nat));
        }
        if res == 0 {
            proof {
                assert(gcd_nat(min as nat, 0) == min as nat);
            }
            return min;
        }

        max = min;
        min = res;
    }
}

/// The least common multiple, computed as the product divided by the
/// greatest common divisor.
pub fn lcm(first: usize, second: usize) -> (r: usize)
    requires
        first >= 1,
        second >= 1,
        first * second <= usize::MAX,
    ensures
        r == lcm_nat(first as nat, second as nat),
        r as int % first as int == 0,
        r as int % second as int == 0,
        first <= r,
        second <= r,
        r <= first * second,
{
    proof {
        lemma_lcm_props(first as nat, second as nat);
    }
    let g = gcd(first, second);
    first * second / g
}

} // verus!
