//! Greatest common divisor by Euclid's algorithm.

use vstd::prelude::*;

verus! {

/// Euclid's recursion: `gcd(a, 0) == a` and `gcd(a, b) == gcd(b, a % b)`.
pub open spec fn gcd_spec(a: nat, b: nat) -> nat
    decreases b,
{
    if b == 0 {
        a
    } else {
        gcd_spec(b, a % b)
    }
}

/// `d` divides `x` (every natural divides 0, and 0 divides only 0).
pub open spec fn divides(d: nat, x: nat) -> bool {
    exists|k: nat| x == #[trigger] (d * k)
}

/// The gcd divides both of its arguments.
pub proof fn lemma_gcd_divides(a: nat, b: nat)
    ensures
        divides(gcd_spec(a, b), a),
        divides(gcd_spec(a, b), b),
    decreases b,
{
    if b == 0 {
        assert(a == a * 1);
        assert(b == a * 0);
    } else {
        lemma_gcd_divides(b, a % b);
        let g = gcd_spec(b, a % b);
        vstd::arithmetic::div_mod::lemma_fundamental_div_mod(a as int, b as int);
        let k1 = choose|k: nat| b == #[trigger] (g * k);
        let k2 = choose|k: nat| a % b == #[trigger] (g * k);
        let q = a / b;
        assert(a == g * (k1 * q + k2)) by (nonlinear_arith)
            requires
                b == g * k1,
                a % b == g * k2,
                a == b * q + a % b,
        ;
        assert(divides(g, a)) by {
            assert(a == g * ((k1 * q + k2) as nat));
        }
    }
}

/// Every common divisor of `a` and `b` divides their gcd, so the gcd is
/// the greatest common divisor.
pub proof fn lemma_gcd_greatest(a: nat, b: nat, d: nat)
    requires
        divides(d, a),
        divides(d, b),
    ensures
        divides(d, gcd_spec(a, b)),
    decreases b,
{
    if b != 0 {
        let ka = choose|k: nat| a == #[trigger] (d * k);
        let kb = choose|k: nat| b == #[trigger] (d * k);
        vstd::arithmetic::div_mod::lemma_fundamental_div_mod(a as int, b as int);
        let q = a / b;
        if d == 0 {
            assert(b == 0 * kb);
        } else {
            assert(ka >= kb * q) by (nonlinear_arith)
                requires
                    a == d * ka,
                    b == d * kb,
                    a == b * q + a % b,
                    a % b >= 0,
                    d > 0,
            ;
            assert(a % b == a - b * q);
            assert(a % b == d * (ka - kb * q)) by (nonlinear_arith)
                requires
                    a == d * ka,
                    b == d * kb,
                    a % b == a - b * q,
            ;
            assert(divides(d, a % b)) by {
                assert(a % b == d * ((ka - kb * q) as nat));
            }
            lemma_gcd_greatest(b, a % b, d);
        }
    }
}

/// The greatest common divisor of `a` and `b`; `gcd(0, 0) == 0`.
pub fn gcd(a: u64, b: u64) -> (g: u64)
    ensures
        g == gcd_spec(a as nat, b as nat),
        divides(g as nat, a as nat),
        divides(g as nat, b as nat),
        forall|d: nat| divides(d, a as nat) && divides(d, b as nat) ==> divides(d, g as nat),
    decreases b,
{
    proof {
        lemma_gcd_divides(a as nat, b as nat);
        assert forall|d: nat|
            divides(d, a as nat) && divides(d, b as nat) implies divides(
            d,
            gcd_spec(a as nat, b as nat),
        ) by {
            lemma_gcd_greatest(a as nat, b as nat, d);
        }
    }
    if b == 0 {
        a
    } else {
        gcd(b, a % b)
    }
}

} // verus!
