//! Arithmetic modulo a fixed prime.

use vstd::prelude::*;

use vstd::arithmetic::div_mod::lemma_fundamental_div_mod_converse_mod;
use vstd::arithmetic::div_mod::lemma_mul_mod_noop_general;
use vstd::arithmetic::div_mod::lemma_small_mod;
use vstd::arithmetic::power::lemma_pow_multiplies;
use vstd::arithmetic::power::lemma_pow_mod_noop;
use vstd::arithmetic::power::pow;

verus! {

/// The prime modulus.
pub const MOD: u128 = 1_000_000_007;

/// `b^e` reduced by the modulus, with the exponent first reduced by
/// `MOD - 1` (by Fermat's little theorem the reduction keeps the value
/// whenever `b` and the prime modulus are coprime).
pub open spec fn pow_mod_spec(b: u128, e: u128) -> int {
    pow((b % MOD) as int, (e as int % (MOD - 1)) as nat) % (MOD as int)
}

/// Arithmetic modulo [`MOD`].
pub trait ModMath {
    /// The number the operations act on.
    spec fn md(&self) -> u128;

    /// Adds `other` into `self`, reducing once; exact modular addition
    /// whenever both operands are already reduced.
    fn madd(&mut self, other: u128) -> (r: u128)
        requires
            old(self).md() + other <= u128::MAX,
        ensures
            r == final(self).md(),
            final(self).md() == if old(self).md() + other >= MOD {
                old(self).md() + other - MOD
            } else {
                old(self).md() + other
            },
            old(self).md() < MOD && other < MOD ==> final(self).md() as int == (old(self).md()
                + other) % (MOD as int),
    ;

    /// Subtracts `other` from `self`, wrapping once past the modulus;
    /// exact modular subtraction whenever both operands are reduced.
    fn msub(&mut self, other: u128) -> (r: u128)
        requires
            other > old(self).md() ==> old(self).md() + MOD <= u128::MAX,
            other <= old(self).md() + MOD,
        ensures
            r == final(self).md(),
            final(self).md() == if other > old(self).md() {
                old(self).md() + MOD - other
            } else {
                old(self).md() - other
            },
            old(self).md() < MOD && other < MOD ==> final(self).md() as int == (old(self).md()
                + MOD - other) % (MOD as int),
    ;

    /// The product of `self` and `other`, reduced.
    fn mmul(&self, other: u128) -> (r: u128)
        ensures
            r as int == (self.md() as int * other as int) % (MOD as int),
    ;

    /// `self / other` in the field: `self` times the inverse of `other`.
    fn mdiv(&self, other: u128) -> (r: u128)
        ensures
            r as int == (self.md() as int * pow_mod_spec(other, (MOD - 2) as u128)) % (MOD as int),
    ;

    /// `self^power`, reduced; the exponent is reduced by `MOD - 1` first
    /// (Euler), so this is exact exponentiation only when `self` and the
    /// modulus are coprime.
    fn mpow(&self, power: u128) -> (r: u128)
        ensures
            r as int == pow_mod_spec(self.md(), power),
    ;

    /// The multiplicative inverse of `self` by Fermat's little theorem;
    /// meaningful only when `self` is not a multiple of the modulus.
    fn minverse(&self) -> (r: u128)
        ensures
            r as int == pow_mod_spec(self.md(), (MOD - 2) as u128),
    ;
}

impl ModMath for u128 {
    open spec fn md(&self) -> u128 {
        *self
    }

    fn madd(&mut self, other: u128) -> (r: u128) {
        *self += other;
        if *self >= MOD {
            *self -= MOD;
        }
        proof {
            if *old(self) < MOD && other < MOD {
                let x = *old(self) + other;
                if x >= MOD {
                    lemma_fundamental_div_mod_converse_mod(
                        x as int,
                        MOD as int,
                        1,
                        x - MOD as int,
                    );
                } else {
                    lemma_small_mod(x as nat, MOD as nat);
                }
            }
        }
        *self
    }

    fn msub(&mut self, other: u128) -> (r: u128) {
        if other > *self {
            *self += MOD;
        }
        *self -= other;
        proof {
            if *old(self) < MOD && other < MOD {
                let x = *old(self) + MOD - other;
                if x >= MOD {
                    lemma_fundamental_div_mod_converse_mod(
                        x as int,
                        MOD as int,
                        1,
                        x - MOD as int,
                    );
                } else {
                    lemma_small_mod(x as nat, MOD as nat);
                }
            }
        }
        *self
    }

    fn mmul(&self, other: u128) -> (r: u128) {
        proof {
            assert((*self % MOD) * (other % MOD) <= u128::MAX) by (nonlinear_arith)
                requires
                    *self % MOD < MOD,
                    other % MOD < MOD,
                    MOD == 1_000_000_007u128,
            ;
            lemma_mul_mod_noop_general(*self as int, other as int, MOD as int);
        }
        ((self % MOD) * (other % MOD)) % MOD
    }

    fn mdiv(&self, other: u128) -> (r: u128) {
        self.mmul(other.minverse())
    }

    fn mpow(&self, power: u128) -> (r: u128) {
        let mut p: u128 = power % (MOD - 1);
        let mut base: u128 = *self % MOD;
        let mut ans: u128 = 1;
        let ghost b0 = base as int;
        let ghost e0 = p as nat;
        let ghost m = MOD as int;
        while p > 0
            invariant
                ans < MOD,
                base < MOD,
                m == MOD as int,
                (ans as int * pow(base as int, p as nat)) % m == pow(b0, e0) % m,
            decreases p,
        {
            let ghost ans_in = ans as int;
            let ghost base_in = base as int;
            let ghost p_in = p as nat;
            if p % 2 != 0 {
                proof {
                    assert(ans * base <= u128::MAX) by (nonlinear_arith)
                        requires
                            ans < MOD,
                            base < MOD,
                            MOD == 1_000_000_007u128,
                    ;
                }
                ans = ans * base % MOD;
            }
            proof {
                assert(base * base <= u128::MAX) by (nonlinear_arith)
                    requires
                        base < MOD,
                        MOD == 1_000_000_007u128,
                ;
            }
            base = base * base % MOD;
            p = p / 2;
            proof {
                let h = p as nat;
                // pow(base_in^2, h) == pow(base_in, 2h)
                lemma_pow_multiplies(base_in, 2, h);
                assert(pow(base_in, 2) == base_in * base_in) by {
                    vstd::arithmetic::power::lemma_pow_adds(base_in, 1, 1);
                    vstd::arithmetic::power::lemma_pow1(base_in);
                }
                // reducing the new base keeps the value of the power
                lemma_pow_mod_noop(base_in * base_in, h, m);
                assert(pow(base as int, h) % m == pow(base_in * base_in, h) % m);
                if p_in % 2 == 1 {
                    assert(pow(base_in, p_in) == base_in * pow(base_in, (2 * h) as nat)) by {
                        assert(p_in == 2 * h + 1);
                        vstd::arithmetic::power::lemma_pow_adds(base_in, (2 * h) as nat, 1);
                        vstd::arithmetic::power::lemma_pow1(base_in);
                    }
                    lemma_mul_mod_noop_general(
                        ans_in * base_in,
                        pow(base_in * base_in, h),
                        m,
                    );
                    lemma_mul_mod_noop_general(ans_in, base_in, m);
                    assert((ans_in * base_in) * pow(base_in * base_in, h) == ans_in * (base_in
                        * pow(base_in * base_in, h))) by (nonlinear_arith);
                    lemma_mul_mod_noop_general(ans as int, pow(base as int, h), m);
                    assert((ans as int * pow(base as int, h)) % m == (ans_in * pow(
                        base_in,
                        p_in,
                    )) % m);
                } else {
                    assert(pow(base_in, p_in) == pow(base_in, (2 * h) as nat)) by {
                        assert(p_in == 2 * h);
                    }
                    lemma_mul_mod_noop_general(ans_in, pow(base_in * base_in, h), m);
                    lemma_mul_mod_noop_general(ans as int, pow(base as int, h), m);
                    assert((ans as int * pow(base as int, h)) % m == (ans_in * pow(
                        base_in,
                        p_in,
                    )) % m);
                }
            }
        }
        proof {
            vstd::arithmetic::power::lemma_pow0(base as int);
            lemma_small_mod(ans as nat, MOD as nat);
        }
        ans
    }

    fn minverse(&self) -> (r: u128) {
        proof {
            lemma_small_mod((MOD - 2) as nat, (MOD - 1) as nat);
        }
        self.mpow(MOD - 2)
    }
}

} // verus!
