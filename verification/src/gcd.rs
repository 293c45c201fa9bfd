//! Greatest common divisors by Euclid's algorithm, and the divisibility facts
//! the rest of the library leans on.

use vstd::arithmetic::div_mod::{
    lemma_fundamental_div_mod, lemma_mod_multiples_vanish, lemma_mod_self_0,
    lemma_mul_mod_noop_left, lemma_small_mod,
};
use vstd::prelude::*;

verus! {

/// `d` is a positive integer that divides `n` evenly.
pub open spec fn divides(d: int, n: int) -> bool {
    d > 0 && n % d == 0
}

/// The greatest common divisor of `a` and `b`, by Euclid's recursion; 0 when
/// both are 0.
pub open spec fn gcd_of(a: nat, b: nat) -> nat
    decreases b,
{
    if b == 0 {
        a
    } else {
        gcd_of(b, a % b)
    }
}

/// Every positive integer divides 0.
pub proof fn lemma_divides_zero(d: int)
    requires
        d > 0,
    ensures
        divides(d, 0),
{
    lemma_small_mod(0, d as nat);
}

/// Every positive integer divides itself.
pub proof fn lemma_divides_self(d: int)
    requires
        d > 0,
    ensures
        divides(d, d),
{
    lemma_mod_self_0(d);
}

/// A divisor of a positive integer is no larger than it.
pub proof fn lemma_divisor_at_most(d: int, n: int)
    requires
        divides(d, n),
        n > 0,
    ensures
        d <= n,
{
    if n < d {
        lemma_small_mod(n as nat, d as nat);
    }
}

/// Adding or taking away a multiple of `d` does not change the remainder by `d`.
pub proof fn lemma_multiple_vanishes(d: int, m: int, n: int)
    requires
        divides(d, m),
    ensures
        (n + m) % d == n % d,
        (n - m) % d == n % d,
{
    let q: int = m / d;
    lemma_fundamental_div_mod(m, d);
    assert(m == d * q);
    lemma_mod_multiples_vanish(q, n, d);
    lemma_mod_multiples_vanish(-q, n, d);
    assert(d * (-q) == -(d * q)) by (nonlinear_arith);
}

/// Every multiple of a multiple of `d` is a multiple of `d`.
pub proof fn lemma_divides_product(d: int, m: int, k: int)
    requires
        divides(d, m),
    ensures
        divides(d, m * k),
{
    lemma_mul_mod_noop_left(m, k, d);
    assert(0 * k == 0);
    lemma_divides_zero(d);
}

/// The common divisors of `a` and `b` are exactly the divisors of their
/// greatest common divisor.
pub proof fn lemma_gcd_divisors(a: nat, b: nat, d: int)
    ensures
        divides(d, gcd_of(a, b) as int) <==> divides(d, a as int) && divides(d, b as int),
    decreases b,
{
    if d > 0 {
        if b == 0 {
            lemma_divides_zero(d);
        } else {
            let r: nat = a % b;
            lemma_gcd_divisors(b, r, d);
            if divides(d, b as int) {
                lemma_fundamental_div_mod(a as int, b as int);
                lemma_divides_product(d, b as int, a as int / b as int);
                lemma_multiple_vanishes(d, b as int * (a as int / b as int), r as int);
            }
        }
    }
}

/// The greatest common divisor is positive unless both arguments are 0.
pub proof fn lemma_gcd_positive(a: nat, b: nat)
    requires
        a > 0 || b > 0,
    ensures
        gcd_of(a, b) > 0,
    decreases b,
{
    if b != 0 {
        lemma_gcd_positive(b, a % b);
    }
}

/// The greatest common divisor divides both arguments, and no common divisor
/// is larger.
pub proof fn lemma_gcd_is_greatest(a: nat, b: nat)
    requires
        a > 0 || b > 0,
    ensures
        divides(gcd_of(a, b) as int, a as int),
        divides(gcd_of(a, b) as int, b as int),
        forall|d: int|
            #![trigger divides(d, a as int)]
            divides(d, a as int) && divides(d, b as int) ==> d <= gcd_of(a, b),
{
    let g: int = gcd_of(a, b) as int;
    lemma_gcd_positive(a, b);
    lemma_divides_self(g);
    lemma_gcd_divisors(a, b, g);
    assert forall|d: int|
        #![trigger divides(d, a as int)]
        divides(d, a as int) && divides(d, b as int) implies d <= g by {
        lemma_gcd_divisors(a, b, d);
        lemma_divisor_at_most(d, g);
    }
}

/// Two natural numbers with the same divisors are equal.
proof fn lemma_same_divisors(m: nat, n: nat)
    requires
        forall|d: int| #[trigger] divides(d, m as int) <==> divides(d, n as int),
    ensures
        m == n,
{
    if m > 0 && n > 0 {
        lemma_divides_self(m as int);
        lemma_divides_self(n as int);
        lemma_divisor_at_most(m as int, n as int);
        lemma_divisor_at_most(n as int, m as int);
    } else if m > 0 {
        lemma_divides_zero(m as int + 1);
        lemma_divisor_at_most(m as int + 1, m as int);
    } else if n > 0 {
        lemma_divides_zero(n as int + 1);
        lemma_divisor_at_most(n as int + 1, n as int);
    }
}

/// The order of the two arguments does not matter.
pub proof fn lemma_gcd_commutative(a: nat, b: nat)
    ensures
        gcd_of(a, b) == gcd_of(b, a),
{
    assert forall|d: int| #[trigger]
        divides(d, gcd_of(a, b) as int) <==> divides(d, gcd_of(b, a) as int) by {
        lemma_gcd_divisors(a, b, d);
        lemma_gcd_divisors(b, a, d);
    }
    lemma_same_divisors(gcd_of(a, b), gcd_of(b, a));
}

/// Folding three numbers gives the same whichever two are combined first.
pub proof fn lemma_gcd_associative(a: nat, b: nat, c: nat)
    ensures
        gcd_of(gcd_of(a, b), c) == gcd_of(a, gcd_of(b, c)),
{
    assert forall|d: int| #[trigger]
        divides(d, gcd_of(gcd_of(a, b), c) as int)
            <==> divides(d, gcd_of(a, gcd_of(b, c)) as int) by {
        lemma_gcd_divisors(gcd_of(a, b), c, d);
        lemma_gcd_divisors(a, b, d);
        lemma_gcd_divisors(a, gcd_of(b, c), d);
        lemma_gcd_divisors(b, c, d);
    }
    lemma_same_divisors(gcd_of(gcd_of(a, b), c), gcd_of(a, gcd_of(b, c)));
}

/// Euclid's two equations: `gcd(a, 0)` is `a`, and for `b` other than 0
/// `gcd(a, b)` is `gcd(b, a mod b)`.
pub proof fn lemma_gcd_euclid(a: nat, b: nat)
    ensures
        gcd_of(a, 0) == a,
        b != 0 ==> gcd_of(a, b) == gcd_of(b, a % b),
{
}

/// Computes the greatest common divisor of `a` and `b`.
pub fn gcd(a: u32, b: u32) -> (g: u32)
    ensures
        g == gcd_of(a as nat, b as nat),
    decreases b,
{
    if b == 0 {
        a
    } else {
        gcd(b, a % b)
    }
}

} // verus!
