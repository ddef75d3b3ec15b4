//! Primality and modular inverses: a prime modulus makes every nonzero
//! residue invertible, which is exactly what pivot scaling relies on, and a
//! modulus with a non-invertible residue is composite.

use vstd::prelude::*;

verus! {

use vstd::arithmetic::div_mod::{
    lemma_fundamental_div_mod,
    lemma_mod_bound,
    lemma_mod_multiples_vanish,
    lemma_small_mod,
    lemma_mul_mod_noop_right,
};

/// `d` divides `x`.
pub open spec fn divides(d: int, x: int) -> bool {
    exists|e: int| x == #[trigger] (d * e)
}

/// A prime: at least two, with no divisor strictly between one and itself.
pub open spec fn is_prime(p: int) -> bool {
    &&& p >= 2
    &&& forall|d: int| 2 <= d < p ==> !(#[trigger] divides(d, p))
}

/// `a` has a multiplicative inverse modulo `p`.
pub open spec fn invertible_mod(a: int, p: int) -> bool {
    exists|b: int| 1 <= b < p && #[trigger] ((a * b) % p) == 1
}

/// Every nonzero residue has a multiplicative inverse: the property that
/// makes `Z_p` a field. The two lemmas below show it holds exactly for
/// prime moduli.
pub open spec fn field_modulus(p: int) -> bool {
    &&& p >= 2
    &&& forall|a: int| 1 <= a < p ==> invertible_mod(a, p)
}

/// The greatest common divisor, by Euclid's recursion.
pub open spec fn gcd(a: nat, b: nat) -> nat
    decreases b,
{
    if b == 0 {
        a
    } else {
        gcd(b, (a % b) as nat)
    }
}

/// `x` and `y` combine `a` and `b` into `g`.
pub open spec fn bezout_pair(a: int, b: int, x: int, y: int, g: int) -> bool {
    a * x + b * y == g
}

/// The greatest common divisor of a positive number is positive.
proof fn lemma_gcd_pos(a: nat, b: nat)
    requires
        a >= 1,
        b >= 1 || a >= 1,
    ensures
        gcd(a, b) >= 1,
    decreases b,
{
    if b != 0 {
        lemma_mod_bound(a as int, b as int);
        if a % b == 0 {
            lemma_gcd_zero_right(b);
        } else {
            lemma_gcd_pos(b, (a % b) as nat);
        }
    }
}

/// With a zero second argument the recursion stops at the first.
proof fn lemma_gcd_zero_right(a: nat)
    ensures
        gcd(a, 0) == a,
{
}

/// The greatest common divisor divides both arguments.
proof fn lemma_gcd_divides(a: nat, b: nat)
    ensures
        divides(gcd(a, b) as int, a as int),
        divides(gcd(a, b) as int, b as int),
    decreases b,
{
    let g = gcd(a, b) as int;
    if b == 0 {
        assert(a as int == g * 1);
        assert(0int == g * 0);
    } else {
        lemma_mod_bound(a as int, b as int);
        lemma_gcd_divides(b, (a % b) as nat);
        let e1 = choose|e: int| b as int == #[trigger] (g * e);
        let e2 = choose|e: int| (a as int) % (b as int) == #[trigger] (g * e);
        lemma_fundamental_div_mod(a as int, b as int);
        let q = (a as int) / (b as int);
        assert(a as int == g * (e1 * q + e2)) by (nonlinear_arith)
            requires
                a as int == (b as int) * q + (a as int) % (b as int),
                b as int == g * e1,
                (a as int) % (b as int) == g * e2,
        ;
    }
}

/// Bezout's identity: some integer combination of `a` and `b` reaches their
/// greatest common divisor.
proof fn lemma_bezout(a: nat, b: nat)
    ensures
        exists|x: int, y: int| bezout_pair(a as int, b as int, x, y, gcd(a, b) as int),
    decreases b,
{
    let g = gcd(a, b) as int;
    if b == 0 {
        assert(bezout_pair(a as int, b as int, 1, 0, g)) by {
            assert((a as int) * 1 + (b as int) * 0 == a as int);
        }
    } else {
        lemma_mod_bound(a as int, b as int);
        lemma_bezout(b, (a % b) as nat);
        let (x2, y2) = choose|x: int, y: int|
            #[trigger] bezout_pair(
                b as int,
                ((a % b) as nat) as int,
                x,
                y,
                gcd(b, (a % b) as nat) as int,
            );
        lemma_fundamental_div_mod(a as int, b as int);
        let q = (a as int) / (b as int);
        assert((a as int) * y2 + (b as int) * (x2 - q * y2) == g) by (nonlinear_arith)
            requires
                (b as int) * x2 + ((a as int) - (b as int) * q) * y2 == g,
        ;
        assert(bezout_pair(a as int, b as int, y2, x2 - q * y2, g));
    }
}

/// A divisor of a positive number is at most that number.
proof fn lemma_divides_le(d: int, x: int)
    requires
        d >= 1,
        x >= 1,
        divides(d, x),
    ensures
        d <= x,
{
    let e = choose|e: int| x == #[trigger] (d * e);
    assert(d <= x) by (nonlinear_arith)
        requires
            d >= 1,
            x >= 1,
            x == d * e,
    ;
}

/// Nothing at least two divides one.
proof fn lemma_no_small_unit(d: int, m: int)
    requires
        d >= 2,
    ensures
        d * m != 1,
{
    assert(d * m != 1) by (nonlinear_arith)
        requires
            d >= 2,
    ;
}

/// Every nonzero residue modulo a prime has an inverse: Bezout combines the
/// residue and the prime into their greatest common divisor, which
/// primality forces to be one.
pub proof fn lemma_prime_field(p: int)
    requires
        is_prime(p),
    ensures
        field_modulus(p),
{
    assert forall|a: int| 1 <= a < p implies invertible_mod(a, p) by {
        let g = gcd(a as nat, p as nat) as int;
        lemma_gcd_pos(a as nat, p as nat);
        lemma_gcd_divides(a as nat, p as nat);
        lemma_divides_le(g, a);
        assert(g == 1) by {
            if g >= 2 {
                assert(divides(g, p));
            }
        }
        lemma_bezout(a as nat, p as nat);
        let (x, y) = choose|x: int, y: int| #[trigger] bezout_pair(a, p, x, y, 1);
        vstd::arithmetic::mul::lemma_mul_unary_negation(p, y);
        assert(a * x == p * (-y) + 1);
        lemma_mod_multiples_vanish(-y, 1, p);
        lemma_small_mod(1nat, p as nat);
        assert((a * x) % p == 1);
        lemma_mul_mod_noop_right(a, x, p);
        assert((a * (x % p)) % p == 1);
        lemma_mod_bound(x, p);
        let b = x % p;
        assert(b != 0) by {
            if b == 0 {
                assert(a * 0 == 0);
                lemma_small_mod(0nat, p as nat);
            }
        }
        assert(1 <= b < p && (a * b) % p == 1);
    }
}

/// A modulus with a non-invertible nonzero residue is composite: from an
/// inverse of a divisor, the divisor would divide one.
pub proof fn lemma_field_is_prime(p: int)
    requires
        field_modulus(p),
    ensures
        is_prime(p),
{
    assert forall|d: int| 2 <= d < p implies !(#[trigger] divides(d, p)) by {
        if divides(d, p) {
            let e = choose|e: int| p == #[trigger] (d * e);
            assert(invertible_mod(d, p));
            let b = choose|b: int| 1 <= b < p && #[trigger] ((d * b) % p) == 1;
            lemma_fundamental_div_mod(d * b, p);
            let q = (d * b) / p;
            assert(d * (b - e * q) == 1) by (nonlinear_arith)
                requires
                    d * b == p * q + (d * b) % p,
                    (d * b) % p == 1,
                    p == d * e,
            ;
            lemma_no_small_unit(d, b - e * q);
        }
    }
}

} // verus!
