//! Greatest common divisor and least common multiple of unsigned
//! 128-bit integers, with the divisibility lemmas that the fraction
//! type's normalization and uniqueness proofs rest on.

use vstd::prelude::*;
use vstd::arithmetic::div_mod::{lemma_fundamental_div_mod, lemma_div_multiples_vanish};

verus! {

/// `d` divides `n`.
pub open spec fn divides(d: int, n: int) -> bool {
    exists|k: int| n == #[trigger] (d * k)
}

/// The greatest common divisor by Euclid's recursion; `gcd_rec(a, 0) == a`.
pub open spec fn gcd_rec(a: nat, b: nat) -> nat
    decreases b,
{
    if b == 0 {
        a
    } else {
        gcd_rec(b, a % b)
    }
}

/// Two numbers are coprime when their greatest common divisor is one.
pub open spec fn coprime(a: nat, b: nat) -> bool {
    gcd_rec(a, b) == 1
}

/// The least common multiple.
pub open spec fn lcm_rec(a: nat, b: nat) -> nat {
    (a * b) / gcd_rec(a, b)
}

/// A number divides each of its multiples.
pub proof fn lemma_divides_mul(d: int, k: int)
    ensures
        divides(d, d * k),
{
    assert(d * k == d * k);
}

/// A divisor of `x` and `y` divides every integer combination of them.
pub proof fn lemma_divides_linear(d: int, x: int, y: int, p: int, q: int)
    requires
        divides(d, x),
        divides(d, y),
    ensures
        divides(d, p * x + q * y),
{
    let kx: int = choose|k: int| x == #[trigger] (d * k);
    let ky: int = choose|k: int| y == #[trigger] (d * k);
    assert(p * x + q * y == d * (p * kx + q * ky)) by (nonlinear_arith)
        requires
            x == d * kx,
            y == d * ky,
    ;
    lemma_divides_mul(d, p * kx + q * ky);
}

/// Divisibility is transitive.
pub proof fn lemma_divides_trans(a: int, b: int, c: int)
    requires
        divides(a, b),
        divides(b, c),
    ensures
        divides(a, c),
{
    let kb: int = choose|k: int| b == #[trigger] (a * k);
    let kc: int = choose|k: int| c == #[trigger] (b * k);
    assert(c == a * (kb * kc)) by (nonlinear_arith)
        requires
            b == a * kb,
            c == b * kc,
    ;
    lemma_divides_mul(a, kb * kc);
}

/// A positive divisor of a positive number is no larger than it.
pub proof fn lemma_divides_le(d: int, n: int)
    requires
        divides(d, n),
        d > 0,
        n > 0,
    ensures
        d <= n,
{
    let k: int = choose|k: int| n == #[trigger] (d * k);
    assert(d <= n) by (nonlinear_arith)
        requires
            n == d * k,
            d > 0,
            n > 0,
    ;
}

/// The greatest common divisor divides both of its arguments.
pub proof fn lemma_gcd_divides(a: nat, b: nat)
    ensures
        divides(gcd_rec(a, b) as int, a as int),
        divides(gcd_rec(a, b) as int, b as int),
    decreases b,
{
    let g: int = gcd_rec(a, b) as int;
    if b == 0 {
        assert(a as int == g * 1);
        assert(0int == g * 0);
    } else {
        lemma_gcd_divides(b, a % b);
        lemma_fundamental_div_mod(a as int, b as int);
        lemma_divides_linear(g, b as int, (a % b) as int, a as int / b as int, 1);
        assert((a as int / b as int) * (b as int) + 1 * ((a % b) as int) == a as int);
    }
}

/// Every common divisor of `a` and `b` divides their greatest common divisor.
pub proof fn lemma_gcd_greatest(a: nat, b: nat, d: int)
    requires
        divides(d, a as int),
        divides(d, b as int),
    ensures
        divides(d, gcd_rec(a, b) as int),
    decreases b,
{
    if b == 0 {
    } else {
        lemma_fundamental_div_mod(a as int, b as int);
        lemma_divides_linear(d, a as int, b as int, 1, -(a as int / b as int));
        assert(1 * (a as int) + (-(a as int / b as int)) * (b as int) == (a % b) as int)
            by (nonlinear_arith)
            requires
                a as int == (b as int) * (a as int / b as int) + (a % b) as int,
        ;
        lemma_gcd_greatest(b, a % b, d);
    }
}

/// The greatest common divisor is positive when either argument is.
pub proof fn lemma_gcd_pos(a: nat, b: nat)
    requires
        a > 0 || b > 0,
    ensures
        gcd_rec(a, b) > 0,
    decreases b,
{
    if b == 0 {
    } else {
        lemma_gcd_pos(b, a % b);
    }
}

/// The greatest common divisor is symmetric in its arguments.
pub proof fn lemma_gcd_sym(a: nat, b: nat)
    ensures
        gcd_rec(a, b) == gcd_rec(b, a),
{
    if a == 0 && b == 0 {
        assert(gcd_rec(0, 0) == 0);
    } else {
        let g1: nat = gcd_rec(a, b);
        let g2: nat = gcd_rec(b, a);
        lemma_gcd_pos(a, b);
        if a > 0 || b > 0 {
            lemma_gcd_pos(b, a);
        }
        lemma_gcd_divides(a, b);
        lemma_gcd_divides(b, a);
        lemma_gcd_greatest(b, a, g1 as int);
        lemma_gcd_greatest(a, b, g2 as int);
        lemma_divides_le(g1 as int, g2 as int);
        lemma_divides_le(g2 as int, g1 as int);
    }
}

/// Dividing two numbers by their greatest common divisor leaves a coprime pair.
pub proof fn lemma_gcd_reduced(a: nat, b: nat)
    requires
        a > 0 || b > 0,
    ensures
        coprime(a / gcd_rec(a, b), b / gcd_rec(a, b)),
{
    let g: nat = gcd_rec(a, b);
    lemma_gcd_pos(a, b);
    lemma_gcd_divides(a, b);
    let ka: int = choose|k: int| a as int == #[trigger] (g as int * k);
    let kb: int = choose|k: int| b as int == #[trigger] (g as int * k);
    assert(ka >= 0 && kb >= 0) by (nonlinear_arith)
        requires
            a as int == g as int * ka,
            b as int == g as int * kb,
            g > 0,
            a >= 0,
            b >= 0,
    ;
    lemma_div_multiples_vanish(ka, g as int);
    lemma_div_multiples_vanish(kb, g as int);
    assert(a as int / g as int == ka);
    assert(b as int / g as int == kb);
    let ra: nat = a / g;
    let rb: nat = b / g;
    assert(ra > 0 || rb > 0) by (nonlinear_arith)
        requires
            a as int == g as int * ra,
            b as int == g as int * rb,
            a > 0 || b > 0,
    ;
    let d: nat = gcd_rec(ra, rb);
    lemma_gcd_pos(ra, rb);
    lemma_gcd_divides(ra, rb);
    let ma: int = choose|k: int| ra as int == #[trigger] (d as int * k);
    let mb: int = choose|k: int| rb as int == #[trigger] (d as int * k);
    assert(a as int == (g * d) as int * ma) by (nonlinear_arith)
        requires
            a as int == g as int * ra,
            ra as int == d as int * ma,
    ;
    assert(b as int == (g * d) as int * mb) by (nonlinear_arith)
        requires
            b as int == g as int * rb,
            rb as int == d as int * mb,
    ;
    lemma_divides_mul((g * d) as int, ma);
    lemma_divides_mul((g * d) as int, mb);
    lemma_gcd_greatest(a, b, (g * d) as int);
    assert(g * d > 0) by (nonlinear_arith)
        requires
            g > 0,
            d > 0,
    ;
    lemma_divides_le((g * d) as int, g as int);
    assert(d == 1) by (nonlinear_arith)
        requires
            g * d <= g,
            g > 0,
            d > 0,
    ;
}

/// Bezout's identity: the greatest common divisor is an integer
/// combination of its arguments.
pub proof fn lemma_bezout(a: nat, b: nat)
    ensures
        exists|x: int, y: int| gcd_rec(a, b) as int == #[trigger] (a as int * x) + #[trigger] (b as int * y),
    decreases b,
{
    if b == 0 {
        assert(gcd_rec(a, 0) as int == a as int * 1 + 0int * 0);
    } else {
        lemma_bezout(b, a % b);
        let (x0, y0): (int, int) = choose|x: int, y: int|
            gcd_rec(b, a % b) as int == #[trigger] (b as int * x) + #[trigger] ((a % b) as int * y);
        lemma_fundamental_div_mod(a as int, b as int);
        let q: int = a as int / b as int;
        assert(gcd_rec(a, b) as int == a as int * y0 + b as int * (x0 - q * y0)) by (nonlinear_arith)
            requires
                gcd_rec(a, b) as int == b as int * x0 + (a % b) as int * y0,
                a as int == (b as int) * q + (a % b) as int,
        ;
    }
}

/// Euclid's lemma: a number coprime to `a` that divides `a * b` divides `b`.
pub proof fn lemma_coprime_divides_product(c: nat, a: nat, b: nat)
    requires
        coprime(c, a),
        divides(c as int, a as int * b as int),
    ensures
        divides(c as int, b as int),
{
    lemma_bezout(c, a);
    let (x, y): (int, int) = choose|x: int, y: int|
        gcd_rec(c, a) as int == #[trigger] (c as int * x) + #[trigger] (a as int * y);
    let m: int = choose|k: int| a as int * b as int == #[trigger] (c as int * k);
    assert(b as int == c as int * (b as int * x + m * y)) by (nonlinear_arith)
        requires
            1int == c as int * x + a as int * y,
            a as int * b as int == c as int * m,
    ;
    lemma_divides_mul(c as int, b as int * x + m * y);
}

/// Coprimality to `z` passes to any positive divisor of `z`.
pub proof fn lemma_coprime_of_divisor(x: nat, z: nat, d: nat)
    requires
        coprime(x, z),
        divides(d as int, z as int),
        d > 0,
    ensures
        coprime(x, d),
{
    let e: nat = gcd_rec(x, d);
    lemma_gcd_pos(x, d);
    lemma_gcd_divides(x, d);
    lemma_divides_trans(e as int, d as int, z as int);
    lemma_gcd_greatest(x, z, e as int);
    lemma_divides_le(e as int, 1int);
}

/// A product of two numbers coprime to `z` is itself coprime to `z`.
pub proof fn lemma_coprime_mul(x: nat, y: nat, z: nat)
    requires
        coprime(x, z),
        coprime(y, z),
        z > 0,
    ensures
        coprime(x * y, z),
{
    let d: nat = gcd_rec(x * y, z);
    lemma_gcd_pos(x * y, z);
    lemma_gcd_divides(x * y, z);
    lemma_coprime_of_divisor(x, z, d);
    lemma_gcd_sym(x, d);
    lemma_gcd_sym(d, x);
    assert(coprime(d, x));
    assert(x as int * y as int == (x * y) as int);
    lemma_coprime_divides_product(d, x, y);
    lemma_gcd_greatest(y, z, d as int);
    lemma_divides_le(d as int, 1int);
}

/// Two reduced fractions with the same cross products have the same
/// numerator and the same denominator.
pub proof fn lemma_reduced_unique(a1: nat, a2: nat, b1: nat, b2: nat)
    requires
        a2 > 0,
        b2 > 0,
        coprime(a1, a2),
        coprime(b1, b2),
        a1 * b2 == b1 * a2,
    ensures
        a1 == b1,
        a2 == b2,
{
    assert(divides(a1 as int, a2 as int * b1 as int)) by {
        assert(a2 as int * b1 as int == a1 as int * (b2 as int)) by (nonlinear_arith)
            requires
                a1 * b2 == b1 * a2,
        ;
        lemma_divides_mul(a1 as int, b2 as int);
    }
    lemma_coprime_divides_product(a1, a2, b1);
    assert(divides(b1 as int, b2 as int * a1 as int)) by {
        assert(b2 as int * a1 as int == b1 as int * (a2 as int)) by (nonlinear_arith)
            requires
                a1 * b2 == b1 * a2,
        ;
        lemma_divides_mul(b1 as int, a2 as int);
    }
    lemma_coprime_divides_product(b1, b2, a1);
    if a1 == 0 {
        let k: int = choose|k: int| b1 as int == #[trigger] (a1 as int * k);
        assert(b1 == 0);
        lemma_gcd_sym(0, a2);
        assert(a2 == 1);
        lemma_gcd_sym(0, b2);
        assert(b2 == 1);
    } else {
        let k: int = choose|k: int| a1 as int == #[trigger] (b1 as int * k);
        assert(b1 != 0);
        lemma_divides_le(a1 as int, b1 as int);
        lemma_divides_le(b1 as int, a1 as int);
        assert(a1 == b1);
        assert(a2 == b2) by (nonlinear_arith)
            requires
                a1 * b2 == b1 * a2,
                a1 == b1,
                a1 > 0,
        ;
    }
}


/// How the least common multiple factors through the greatest common
/// divisor: `lcm(a, b) == a * (b / g) == b * (a / g)`.
pub proof fn lemma_lcm_factors(a: nat, b: nat)
    requires
        a > 0,
        b > 0,
    ensures
        lcm_rec(a, b) == a * (b / gcd_rec(a, b)),
        lcm_rec(a, b) == b * (a / gcd_rec(a, b)),
        lcm_rec(a, b) / a == b / gcd_rec(a, b),
        lcm_rec(a, b) / b == a / gcd_rec(a, b),
        lcm_rec(a, b) > 0,
        lcm_rec(a, b) <= a * b,
        a / gcd_rec(a, b) <= a,
        b / gcd_rec(a, b) <= b,
        a / gcd_rec(a, b) > 0,
        b / gcd_rec(a, b) > 0,
{
    let g: nat = gcd_rec(a, b);
    lemma_gcd_pos(a, b);
    lemma_gcd_divides(a, b);
    let ka: int = choose|k: int| a as int == #[trigger] (g as int * k);
    let kb: int = choose|k: int| b as int == #[trigger] (g as int * k);
    lemma_div_multiples_vanish(ka, g as int);
    lemma_div_multiples_vanish(kb, g as int);
    assert(a as int / g as int == ka);
    assert(b as int / g as int == kb);
    assert(ka > 0 && kb > 0 && ka <= a && kb <= b) by (nonlinear_arith)
        requires
            a as int == g as int * ka,
            b as int == g as int * kb,
            a > 0,
            b > 0,
            g > 0,
    ;
    assert(a as int * b as int == g as int * (ka * (b as int))) by (nonlinear_arith)
        requires
            a as int == g as int * ka,
    ;
    lemma_div_multiples_vanish(ka * (b as int), g as int);
    assert((a * b) as int / g as int == ka * (b as int));
    assert(ka * (b as int) == b as int * ka) by (nonlinear_arith);
    assert(ka * (b as int) == a as int * kb) by (nonlinear_arith)
        requires
            a as int == g as int * ka,
            b as int == g as int * kb,
    ;
    lemma_div_multiples_vanish(kb, a as int);
    lemma_div_multiples_vanish(ka, b as int);
    assert((a as int * kb) / (a as int) == kb);
    assert((b as int * ka) / (b as int) == ka);
    assert(ka * (b as int) > 0 && ka * (b as int) <= a as int * b as int) by (nonlinear_arith)
        requires
            ka > 0,
            b > 0,
            ka <= a,
    ;
}

/// Computes the greatest common divisor by Euclid's algorithm.
pub fn gcd(n1: u128, n2: u128) -> (r: u128)
    requires
        n1 > 0 || n2 > 0,
    ensures
        r as nat == gcd_rec(n1 as nat, n2 as nat),
        r > 0,
{
    let mut x: u128 = n1;
    let mut y: u128 = n2;
    while y != 0
        invariant
            x > 0 || y > 0,
            gcd_rec(x as nat, y as nat) == gcd_rec(n1 as nat, n2 as nat),
        decreases y,
    {
        let remainder: u128 = x % y;
        x = y;
        y = remainder;
    }
    proof {
        lemma_gcd_pos(n1 as nat, n2 as nat);
    }
    x
}

/// Computes the least common multiple as the product divided by the
/// greatest common divisor.
pub fn lcm(n1: u128, n2: u128) -> (r: u128)
    requires
        n1 > 0,
        n2 > 0,
        n1 * n2 <= u128::MAX,
    ensures
        r as nat == lcm_rec(n1 as nat, n2 as nat),
{
    let g: u128 = gcd(n1, n2);
    (n1 * n2) / g
}

} // verus!
