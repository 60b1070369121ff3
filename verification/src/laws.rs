//! The algebraic laws of the fraction type, stated over its
//! mathematical model and proved for every canonical value.

use vstd::prelude::*;
use vstd::arithmetic::power::{pow, lemma_pow1, lemma_pow_adds, lemma_pow_positive};
use vstd::std_specs::cmp::PartialOrdSpec;
use crate::euclid::lemma_reduced_unique;
use crate::fraction::{
    Fraction,
    dec_digits, lemma_dec_digits_shape, lemma_dec_digits_injective,
    Rat, rat_lt, rat_le, rat_reduced, rat_norm, rat_add, rat_sub, rat_mul, rat_div,
    rat_pow, rat_int, lemma_norm_reduced, lemma_norm_ratio, lemma_norm_identity,
    lemma_norm_of_eq,
};

verus! {

/// Equal products with a positive common factor have equal other factors.
proof fn lemma_cancel_factor(p: int, q: int, m: int)
    by (nonlinear_arith)
    requires
        p * m == q * m,
        m > 0,
    ensures
        p == q,
{
}

/// A power of a natural number is non-negative.
proof fn lemma_pow_nonneg(b: nat, e: nat)
    ensures
        pow(b as int, e) >= 0,
    decreases e,
{
    reveal(pow);
    if e > 0 {
        lemma_pow_nonneg(b, (e - 1) as nat);
        assert(b as int * pow(b as int, (e - 1) as nat) >= 0) by (nonlinear_arith)
            requires
                pow(b as int, (e - 1) as nat) >= 0,
                b >= 0,
        ;
    }
}

/// Law: normalization is idempotent — reducing an already reduced
/// pair changes nothing, so `simplify(simplify(x)) == simplify(x)`.
pub proof fn lemma_simplify_idempotent(x: Rat)
    requires
        x.b > 0,
    ensures
        rat_norm(rat_norm(x)) == rat_norm(x),
{
    lemma_norm_reduced(x);
    lemma_norm_identity(rat_norm(x));
}

/// Law: the additive round trip — for canonical `x` and `y`,
/// `(x + y) - y == x`.
pub proof fn lemma_add_sub_round_trip(x: Rat, y: Rat)
    requires
        rat_reduced(x),
        rat_reduced(y),
    ensures
        rat_le(y, rat_add(x, y)),
        rat_sub(rat_add(x, y), y) == x,
{
    let s: Rat = Rat { t: x.t * y.b + y.t * x.b, b: x.b * y.b };
    assert(s.b > 0) by (nonlinear_arith)
        requires
            s.b == x.b * y.b,
            x.b > 0,
            y.b > 0,
    ;
    let a: Rat = rat_add(x, y);
    lemma_norm_reduced(s);
    lemma_norm_ratio(s);
    assert(rat_le(y, a)) by (nonlinear_arith)
        requires
            a.t * s.b == s.t * a.b,
            s.t == x.t * y.b + y.t * x.b,
            s.b == x.b * y.b,
            s.b > 0,
            a.b > 0,
            x.t >= 0,
            x.b > 0,
            y.t >= 0,
            y.b > 0,
            rat_le(y, a) == (y.t * a.b <= a.t * y.b),
    ;
    let dd: Rat = Rat { t: (a.t * y.b - y.t * a.b) as nat, b: a.b * y.b };
    assert(dd.b > 0) by (nonlinear_arith)
        requires
            dd.b == a.b * y.b,
            a.b > 0,
            y.b > 0,
    ;
    assert(dd.t * x.b == x.t * dd.b) by (nonlinear_arith)
        requires
            a.t * s.b == s.t * a.b,
            s.t == x.t * y.b + y.t * x.b,
            s.b == x.b * y.b,
            dd.t == a.t * y.b - y.t * a.b,
            dd.b == a.b * y.b,
            y.t * a.b <= a.t * y.b,
    ;
    lemma_norm_of_eq(dd, x);
    lemma_norm_identity(x);
}

/// Law: the subtractive round trip — for canonical `x >= y`,
/// `(x - y) + y == x`.
#[verifier::rlimit(60)]
pub proof fn lemma_sub_add_round_trip(x: Rat, y: Rat)
    requires
        rat_reduced(x),
        rat_reduced(y),
        rat_le(y, x),
    ensures
        rat_add(rat_sub(x, y), y) == x,
{
    let dd: Rat = Rat { t: (x.t * y.b - y.t * x.b) as nat, b: x.b * y.b };
    assert(dd.b > 0) by (nonlinear_arith)
        requires
            dd.b == x.b * y.b,
            x.b > 0,
            y.b > 0,
    ;
    let d: Rat = rat_sub(x, y);
    lemma_norm_reduced(dd);
    lemma_norm_ratio(dd);
    let s: Rat = Rat { t: d.t * y.b + y.t * d.b, b: d.b * y.b };
    assert(s.b > 0) by (nonlinear_arith)
        requires
            s.b == d.b * y.b,
            d.b > 0,
            y.b > 0,
    ;
    assert(s.t * x.b * (x.b * y.b) == x.t * s.b * (x.b * y.b)) by (nonlinear_arith)
        requires
            d.t * dd.b == dd.t * d.b,
            dd.t == x.t * y.b - y.t * x.b,
            dd.b == x.b * y.b,
            s.t == d.t * y.b + y.t * d.b,
            s.b == d.b * y.b,
            y.t * x.b <= x.t * y.b,
    ;
    lemma_cancel_factor((s.t * x.b) as int, (x.t * s.b) as int, (x.b * y.b) as int);
    lemma_norm_of_eq(s, x);
    lemma_norm_identity(x);
}

/// Law: the multiplicative round trip — for canonical `x` and
/// non-zero canonical `y`, `(x * y) / y == x`.
pub proof fn lemma_mul_div_round_trip(x: Rat, y: Rat)
    requires
        rat_reduced(x),
        rat_reduced(y),
        y.t > 0,
    ensures
        rat_div(rat_mul(x, y), y) == x,
{
    let p: Rat = Rat { t: x.t * y.t, b: x.b * y.b };
    assert(p.b > 0) by (nonlinear_arith)
        requires
            p.b == x.b * y.b,
            x.b > 0,
            y.b > 0,
    ;
    let m: Rat = rat_mul(x, y);
    lemma_norm_reduced(p);
    lemma_norm_ratio(p);
    let dd: Rat = Rat { t: m.t * y.b, b: m.b * y.t };
    assert(dd.b > 0) by (nonlinear_arith)
        requires
            dd.b == m.b * y.t,
            m.b > 0,
            y.t > 0,
    ;
    assert(dd.t * x.b * (y.t as int) == x.t * dd.b * (y.t as int)) by (nonlinear_arith)
        requires
            m.t * p.b == p.t * m.b,
            p.t == x.t * y.t,
            p.b == x.b * y.b,
            dd.t == m.t * y.b,
            dd.b == m.b * y.t,
    ;
    lemma_cancel_factor((dd.t * x.b) as int, (x.t * dd.b) as int, y.t as int);
    lemma_norm_of_eq(dd, x);
    lemma_norm_identity(x);
}

/// Law: the zeroth power of any fraction is one.
pub proof fn lemma_powi_zero(x: Rat)
    ensures
        rat_pow(x, 0) == rat_int(1),
{
    reveal(pow);
    assert(1nat % 1nat == 0);
    assert(crate::euclid::gcd_rec(1, 0) == 1);
    assert(crate::euclid::gcd_rec(1, 1) == crate::euclid::gcd_rec(1, 0));
    assert(1nat / 1nat == 1nat);
}

/// Law: the first power of a canonical fraction is itself.
pub proof fn lemma_powi_one(x: Rat)
    requires
        rat_reduced(x),
    ensures
        rat_pow(x, 1) == x,
{
    lemma_pow1(x.t as int);
    lemma_pow1(x.b as int);
    lemma_norm_identity(x);
}

/// Law: powers add — for canonical `x`,
/// `x.powi(m + n) == x.powi(m) * x.powi(n)`.
pub proof fn lemma_powi_adds(x: Rat, m: nat, n: nat)
    requires
        rat_reduced(x),
    ensures
        rat_pow(x, m + n) == rat_mul(rat_pow(x, m), rat_pow(x, n)),
{
    lemma_pow_adds(x.t as int, m, n);
    lemma_pow_adds(x.b as int, m, n);
    lemma_pow_nonneg(x.t, m);
    lemma_pow_nonneg(x.t, n);
    lemma_pow_positive(x.b as int, m);
    lemma_pow_positive(x.b as int, n);
    let tm: nat = pow(x.t as int, m) as nat;
    let bm: nat = pow(x.b as int, m) as nat;
    let tn: nat = pow(x.t as int, n) as nat;
    let bn: nat = pow(x.b as int, n) as nat;
    let whole: Rat = Rat { t: tm * tn, b: bm * bn };
    assert(whole.b > 0) by (nonlinear_arith)
        requires
            whole.b == bm * bn,
            bm > 0,
            bn > 0,
    ;
    let pm: Rat = rat_pow(x, m);
    let pn: Rat = rat_pow(x, n);
    lemma_norm_reduced(Rat { t: tm, b: bm });
    lemma_norm_ratio(Rat { t: tm, b: bm });
    lemma_norm_reduced(Rat { t: tn, b: bn });
    lemma_norm_ratio(Rat { t: tn, b: bn });
    let prod: Rat = Rat { t: pm.t * pn.t, b: pm.b * pn.b };
    assert(prod.b > 0) by (nonlinear_arith)
        requires
            prod.b == pm.b * pn.b,
            pm.b > 0,
            pn.b > 0,
    ;
    assert(prod.t * whole.b == whole.t * prod.b) by (nonlinear_arith)
        requires
            pm.t * bm == tm * pm.b,
            pn.t * bn == tn * pn.b,
            prod.t == pm.t * pn.t,
            prod.b == pm.b * pn.b,
            whole.t == tm * tn,
            whole.b == bm * bn,
    ;
    lemma_norm_of_eq(whole, prod);
}

/// Law: the comparison is a strict total order on canonical values —
/// exactly one of `x < y`, `x == y`, `y < x` holds.
pub proof fn lemma_compare_trichotomy(x: Rat, y: Rat)
    requires
        rat_reduced(x),
        rat_reduced(y),
    ensures
        rat_lt(x, y) || x == y || rat_lt(y, x),
        rat_lt(x, y) ==> x != y && !rat_lt(y, x),
        x == y ==> !rat_lt(x, y) && !rat_lt(y, x),
        rat_lt(y, x) ==> x != y && !rat_lt(x, y),
{
    if x.t * y.b == y.t * x.b {
        lemma_reduced_unique(x.t, x.b, y.t, y.b);
    }
}

/// Law: the comparison is transitive.
pub proof fn lemma_compare_transitive(x: Rat, y: Rat, z: Rat)
    requires
        rat_reduced(x),
        rat_reduced(y),
        rat_reduced(z),
        rat_lt(x, y),
        rat_lt(y, z),
    ensures
        rat_lt(x, z),
{
    assert(x.t * z.b < z.t * x.b) by (nonlinear_arith)
        requires
            x.t * y.b < y.t * x.b,
            y.t * z.b < z.t * y.b,
            x.b > 0,
            y.b > 0,
            z.b > 0,
    ;
}

/// Law: the display round trip — rebuilding a canonical fraction from
/// its rendered numerator and denominator through the normalizing
/// constructor yields the very same fraction.
pub proof fn lemma_display_round_trip(x: Rat)
    requires
        rat_reduced(x),
    ensures
        rat_norm(x) == x,
{
    lemma_norm_identity(x);
}

/// Law: the rendering is injective on canonical fractions — two
/// canonical fractions with the same rendered text are the same, so
/// a parse of that text can only rebuild the original value.
pub proof fn lemma_display_injective(x: Rat, y: Rat)
    requires
        rat_reduced(x),
        rat_reduced(y),
        dec_digits(x.t).push('/') + dec_digits(x.b)
            == dec_digits(y.t).push('/') + dec_digits(y.b),
    ensures
        x == y,
{
    let s: Seq<char> = dec_digits(x.t).push('/') + dec_digits(x.b);
    let i1: int = dec_digits(x.t).len() as int;
    let i2: int = dec_digits(y.t).len() as int;
    lemma_dec_digits_shape(x.t);
    lemma_dec_digits_shape(x.b);
    lemma_dec_digits_shape(y.t);
    lemma_dec_digits_shape(y.b);
    assert(s[i1] == '/');
    assert(s[i2] == '/');
    if i1 < i2 {
        assert(s[i1] == dec_digits(y.t)[i1]);
        assert(false);
    }
    if i2 < i1 {
        assert(s[i2] == dec_digits(x.t)[i2]);
        assert(false);
    }
    assert forall|j: int| 0 <= j < i1 implies dec_digits(x.t)[j] == dec_digits(y.t)[j] by {
        assert(dec_digits(x.t)[j]
            == (dec_digits(x.t).push('/') + dec_digits(x.b))[j]);
        assert(dec_digits(y.t)[j]
            == (dec_digits(y.t).push('/') + dec_digits(y.b))[j]);
    }
    assert(dec_digits(x.t) =~= dec_digits(y.t));
    lemma_dec_digits_injective(x.t, y.t);
    assert((dec_digits(x.t).push('/') + dec_digits(x.b)).len()
        == i1 + 1 + dec_digits(x.b).len());
    assert((dec_digits(y.t).push('/') + dec_digits(y.b)).len()
        == i2 + 1 + dec_digits(y.b).len());
    assert(dec_digits(x.b).len() == dec_digits(y.b).len());
    assert forall|j: int| 0 <= j < dec_digits(x.b).len()
        implies dec_digits(x.b)[j] == dec_digits(y.b)[j] by {
        assert(dec_digits(x.b)[j]
            == (dec_digits(x.t).push('/') + dec_digits(x.b))[i1 + 1 + j]);
        assert(dec_digits(y.b)[j]
            == (dec_digits(y.t).push('/') + dec_digits(y.b))[i1 + 1 + j]);
    }
    assert(dec_digits(x.b) =~= dec_digits(y.b));
    lemma_dec_digits_injective(x.b, y.b);
}

/// Law: on canonical fractions the exact comparison is total and
/// agrees with structural equality — value equality and field
/// equality coincide.
pub proof fn lemma_compare_matches_equality(a: Fraction, b: Fraction)
    requires
        a.wf(),
        b.wf(),
    ensures
        (a.partial_cmp_spec(&b) == Some(core::cmp::Ordering::Equal)) <==> a == b,
        (a.partial_cmp_spec(&b) == Some(core::cmp::Ordering::Less)) <==> rat_lt(a@, b@),
        (a.partial_cmp_spec(&b) == Some(core::cmp::Ordering::Greater)) <==> rat_lt(b@, a@),
{
    lemma_compare_trichotomy(a@, b@);
    if a@ == b@ {
        assert(a == b);
    }
}

} // verus!
