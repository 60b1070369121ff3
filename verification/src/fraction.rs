//! A non-negative rational number held as an unsigned 128-bit
//! numerator and denominator in lowest terms, with exact arithmetic.

use vstd::prelude::*;
use vstd::string::StringExecFns;
use vstd::arithmetic::div_mod::lemma_div_multiples_vanish;
use vstd::arithmetic::power::{pow, lemma_pow_increases, lemma_pow_positive, lemma0_pow};
use crate::euclid::{
    lemma_lcm_factors,
    divides, gcd_rec, coprime, lcm_rec, gcd, lcm, lemma_divides_mul, lemma_gcd_pos,
    lemma_gcd_divides, lemma_gcd_reduced, lemma_gcd_sym, lemma_coprime_of_divisor,
    lemma_coprime_mul, lemma_reduced_unique,
};

verus! {

/// The mathematical value of a fraction: a numerator and a positive
/// denominator, unbounded, used only in specifications.
pub struct Rat {
    pub t: nat,
    pub b: nat,
}

/// Two pairs name the same rational number: equal cross products.
pub open spec fn rat_eq(x: Rat, y: Rat) -> bool {
    x.t * y.b == y.t * x.b
}

/// `x` is strictly below `y` as a rational number.
pub open spec fn rat_lt(x: Rat, y: Rat) -> bool {
    x.t * y.b < y.t * x.b
}

/// `x` is at most `y` as a rational number.
pub open spec fn rat_le(x: Rat, y: Rat) -> bool {
    x.t * y.b <= y.t * x.b
}

/// A pair in canonical lowest-terms form.
pub open spec fn rat_reduced(x: Rat) -> bool {
    x.b > 0 && coprime(x.t, x.b)
}

/// The canonical lowest-terms form of a pair.
pub open spec fn rat_norm(x: Rat) -> Rat {
    let g = gcd_rec(x.t, x.b);
    Rat { t: x.t / g, b: x.b / g }
}

/// The rational number `n`.
pub open spec fn rat_int(n: nat) -> Rat {
    Rat { t: n, b: 1 }
}

/// The sum, in canonical form.
pub open spec fn rat_add(x: Rat, y: Rat) -> Rat {
    rat_norm(Rat { t: x.t * y.b + y.t * x.b, b: x.b * y.b })
}

/// The difference, in canonical form; meaningful when `y <= x`.
pub open spec fn rat_sub(x: Rat, y: Rat) -> Rat
    recommends
        rat_le(y, x),
{
    rat_norm(Rat { t: (x.t * y.b - y.t * x.b) as nat, b: x.b * y.b })
}

/// The product, in canonical form.
pub open spec fn rat_mul(x: Rat, y: Rat) -> Rat {
    rat_norm(Rat { t: x.t * y.t, b: x.b * y.b })
}

/// The quotient, in canonical form; meaningful when `y` is not zero.
pub open spec fn rat_div(x: Rat, y: Rat) -> Rat
    recommends
        y.t > 0,
{
    rat_norm(Rat { t: x.t * y.b, b: x.b * y.t })
}

/// The `e`-th power, in canonical form.
pub open spec fn rat_pow(x: Rat, e: nat) -> Rat {
    rat_norm(Rat { t: pow(x.t as int, e) as nat, b: pow(x.b as int, e) as nat })
}

/// Normalization yields a canonical pair.
pub proof fn lemma_norm_reduced(x: Rat)
    requires
        x.b > 0,
    ensures
        rat_reduced(rat_norm(x)),
{
    let g: nat = gcd_rec(x.t, x.b);
    lemma_gcd_pos(x.t, x.b);
    lemma_gcd_divides(x.t, x.b);
    lemma_gcd_reduced(x.t, x.b);
    let kb: int = choose|k: int| x.b as int == #[trigger] (g as int * k);
    lemma_div_multiples_vanish(kb, g as int);
    assert(x.b as int / g as int == kb);
    assert(kb > 0) by (nonlinear_arith)
        requires
            x.b as int == g as int * kb,
            x.b > 0,
            g > 0,
    ;
}

/// Normalization keeps the rational value.
pub proof fn lemma_norm_ratio(x: Rat)
    requires
        x.b > 0,
    ensures
        rat_eq(rat_norm(x), x),
{
    let g: nat = gcd_rec(x.t, x.b);
    lemma_gcd_pos(x.t, x.b);
    lemma_gcd_divides(x.t, x.b);
    let kt: int = choose|k: int| x.t as int == #[trigger] (g as int * k);
    let kb: int = choose|k: int| x.b as int == #[trigger] (g as int * k);
    lemma_div_multiples_vanish(kt, g as int);
    lemma_div_multiples_vanish(kb, g as int);
    assert(x.t as int / g as int == kt);
    assert(x.b as int / g as int == kb);
    assert(kt * (x.b as int) == (x.t as int) * kb) by (nonlinear_arith)
        requires
            x.t as int == g as int * kt,
            x.b as int == g as int * kb,
    ;
}

/// Normalizing an already canonical pair changes nothing.
pub proof fn lemma_norm_identity(x: Rat)
    requires
        rat_reduced(x),
    ensures
        rat_norm(x) == x,
{
    assert(x.t as nat / 1 == x.t);
    assert(x.b as nat / 1 == x.b);
}

/// Naming the same rational number is transitive when the middle
/// denominator is positive.
pub proof fn lemma_rat_eq_trans(x: Rat, y: Rat, z: Rat)
    requires
        rat_eq(x, y),
        rat_eq(y, z),
        y.b > 0,
    ensures
        rat_eq(x, z),
{
    assert(x.t * z.b == z.t * x.b) by (nonlinear_arith)
        requires
            x.t * y.b == y.t * x.b,
            y.t * z.b == z.t * y.b,
            y.b > 0,
    ;
}

/// Pairs naming the same rational number normalize to the same
/// canonical pair.
pub proof fn lemma_norm_of_eq(x: Rat, y: Rat)
    requires
        x.b > 0,
        y.b > 0,
        rat_eq(x, y),
    ensures
        rat_norm(x) == rat_norm(y),
{
    lemma_norm_reduced(x);
    lemma_norm_reduced(y);
    lemma_norm_ratio(x);
    lemma_norm_ratio(y);
    lemma_rat_eq_trans(rat_norm(x), x, y);
    lemma_rat_eq_trans(rat_norm(x), y, rat_norm(y));
    lemma_reduced_unique(rat_norm(x).t, rat_norm(x).b, rat_norm(y).t, rat_norm(y).b);
}

/// A non-negative rational number, kept in canonical lowest-terms
/// form by every operation: the numerator and denominator share no
/// divisor above one, and the denominator is positive.
#[derive(Clone, Copy, Debug, PartialEq, Eq, Structural)]
pub struct Fraction {
    pub top: u128,
    pub bottom: u128,
}

impl View for Fraction {
    type V = Rat;

    open spec fn view(&self) -> Rat {
        Rat { t: self.top as nat, b: self.bottom as nat }
    }
}

impl Fraction {
    /// The type's invariant: the held pair is in canonical form.
    pub open spec fn wf(self) -> bool {
        rat_reduced(self@)
    }

    /// Constructs the fraction `top / bottom`, reduced to lowest terms.
    pub fn new(top: u128, bottom: u128) -> (r: Self)
        requires
            bottom != 0,
        ensures
            r@ == rat_norm((Rat { t: top as nat, b: bottom as nat })),
            r.wf(),
    {
        let g: u128 = gcd(top, bottom);
        let r = Fraction { top: top / g, bottom: bottom / g };
        proof {
            lemma_norm_reduced(Rat { t: top as nat, b: bottom as nat });
        }
        r
    }

    /// Returns this value reduced to lowest terms.
    pub fn simplify(self) -> (r: Self)
        requires
            self.bottom != 0,
        ensures
            r@ == rat_norm(self@),
            r.wf(),
    {
        Self::new(self.top, self.bottom)
    }

    /// Reduces this value to lowest terms in place.
    pub fn simplify_mut(&mut self)
        requires
            old(self).bottom != 0,
        ensures
            final(self)@ == rat_norm(old(self)@),
            final(self).wf(),
    {
        let g: u128 = gcd(self.top, self.bottom);
        self.top = self.top / g;
        self.bottom = self.bottom / g;
        proof {
            lemma_norm_reduced(old(self)@);
        }
    }

    /// Adds two canonical fractions over the least common denominator.
    pub fn add(self, rhs: Self) -> (r: Self)
        requires
            self.wf(),
            rhs.wf(),
            self.bottom * rhs.bottom <= u128::MAX,
            self.top * (lcm_rec(self.bottom as nat, rhs.bottom as nat) / self.bottom as nat)
                + rhs.top * (lcm_rec(self.bottom as nat, rhs.bottom as nat) / rhs.bottom as nat)
                <= u128::MAX,
        ensures
            r@ == rat_add(self@, rhs@),
            r.wf(),
    {
        proof {
            lemma_lcm_factors(self.bottom as nat, rhs.bottom as nat);
        }
        let l: u128 = lcm(self.bottom, rhs.bottom);
        let f1: u128 = l / self.bottom;
        let f2: u128 = l / rhs.bottom;
        let first_top: u128 = self.top * f1;
        let second_top: u128 = rhs.top * f2;
        let top: u128 = first_top + second_top;
        let r = Self::new(top, l);
        proof {
            let num: Rat = Rat {
                t: self.top as nat * rhs.bottom as nat + rhs.top as nat * self.bottom as nat,
                b: self.bottom as nat * rhs.bottom as nat,
            };
            assert(num.b > 0) by (nonlinear_arith)
                requires
                    num.b == self.bottom as nat * rhs.bottom as nat,
                    self.bottom > 0,
                    rhs.bottom > 0,
            ;
            assert(top as nat * num.b == num.t * l as nat) by (nonlinear_arith)
                requires
                    l as nat == rhs.bottom as nat * (f2 as nat),
                    l as nat == self.bottom as nat * (f1 as nat),
                    top == self.top * f1 + rhs.top * f2,
                    num.t == self.top * rhs.bottom + rhs.top * self.bottom,
                    num.b == self.bottom * rhs.bottom,
            ;
            lemma_norm_of_eq(Rat { t: top as nat, b: l as nat }, num);
        }
        r
    }

    /// Adds in place.
    pub fn add_assign(&mut self, rhs: Self)
        requires
            old(self).wf(),
            rhs.wf(),
            old(self).bottom * rhs.bottom <= u128::MAX,
            old(self).top
                * (lcm_rec(old(self).bottom as nat, rhs.bottom as nat)
                    / old(self).bottom as nat)
                + rhs.top
                    * (lcm_rec(old(self).bottom as nat, rhs.bottom as nat)
                        / rhs.bottom as nat) <= u128::MAX,
        ensures
            final(self)@ == rat_add(old(self)@, rhs@),
            final(self).wf(),
    {
        let s = *self;
        *self = s.add(rhs);
    }

    /// Subtracts a smaller (or equal) canonical fraction from this one.
    pub fn sub(self, rhs: Self) -> (r: Self)
        requires
            self.wf(),
            rhs.wf(),
            rat_le(rhs@, self@),
            self.bottom * rhs.bottom <= u128::MAX,
            self.top * (lcm_rec(self.bottom as nat, rhs.bottom as nat) / self.bottom as nat)
                <= u128::MAX,
        ensures
            r@ == rat_sub(self@, rhs@),
            r.wf(),
    {
        proof {
            lemma_lcm_factors(self.bottom as nat, rhs.bottom as nat);
        }
        let l: u128 = lcm(self.bottom, rhs.bottom);
        let f1: u128 = l / self.bottom;
        let f2: u128 = l / rhs.bottom;
        proof {
            assert(rhs.top * f2 <= self.top * f1) by (nonlinear_arith)
                requires
                    rhs.top * self.bottom <= self.top * rhs.bottom,
                    l as nat == rhs.bottom as nat * (f2 as nat),
                    l as nat == self.bottom as nat * (f1 as nat),
                    self.bottom > 0,
                    rhs.bottom > 0,
                    f1 >= 0,
                    f2 >= 0,
                    self.top >= 0,
                    rhs.top >= 0,
            ;
        }
        let first_top: u128 = self.top * f1;
        let second_top: u128 = rhs.top * f2;
        let top: u128 = first_top - second_top;
        let r = Self::new(top, l);
        proof {
            let num: Rat = Rat {
                t: (self.top as nat * rhs.bottom as nat - rhs.top as nat * self.bottom as nat) as nat,
                b: self.bottom as nat * rhs.bottom as nat,
            };
            assert(num.b > 0) by (nonlinear_arith)
                requires
                    num.b == self.bottom as nat * rhs.bottom as nat,
                    self.bottom > 0,
                    rhs.bottom > 0,
            ;
            assert(top as nat * num.b == num.t * l as nat) by (nonlinear_arith)
                requires
                    l as nat == rhs.bottom as nat * (f2 as nat),
                    l as nat == self.bottom as nat * (f1 as nat),
                    top == self.top * f1 - rhs.top * f2,
                    num.t == self.top * rhs.bottom - rhs.top * self.bottom,
                    num.b == self.bottom * rhs.bottom,
            ;
            lemma_norm_of_eq(Rat { t: top as nat, b: l as nat }, num);
        }
        r
    }

    /// Multiplies two canonical fractions.
    pub fn mul(self, rhs: Self) -> (r: Self)
        requires
            self.wf(),
            rhs.wf(),
            self.top * rhs.top <= u128::MAX,
            self.bottom * rhs.bottom <= u128::MAX,
        ensures
            r@ == rat_mul(self@, rhs@),
            r.wf(),
    {
        proof {
            assert(self.bottom * rhs.bottom > 0) by (nonlinear_arith)
                requires
                    self.bottom > 0,
                    rhs.bottom > 0,
            ;
        }
        Self::new(self.top * rhs.top, self.bottom * rhs.bottom)
    }

    /// Divides by a non-zero canonical fraction.
    pub fn div(self, rhs: Self) -> (r: Self)
        requires
            self.wf(),
            rhs.wf(),
            rhs.top != 0,
            self.top * rhs.bottom <= u128::MAX,
            self.bottom * rhs.top <= u128::MAX,
        ensures
            r@ == rat_div(self@, rhs@),
            r.wf(),
    {
        proof {
            assert(self.bottom * rhs.top > 0) by (nonlinear_arith)
                requires
                    self.bottom > 0,
                    rhs.top > 0,
            ;
        }
        Self::new(self.top * rhs.bottom, self.bottom * rhs.top)
    }

    /// Divides in place by a non-zero canonical fraction.
    pub fn div_assign(&mut self, rhs: Self)
        requires
            old(self).wf(),
            rhs.wf(),
            rhs.top != 0,
            old(self).top * rhs.bottom <= u128::MAX,
            old(self).bottom * rhs.top <= u128::MAX,
        ensures
            final(self)@ == rat_div(old(self)@, rhs@),
            final(self).wf(),
    {
        let s = *self;
        *self = s.div(rhs);
    }

    /// Raises the fraction to a non-negative integer power.
    pub fn powi(self, power: u32) -> (r: Self)
        requires
            self.wf(),
            pow(self.top as int, power as nat) <= u128::MAX,
            pow(self.bottom as int, power as nat) <= u128::MAX,
        ensures
            r@ == rat_pow(self@, power as nat),
            r.wf(),
    {
        proof {
            reveal(pow);
        }
        let mut new_top: u128 = 1;
        let mut new_bottom: u128 = 1;
        let mut i: u32 = 0;
        while i < power
            invariant
                i <= power,
                self.wf(),
                new_top as int == pow(self.top as int, i as nat),
                new_bottom as int == pow(self.bottom as int, i as nat),
                pow(self.top as int, power as nat) <= u128::MAX,
                pow(self.bottom as int, power as nat) <= u128::MAX,
            decreases power - i,
        {
            proof {
                reveal(pow);
                assert(pow(self.top as int, (i + 1) as nat)
                    == self.top as int * pow(self.top as int, i as nat));
                assert(pow(self.bottom as int, (i + 1) as nat)
                    == self.bottom as int * pow(self.bottom as int, i as nat));
                if self.top == 0 {
                    lemma0_pow((i + 1) as nat);
                } else {
                    lemma_pow_increases(self.top as nat, (i + 1) as nat, power as nat);
                }
                lemma_pow_increases(self.bottom as nat, (i + 1) as nat, power as nat);
                lemma_pow_positive(self.bottom as int, i as nat);
                if self.top > 0 {
                    lemma_pow_positive(self.top as int, i as nat);
                }
                assert(new_top as int * self.top as int == self.top as int * new_top as int)
                    by (nonlinear_arith);
                assert(new_bottom as int * self.bottom as int
                    == self.bottom as int * new_bottom as int) by (nonlinear_arith);
            }
            new_top = new_top * self.top;
            new_bottom = new_bottom * self.bottom;
            i = i + 1;
        }
        proof {
            lemma_pow_positive(self.bottom as int, power as nat);
        }
        Self::new(new_top, new_bottom)
    }

    /// Multiplies by an integer, cancelling its common factor with the
    /// denominator first so the numerator grows no more than needed.
    pub fn multiply_by_integer(self, rhs: u128) -> (r: Self)
        requires
            self.wf(),
            self.top * (rhs as nat / gcd_rec(self.bottom as nat, rhs as nat)) <= u128::MAX,
        ensures
            r@ == rat_mul(self@, rat_int(rhs as nat)),
            r.wf(),
    {
        let g: u128 = gcd(self.bottom, rhs);
        let leftover: u128 = rhs / g;
        proof {
            lemma_gcd_divides(self.bottom as nat, rhs as nat);
            let kb: int = choose|k: int| self.bottom as int == #[trigger] (g as int * k);
            let kr: int = choose|k: int| rhs as int == #[trigger] (g as int * k);
            lemma_div_multiples_vanish(kb, g as int);
            lemma_div_multiples_vanish(kr, g as int);
            assert(self.bottom as int / g as int == kb);
            assert(rhs as int / g as int == kr);
            assert(kb > 0 && kr >= 0) by (nonlinear_arith)
                requires
                    self.bottom as int == g as int * kb,
                    rhs as int == g as int * kr,
                    g > 0,
                    self.bottom > 0,
                    rhs >= 0,
            ;
            lemma_gcd_reduced(self.bottom as nat, rhs as nat);
            lemma_gcd_sym((kb as nat), (kr as nat));
            assert(divides(kb, self.bottom as int)) by {
                assert(self.bottom as int == kb * (g as int)) by (nonlinear_arith)
                    requires
                        self.bottom as int == g as int * kb,
                ;
                lemma_divides_mul(kb, g as int);
            }
            lemma_gcd_sym(self.top as nat, self.bottom as nat);
            lemma_coprime_of_divisor(self.top as nat, self.bottom as nat, kb as nat);
            lemma_coprime_mul(self.top as nat, kr as nat, kb as nat);
        }
        let r = Fraction { top: self.top * leftover, bottom: self.bottom / g };
        proof {
            let num: Rat = Rat { t: self.top as nat * rhs as nat, b: self.bottom as nat * 1 };
            assert(r@.t * num.b == num.t * r@.b) by (nonlinear_arith)
                requires
                    r@.t == self.top as nat * (leftover as nat),
                    self.bottom as nat == g as nat * r@.b,
                    rhs as nat == g as nat * (leftover as nat),
                    num.t == self.top as nat * rhs as nat,
                    num.b == self.bottom as nat * 1,
            ;
            lemma_norm_of_eq(r@, num);
            lemma_norm_identity(r@);
        }
        r
    }

    /// Divides in place by a positive integer: an exact numerator
    /// division when possible, otherwise a denominator scaling.
    pub fn divide_by_integer(&mut self, n: u128)
        requires
            old(self).wf(),
            n > 0,
            old(self).top as nat % (n as nat) == 0 || old(self).bottom * n <= u128::MAX,
        ensures
            final(self)@ == rat_div(old(self)@, rat_int(n as nat)),
            final(self).wf(),
    {
        let num: Ghost<Rat> = Ghost(
            Rat { t: old(self)@.t * 1, b: old(self)@.b * (n as nat) },
        );
        if self.top % n == 0 {
            let kt: u128 = self.top / n;
            proof {
                let t0: nat = old(self)@.t;
                let b0: nat = old(self)@.b;
                vstd::arithmetic::div_mod::lemma_fundamental_div_mod(t0 as int, n as int);
                assert(t0 == n as nat * (kt as nat));
                if kt == 0 {
                    assert(t0 == 0) by (nonlinear_arith)
                        requires
                            t0 == n as nat * (kt as nat),
                            kt == 0,
                    ;
                    lemma_gcd_sym(0, b0);
                    assert(b0 == 1);
                } else {
                    assert(divides(kt as int, t0 as int)) by {
                        assert(t0 as int == kt as int * n as int) by (nonlinear_arith)
                            requires
                                t0 == n as nat * (kt as nat),
                        ;
                        lemma_divides_mul(kt as int, n as int);
                    }
                    lemma_gcd_sym(t0, b0);
                    lemma_coprime_of_divisor(b0, t0, kt as nat);
                    lemma_gcd_sym(b0, kt as nat);
                }
            }
            self.top = kt;
            proof {
                let t0: nat = old(self)@.t;
                let b0: nat = old(self)@.b;
                let m: Rat = num@;
                let cur: Rat = self@;
                assert(cur.t * m.b == m.t * cur.b) by (nonlinear_arith)
                    requires
                        t0 == n as nat * cur.t,
                        m.t == t0 * 1,
                        m.b == b0 * (n as nat),
                        cur.b == b0,
                ;
                assert(m.b > 0) by (nonlinear_arith)
                    requires
                        m.b == b0 * (n as nat),
                        b0 > 0,
                        n > 0,
                ;
                lemma_norm_of_eq(cur, m);
                lemma_norm_identity(cur);
            }
        } else {
            proof {
                let b0: nat = old(self)@.b;
                assert(b0 * (n as nat) > 0) by (nonlinear_arith)
                    requires
                        b0 > 0,
                        n > 0,
                ;
            }
            self.bottom = self.bottom * n;
            self.simplify_mut();
        }
    }

    /// Subtracts a whole number in place; the value must stay
    /// non-negative.
    pub fn subtract_integer(&mut self, n: u128)
        requires
            old(self).wf(),
            old(self).bottom * n <= old(self).top,
        ensures
            final(self)@ == rat_sub(old(self)@, rat_int(n as nat)),
            final(self).wf(),
    {
        self.top = self.top - self.bottom * n;
        self.simplify_mut();
        proof {
            let t0: nat = old(self)@.t;
            let b0: nat = old(self)@.b;
            assert(t0 * 1 - (n as nat) * b0 == t0 - b0 * (n as nat)) by (nonlinear_arith);
            assert(b0 * 1 == b0) by (nonlinear_arith);
        }
    }

    /// Renders the fraction as `"top/bottom"` over the reduced fields.
    pub fn display(&self) -> (r: String)
        ensures
            r@ == dec_digits(self.top as nat).push('/') + dec_digits(self.bottom as nat),
    {
        let mut s: String = u128_to_decimal(self.top);
        s.append("/");
        let second: String = u128_to_decimal(self.bottom);
        s.append(second.as_str());
        proof {
            reveal_strlit("/");
            assert(s@ =~= dec_digits(self.top as nat).push('/')
                + dec_digits(self.bottom as nat));
        }
        s
    }

}

/// The character for one decimal digit.
pub open spec fn digit_char(d: nat) -> char {
    if d == 0 {
        '0'
    } else if d == 1 {
        '1'
    } else if d == 2 {
        '2'
    } else if d == 3 {
        '3'
    } else if d == 4 {
        '4'
    } else if d == 5 {
        '5'
    } else if d == 6 {
        '6'
    } else if d == 7 {
        '7'
    } else if d == 8 {
        '8'
    } else {
        '9'
    }
}

/// The decimal digits of `n`, most significant first.
pub open spec fn dec_digits(n: nat) -> Seq<char>
    decreases n,
{
    if n < 10 {
        seq![digit_char(n)]
    } else {
        dec_digits(n / 10).push(digit_char(n % 10))
    }
}

/// Whether a character is a decimal digit character.
pub open spec fn is_digit_char(c: char) -> bool {
    c == '0' || c == '1' || c == '2' || c == '3' || c == '4' || c == '5' || c == '6'
        || c == '7' || c == '8' || c == '9'
}

/// A digit sequence is never empty and holds digit characters only.
pub proof fn lemma_dec_digits_shape(n: nat)
    ensures
        dec_digits(n).len() >= 1,
        forall|i: int|
            0 <= i < dec_digits(n).len() ==> is_digit_char(#[trigger] dec_digits(n)[i]),
    decreases n,
{
    if n < 10 {
    } else {
        lemma_dec_digits_shape(n / 10);
        assert forall|i: int|
            0 <= i < dec_digits(n).len() implies is_digit_char(dec_digits(n)[i]) by {
            if i < dec_digits(n / 10).len() {
                assert(dec_digits(n)[i] == dec_digits(n / 10)[i]);
            } else {
                assert(dec_digits(n)[i] == digit_char(n % 10));
            }
        }
    }
}

/// Distinct numbers have distinct decimal digit sequences.
pub proof fn lemma_dec_digits_injective(m: nat, n: nat)
    requires
        dec_digits(m) == dec_digits(n),
    ensures
        m == n,
    decreases m,
{
    if m < 10 && n < 10 {
        assert(seq![digit_char(m)][0] == digit_char(m));
        assert(seq![digit_char(n)][0] == digit_char(n));
        assert(dec_digits(m)[0] == dec_digits(n)[0]);
        assert(digit_char(m) == digit_char(n));
        assert(m == n);
    } else if m < 10 {
        lemma_dec_digits_shape(n / 10);
        assert(dec_digits(n).len() >= 2);
        assert(false);
    } else if n < 10 {
        lemma_dec_digits_shape(m / 10);
        assert(dec_digits(m).len() >= 2);
        assert(false);
    } else {
        let dm: Seq<char> = dec_digits(m / 10);
        let dn: Seq<char> = dec_digits(n / 10);
        assert(dec_digits(m).last() == digit_char(m % 10));
        assert(dec_digits(n).last() == digit_char(n % 10));
        assert(m % 10 == n % 10);
        assert(dm =~= dec_digits(m).drop_last());
        assert(dn =~= dec_digits(n).drop_last());
        lemma_dec_digits_injective(m / 10, n / 10);
        vstd::arithmetic::div_mod::lemma_fundamental_div_mod(m as int, 10);
        vstd::arithmetic::div_mod::lemma_fundamental_div_mod(n as int, 10);
        assert(m as int == 10 * (m as int / 10) + (m as int) % 10);
        assert(n as int == 10 * (n as int / 10) + (n as int) % 10);
        assert(m == n);
    }
}

/// Relies on the standard library's `Display` for `u128`, documented
/// to render the value in decimal digits.
#[verifier::external_body]
fn u128_to_decimal(n: u128) -> (r: String)
    ensures
        r@ == dec_digits(n as nat),
{
    n.to_string()
}

/// Relates cross products of two division steps: the quotient order
/// decides the fraction order, and equal quotients reduce the
/// comparison to the remainders.
proof fn lemma_cmp_step(a: int, b: int, c: int, d: int, q1: int, r1: int, q2: int, r2: int)
    by (nonlinear_arith)
    requires
        b > 0,
        d > 0,
        a == b * q1 + r1,
        0 <= r1 < b,
        c == d * q2 + r2,
        0 <= r2 < d,
    ensures
        q1 < q2 ==> a * d < c * b,
        q1 > q2 ==> a * d > c * b,
        q1 == q2 ==> a * d - c * b == r1 * d - r2 * b,
{
}

/// The order of two integers as a three-way comparison value.
pub open spec fn ord_of(l: int, r: int) -> core::cmp::Ordering {
    if l < r {
        core::cmp::Ordering::Less
    } else if l == r {
        core::cmp::Ordering::Equal
    } else {
        core::cmp::Ordering::Greater
    }
}

/// Exact three-way comparison of `a / b` with `c / d` by Euclidean
/// descent on the integer parts; it never overflows.
fn cmp_parts(a: u128, b: u128, c: u128, d: u128) -> (r: core::cmp::Ordering)
    requires
        b > 0,
        d > 0,
    ensures
        r == ord_of((a as int) * (d as int), (c as int) * (b as int)),
    decreases b + d,
{
    let ghost lhs: int = (a as int) * (d as int);
    let ghost rhs: int = (c as int) * (b as int);
    let q1: u128 = a / b;
    let q2: u128 = c / d;
    let r1: u128 = a % b;
    let r2: u128 = c % d;
    proof {
        vstd::arithmetic::div_mod::lemma_fundamental_div_mod(a as int, b as int);
        vstd::arithmetic::div_mod::lemma_fundamental_div_mod(c as int, d as int);
        lemma_cmp_step(
            a as int, b as int, c as int, d as int,
            q1 as int, r1 as int, q2 as int, r2 as int,
        );
    }
    if q1 < q2 {
        proof {
            assert(lhs < rhs);
            assert(ord_of(lhs, rhs) == core::cmp::Ordering::Less);
        }
        core::cmp::Ordering::Less
    } else if q2 < q1 {
        proof {
            assert(lhs > rhs);
            assert(ord_of(lhs, rhs) == core::cmp::Ordering::Greater);
        }
        core::cmp::Ordering::Greater
    } else if r1 == 0 && r2 == 0 {
        proof {
            assert(lhs - rhs == (r1 as int) * (d as int) - (r2 as int) * (b as int));
            assert((r1 as int) * (d as int) == 0) by (nonlinear_arith)
                requires
                    r1 == 0,
            ;
            assert((r2 as int) * (b as int) == 0) by (nonlinear_arith)
                requires
                    r2 == 0,
            ;
            assert(ord_of(lhs, rhs) == core::cmp::Ordering::Equal);
        }
        core::cmp::Ordering::Equal
    } else if r1 == 0 {
        proof {
            assert((r1 as int) * (d as int) == 0) by (nonlinear_arith)
                requires
                    r1 == 0,
            ;
            assert((r2 as int) * (b as int) > 0) by (nonlinear_arith)
                requires
                    r2 > 0,
                    b > 0,
            ;
            assert(ord_of(lhs, rhs) == core::cmp::Ordering::Less);
        }
        core::cmp::Ordering::Less
    } else if r2 == 0 {
        proof {
            assert((r2 as int) * (b as int) == 0) by (nonlinear_arith)
                requires
                    r2 == 0,
            ;
            assert((r1 as int) * (d as int) > 0) by (nonlinear_arith)
                requires
                    r1 > 0,
                    d > 0,
            ;
            assert(ord_of(lhs, rhs) == core::cmp::Ordering::Greater);
        }
        core::cmp::Ordering::Greater
    } else {
        let r = cmp_parts(d, r2, b, r1);
        proof {
            assert((d as int) * (r1 as int) == (r1 as int) * (d as int)) by (nonlinear_arith);
            assert((b as int) * (r2 as int) == (r2 as int) * (b as int)) by (nonlinear_arith);
            assert(lhs - rhs == (r1 as int) * (d as int) - (r2 as int) * (b as int));
            assert(ord_of(lhs, rhs) == ord_of((d as int) * (r1 as int), (b as int) * (r2 as int)));
        }
        r
    }
}

impl vstd::std_specs::cmp::PartialOrdSpecImpl for Fraction {
    open spec fn obeys_partial_cmp_spec() -> bool {
        true
    }

    open spec fn partial_cmp_spec(&self, other: &Self) -> Option<core::cmp::Ordering> {
        if self.bottom == 0 || other.bottom == 0 {
            None
        } else if rat_lt(self@, other@) {
            Some(core::cmp::Ordering::Less)
        } else if rat_lt(other@, self@) {
            Some(core::cmp::Ordering::Greater)
        } else {
            Some(core::cmp::Ordering::Equal)
        }
    }
}

impl PartialOrd for Fraction {
    /// Orders fractions by their exact rational values; a pair with a
    /// zero denominator does not name a rational number and compares
    /// as `None`. On canonical values this agrees with structural
    /// equality, since equal values reduce to equal pairs.
    fn partial_cmp(&self, other: &Self) -> (r: Option<core::cmp::Ordering>) {
        if self.bottom == 0 || other.bottom == 0 {
            None
        } else if self.top == other.top && self.bottom == other.bottom {
            Some(core::cmp::Ordering::Equal)
        } else {
            Some(cmp_parts(self.top, self.bottom, other.top, other.bottom))
        }
    }
}

} // verus!
