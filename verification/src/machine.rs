//! The floating-point side of the host, as a value.
//!
//! The library decides; it does not add, divide or print doubles. Where it
//! needs a sum or a decimal rendering it asks the [`Machine`] that its caller
//! hands in: two functions, one for arithmetic on [`Num`]s, one for rendering.
//!
//! Contracts speak of a machine through [`Fp`], a pair of mathematical
//! functions. `machine.follows(fp)` says that every answer the machine can
//! give is the one that `fp` names, and a function that asks the machine
//! states its result for every `fp` that the machine follows.

use crate::num::{unit, Num, ONE, ZERO};
use vstd::prelude::*;

verus! {

/// One question of arithmetic.
#[derive(Clone, Copy, Debug)]
pub enum Calc {
    /// The sum of two numbers.
    Add(Num, Num),
    /// The first number less the second.
    Sub(Num, Num),
    /// The product of two numbers.
    Mul(Num, Num),
    /// The first number divided by the second.
    Div(Num, Num),
    /// The natural logarithm.
    Ln(Num),
    /// The double nearest to an integer.
    Count(u64),
}

/// How a number is rendered in decimal.
#[derive(Clone, Copy, Debug)]
pub struct Style {
    /// Digits after the point; `None` for the shortest text that reads back
    /// as the same number.
    pub places: Option<usize>,
    /// Write a plus sign before a number that is not negative.
    pub plus: bool,
}

/// 2^53: up to here every integer is a double.
pub const MOST_COUNT: u64 = 0x20_0000_0000_0000;

/// `c` is the exact sum of `a` and `b`.
pub open spec fn is_sum(a: Num, b: Num, c: Num) -> bool {
    a.finite() && b.finite() && c.finite() && a.value() + b.value() == c.value()
}

/// `c` is the exact product of `a` and `b`.
pub open spec fn is_product(a: Num, b: Num, c: Num) -> bool {
    a.finite() && b.finite() && c.finite() && a.value() * b.value() == c.value() * unit()
}

/// `x` without its sign.
pub open spec fn size(x: int) -> int {
    if x < 0 {
        -x
    } else {
        x
    }
}

/// `y` differs from `x` by no more than the 2^-52nd part of `x`.
pub open spec fn near(x: int, y: int) -> bool {
    0x10_0000_0000_0000 * size(x - y) <= size(x)
}

/// The answers of a machine, as mathematical functions.
pub struct Fp {
    pub calc: spec_fn(Calc) -> Num,
    pub show: spec_fn(Num, Style) -> Seq<char>,
}

impl Fp {
    pub open spec fn add(self, a: Num, b: Num) -> Num {
        (self.calc)(Calc::Add(a, b))
    }

    pub open spec fn sub(self, a: Num, b: Num) -> Num {
        (self.calc)(Calc::Sub(a, b))
    }

    pub open spec fn mul(self, a: Num, b: Num) -> Num {
        (self.calc)(Calc::Mul(a, b))
    }

    pub open spec fn div(self, a: Num, b: Num) -> Num {
        (self.calc)(Calc::Div(a, b))
    }

    pub open spec fn ln(self, a: Num) -> Num {
        (self.calc)(Calc::Ln(a))
    }

    pub open spec fn count(self, n: int) -> Num {
        (self.calc)(Calc::Count(n as u64))
    }

    /// How far two numbers lie apart.
    pub open spec fn gap(self, a: Num, b: Num) -> Num {
        self.sub(a, b).unsigned()
    }

    /// Rounding keeps order and signs, as that of IEEE 754 arithmetic does.
    #[verifier::opaque]
    pub open spec fn orderly(self) -> bool {
        let zero = Num { bits: ZERO };
        &&& forall|a: Num, b: Num|
            a.finite() && b.finite() ==> !(#[trigger] self.add(a, b)).nan()
        &&& forall|a: Num, b: Num|
            a.finite() && b.finite() ==> {
                &&& !(#[trigger] self.sub(a, b)).nan()
                &&& self.sub(a, b).rank() == -self.sub(b, a).rank()
            }
        &&& forall|a: Num, b: Num|
            a.finite() && b.finite() ==> !(#[trigger] self.mul(a, b)).nan()
        &&& forall|a: Num, b: Num|
            a.finite() && b.finite() && b.rank() != 0 ==> !(#[trigger] self.div(a, b)).nan()
        &&& forall|a: Num, b: Num| a.below(b) ==> (#[trigger] self.sub(a, b)).below(zero)
        &&& forall|a: Num, b: Num| b.below(a) ==> zero.below(#[trigger] self.sub(a, b))
        &&& forall|a: Num, b: Num| a.equals(b) ==> !zero.below(#[trigger] self.sub(a, b))
        &&& forall|a: Num, b: Num, c: Num|
            b.at_most(c) ==> !(#[trigger] self.add(a, c)).below(#[trigger] self.add(a, b))
        &&& forall|a: Num, b: Num, c: Num|
            b.at_most(c) ==> !(#[trigger] self.add(c, a)).below(#[trigger] self.add(b, a))
        &&& forall|a: Num, b: Num, c: Num|
            b.at_most(c) ==> !(#[trigger] self.sub(c, a)).below(#[trigger] self.sub(b, a))
        &&& forall|a: Num, b: Num, c: Num|
            b.at_most(c) ==> !(#[trigger] self.sub(a, b)).below(#[trigger] self.sub(a, c))
        &&& forall|a: Num, b: Num, c: Num|
            zero.at_most(a) && b.at_most(c) ==> !(#[trigger] self.mul(a, c)).below(
                #[trigger] self.mul(a, b),
            )
        &&& forall|a: Num, b: Num, c: Num|
            zero.at_most(a) && b.at_most(c) ==> !(#[trigger] self.mul(c, a)).below(
                #[trigger] self.mul(b, a),
            )
        &&& forall|a: Num, b: Num, c: Num|
            a.at_most(zero) && b.at_most(c) ==> !(#[trigger] self.mul(a, b)).below(
                #[trigger] self.mul(a, c),
            )
        &&& forall|a: Num, b: Num, c: Num|
            a.at_most(zero) && b.at_most(c) ==> !(#[trigger] self.mul(b, a)).below(
                #[trigger] self.mul(c, a),
            )
        &&& forall|a: Num, b: Num, c: Num|
            zero.below(a) && b.at_most(c) ==> !(#[trigger] self.div(c, a)).below(
                #[trigger] self.div(b, a),
            )
        &&& forall|a: Num, b: Num, c: Num|
            a.below(zero) && b.at_most(c) ==> !(#[trigger] self.div(b, a)).below(
                #[trigger] self.div(c, a),
            )
        &&& forall|a: Num, b: Num, c: Num|
            zero.at_most(a) && zero.below(b) && b.at_most(c) ==> !(#[trigger] self.div(a, b)).below(
                #[trigger] self.div(a, c),
            )
    }

    /// A result that a double can hold is given without rounding, and integers
    /// up to 2^53 are held as they are, as in IEEE 754 arithmetic. The sign of
    /// a zero is left open.
    pub open spec fn exact(self) -> bool {
        &&& forall|a: Num, b: Num, c: Num| #[trigger]
            is_sum(a, b, c) ==> self.add(a, b).equals(c) && self.sub(c, b).equals(a)
        &&& forall|a: Num, b: Num, c: Num| #[trigger]
            is_product(a, b, c) ==> {
                &&& self.mul(a, b).equals(c)
                &&& b.value() != 0 ==> self.div(c, b).equals(a)
            }
        &&& forall|n: int|
            0 <= n <= MOST_COUNT ==> {
                &&& (#[trigger] self.count(n)).finite()
                &&& !self.count(n).negative()
                &&& self.count(n).value() == n * unit()
            }
    }

    /// A result is rounded by no more than its 2^-52nd part, as in IEEE 754
    /// arithmetic, where it neither overflows nor underflows.
    pub open spec fn close(self) -> bool {
        &&& forall|a: Num, b: Num|
            a.finite() && b.finite() && (#[trigger] self.add(a, b)).finite() ==> near(
                a.value() + b.value(),
                self.add(a, b).value(),
            )
        &&& forall|a: Num, b: Num|
            a.finite() && b.finite() && (#[trigger] self.sub(a, b)).finite() ==> near(
                a.value() - b.value(),
                self.sub(a, b).value(),
            )
        &&& forall|a: Num, b: Num|
            a.finite() && b.finite() && (#[trigger] self.mul(a, b)).normal() ==> near(
                a.value() * b.value(),
                self.mul(a, b).value() * unit(),
            )
        &&& forall|a: Num, b: Num|
            a.finite() && b.finite() && b.rank() != 0 && (#[trigger] self.div(a, b)).normal()
                ==> near(a.value() * unit(), self.div(a, b).value() * b.value())
    }

    /// A product neither overflows nor underflows.
    pub open spec fn holds_product(self, a: Num, b: Num) -> bool {
        a.finite() && b.finite() && (self.mul(a, b).normal() || a.rank() == 0 || b.rank() == 0)
    }

    /// A quotient neither overflows nor underflows, and its divisor is not
    /// zero.
    pub open spec fn holds_quotient(self, a: Num, b: Num) -> bool {
        a.finite() && b.finite() && b.rank() != 0 && (self.div(a, b).normal() || a.rank() == 0)
    }

    /// Equal numbers give equal results, as in IEEE 754 arithmetic: the sign of
    /// a zero shows nowhere but in what is divided by it.
    pub open spec fn fair(self) -> bool {
        &&& forall|a: Num, b: Num, c: Num, d: Num|
            a.alike(c) && b.alike(d) ==> (#[trigger] self.add(a, b)).alike(
                #[trigger] self.add(c, d),
            )
        &&& forall|a: Num, b: Num, c: Num, d: Num|
            a.alike(c) && b.alike(d) ==> (#[trigger] self.sub(a, b)).alike(
                #[trigger] self.sub(c, d),
            )
        &&& forall|a: Num, b: Num, c: Num, d: Num|
            a.alike(c) && b.alike(d) ==> (#[trigger] self.mul(a, b)).alike(
                #[trigger] self.mul(c, d),
            )
        &&& forall|a: Num, b: Num, c: Num|
            a.alike(c) ==> (#[trigger] self.div(a, b)).alike(#[trigger] self.div(c, b))
    }

    /// Logarithms never fall where the number rises.
    pub open spec fn logs_rise(self) -> bool {
        forall|a: Num, b: Num|
            (Num { bits: ZERO }).below(a) && a.at_most(b) ==> !(#[trigger] self.ln(b)).below(
                #[trigger] self.ln(a),
            )
    }

    /// The number with so many digits after the point.
    pub open spec fn fixed(self, a: Num, places: usize) -> Seq<char> {
        (self.show)(a, Style { places: Some(places), plus: false })
    }

    /// The number with its sign, and so many digits after the point.
    pub open spec fn signed(self, a: Num, places: usize) -> Seq<char> {
        (self.show)(a, Style { places: Some(places), plus: true })
    }

    /// The shortest text that reads back as the number.
    pub open spec fn plain(self, a: Num) -> Seq<char> {
        (self.show)(a, Style { places: None, plus: false })
    }
}

/// What the library asks of the host: `calc` answers arithmetic, `show`
/// renders a number.
pub struct Machine<C, S> {
    pub calc: C,
    pub show: S,
}

impl<C: Fn(Calc) -> Num, S: Fn(Num, Style) -> String> Machine<C, S> {
    /// The machine takes every question.
    pub open spec fn total(self) -> bool {
        &&& forall|q: Calc| call_requires(self.calc, (q,))
        &&& forall|n: Num, s: Style| call_requires(self.show, (n, s))
    }

    /// Every answer that the machine can give is the one that `fp` names.
    pub open spec fn follows(self, fp: Fp) -> bool {
        &&& forall|q: Calc, r: Num| #[trigger]
            call_ensures(self.calc, (q,), r) ==> r == (fp.calc)(q)
        &&& forall|n: Num, s: Style, r: String| #[trigger]
            call_ensures(self.show, (n, s), r) ==> r@ == (fp.show)(n, s)
    }

    fn ask(&self, q: Calc) -> (r: Num)
        requires
            self.total(),
        ensures
            forall|fp: Fp| #[trigger] self.follows(fp) ==> r == (fp.calc)(q),
    {
        let calc = &self.calc;
        calc(q)
    }

    fn render(&self, a: Num, style: Style) -> (r: String)
        requires
            self.total(),
        ensures
            forall|fp: Fp| #[trigger] self.follows(fp) ==> r@ == (fp.show)(a, style),
    {
        let show = &self.show;
        show(a, style)
    }

    /// `a + b`.
    pub fn add(&self, a: Num, b: Num) -> (r: Num)
        requires
            self.total(),
        ensures
            forall|fp: Fp| #[trigger] self.follows(fp) ==> r == fp.add(a, b),
    {
        self.ask(Calc::Add(a, b))
    }

    /// `a - b`.
    pub fn sub(&self, a: Num, b: Num) -> (r: Num)
        requires
            self.total(),
        ensures
            forall|fp: Fp| #[trigger] self.follows(fp) ==> r == fp.sub(a, b),
    {
        self.ask(Calc::Sub(a, b))
    }

    /// `a * b`.
    pub fn mul(&self, a: Num, b: Num) -> (r: Num)
        requires
            self.total(),
        ensures
            forall|fp: Fp| #[trigger] self.follows(fp) ==> r == fp.mul(a, b),
    {
        self.ask(Calc::Mul(a, b))
    }

    /// `a / b`.
    pub fn div(&self, a: Num, b: Num) -> (r: Num)
        requires
            self.total(),
        ensures
            forall|fp: Fp| #[trigger] self.follows(fp) ==> r == fp.div(a, b),
    {
        self.ask(Calc::Div(a, b))
    }

    /// The natural logarithm of `a`.
    pub fn ln(&self, a: Num) -> (r: Num)
        requires
            self.total(),
        ensures
            forall|fp: Fp| #[trigger] self.follows(fp) ==> r == fp.ln(a),
    {
        self.ask(Calc::Ln(a))
    }

    /// The double nearest to `n`.
    pub fn count(&self, n: u64) -> (r: Num)
        requires
            self.total(),
        ensures
            forall|fp: Fp| #[trigger] self.follows(fp) ==> r == fp.count(n as int),
    {
        self.ask(Calc::Count(n))
    }

    /// `|a - b|`.
    pub fn gap(&self, a: Num, b: Num) -> (r: Num)
        requires
            self.total(),
        ensures
            forall|fp: Fp| #[trigger] self.follows(fp) ==> r == fp.gap(a, b),
    {
        self.sub(a, b).abs()
    }

    /// The number with so many digits after the point.
    pub fn fixed(&self, a: Num, places: usize) -> (r: String)
        requires
            self.total(),
        ensures
            forall|fp: Fp| #[trigger] self.follows(fp) ==> r@ == fp.fixed(a, places),
    {
        self.render(a, Style { places: Some(places), plus: false })
    }

    /// The number with its sign, and so many digits after the point.
    pub fn signed(&self, a: Num, places: usize) -> (r: String)
        requires
            self.total(),
        ensures
            forall|fp: Fp| #[trigger] self.follows(fp) ==> r@ == fp.signed(a, places),
    {
        self.render(a, Style { places: Some(places), plus: true })
    }

    /// The shortest text that reads back as the number.
    pub fn plain(&self, a: Num) -> (r: String)
        requires
            self.total(),
        ensures
            forall|fp: Fp| #[trigger] self.follows(fp) ==> r@ == fp.plain(a),
    {
        self.render(a, Style { places: None, plus: false })
    }
}

/// What exact arithmetic gives where zero or one takes part, and where a
/// number meets itself.
pub(crate) proof fn lemma_neutral(fp: Fp, a: Num)
    requires
        fp.exact(),
        a.finite(),
    ensures
        fp.add(a, Num { bits: ZERO }).equals(a),
        fp.sub(a, Num { bits: ZERO }).equals(a),
        fp.sub(a, a).equals(Num { bits: ZERO }),
        fp.mul(a, Num { bits: ZERO }).equals(Num { bits: ZERO }),
        fp.mul(a, Num { bits: ONE }).equals(a),
        fp.mul(Num { bits: ONE }, a).equals(a),
        fp.div(a, Num { bits: ONE }).equals(a),
        a.rank() != 0 ==> fp.div(a, a).equals(Num { bits: ONE }),
        a.rank() != 0 ==> fp.div(Num { bits: ZERO }, a).equals(Num { bits: ZERO }),
{
    let (zero, one) = (Num { bits: ZERO }, Num { bits: ONE });
    crate::num::lemma_zero_and_one();
    crate::num::law_rank_orders_values(a, zero);
    assert(is_sum(a, zero, a));
    assert(is_sum(zero, a, a));
    assert(a.value() * one.value() == a.value() * unit());
    assert(one.value() * a.value() == a.value() * unit()) by (nonlinear_arith)
        requires
            one.value() == unit(),
    ;
    assert(is_product(a, one, a));
    assert(is_product(one, a, a));
    assert(a.value() * zero.value() == zero.value() * unit()) by (nonlinear_arith)
        requires
            zero.value() == 0,
    ;
    assert(zero.value() * a.value() == zero.value() * unit()) by (nonlinear_arith)
        requires
            zero.value() == 0,
    ;
    assert(is_product(a, zero, zero));
    assert(is_product(zero, a, zero));
}

/// A difference has the sign that it should have, and turning it round turns
/// its sign.
pub(crate) proof fn lemma_difference(fp: Fp, a: Num, b: Num)
    requires
        fp.orderly(),
        a.finite(),
        b.finite(),
    ensures
        !fp.sub(a, b).nan(),
        fp.sub(a, b).rank() == -fp.sub(b, a).rank(),
        a.below(b) ==> fp.sub(a, b).rank() < 0,
        b.below(a) ==> fp.sub(a, b).rank() > 0,
{
    reveal(Fp::orderly);
}

/// Sums rise with either part.
pub(crate) proof fn lemma_sums_rise(fp: Fp, a: Num, b: Num, c: Num)
    requires
        fp.orderly(),
        a.finite(),
        b.finite(),
        c.finite(),
        b.at_most(c),
    ensures
        fp.add(a, b).at_most(fp.add(a, c)),
        fp.add(b, a).at_most(fp.add(c, a)),
{
    reveal(Fp::orderly);
    assert(!fp.add(a, b).nan() && !fp.add(a, c).nan());
    assert(!fp.add(b, a).nan() && !fp.add(c, a).nan());
}

/// Differences rise with what is taken from, and fall with what is taken.
pub(crate) proof fn lemma_differences_rise(fp: Fp, a: Num, b: Num, c: Num)
    requires
        fp.orderly(),
        a.finite(),
        b.finite(),
        c.finite(),
        b.at_most(c),
    ensures
        fp.sub(b, a).at_most(fp.sub(c, a)),
        fp.sub(a, c).at_most(fp.sub(a, b)),
{
    reveal(Fp::orderly);
    assert(!fp.sub(b, a).nan() && !fp.sub(c, a).nan());
    assert(!fp.sub(a, b).nan() && !fp.sub(a, c).nan());
}

/// Products with a number that is not negative rise with the other factor.
pub(crate) proof fn lemma_products_rise(fp: Fp, a: Num, b: Num, c: Num)
    requires
        fp.orderly(),
        a.finite(),
        b.finite(),
        c.finite(),
        a.rank() >= 0,
        b.at_most(c),
    ensures
        fp.mul(a, b).at_most(fp.mul(a, c)),
        fp.mul(b, a).at_most(fp.mul(c, a)),
{
    reveal(Fp::orderly);
    assert(!fp.mul(a, b).nan() && !fp.mul(a, c).nan());
    assert(!fp.mul(b, a).nan() && !fp.mul(c, a).nan());
}

/// Products with a number that is not positive fall where the other factor
/// rises.
pub(crate) proof fn lemma_negative_products_fall(fp: Fp, a: Num, b: Num, c: Num)
    requires
        fp.orderly(),
        a.finite(),
        b.finite(),
        c.finite(),
        a.rank() <= 0,
        b.at_most(c),
    ensures
        fp.mul(a, c).at_most(fp.mul(a, b)),
        fp.mul(c, a).at_most(fp.mul(b, a)),
{
    reveal(Fp::orderly);
    assert(!fp.mul(a, b).nan() && !fp.mul(a, c).nan());
    assert(!fp.mul(b, a).nan() && !fp.mul(c, a).nan());
}

/// Quotients by a positive number rise with what is divided.
pub(crate) proof fn lemma_quotients_rise(fp: Fp, a: Num, b: Num, c: Num)
    requires
        fp.orderly(),
        a.finite(),
        b.finite(),
        c.finite(),
        a.rank() > 0,
        b.at_most(c),
    ensures
        fp.div(b, a).at_most(fp.div(c, a)),
{
    reveal(Fp::orderly);
    assert(!fp.div(b, a).nan() && !fp.div(c, a).nan());
}

/// Quotients by a negative number fall where what is divided rises.
pub(crate) proof fn lemma_negative_quotients_fall(fp: Fp, a: Num, b: Num, c: Num)
    requires
        fp.orderly(),
        a.finite(),
        b.finite(),
        c.finite(),
        a.rank() < 0,
        b.at_most(c),
    ensures
        fp.div(c, a).at_most(fp.div(b, a)),
{
    reveal(Fp::orderly);
    assert(!fp.div(b, a).nan() && !fp.div(c, a).nan());
}

/// Quotients of a number that is not negative fall with the divisor.
pub(crate) proof fn lemma_quotients_fall(fp: Fp, a: Num, b: Num, c: Num)
    requires
        fp.orderly(),
        a.finite(),
        b.finite(),
        c.finite(),
        a.rank() >= 0,
        0 < b.rank() <= c.rank(),
    ensures
        fp.div(a, c).at_most(fp.div(a, b)),
{
    reveal(Fp::orderly);
    assert(!fp.div(a, b).nan() && !fp.div(a, c).nan());
}

/// A product that neither overflows nor underflows is near to the exact one.
pub(crate) proof fn lemma_near_product(fp: Fp, a: Num, b: Num)
    requires
        fp.exact(),
        fp.close(),
        fp.holds_product(a, b),
    ensures
        fp.mul(a, b).finite(),
        near(a.value() * b.value(), fp.mul(a, b).value() * unit()),
{
    let zero = Num { bits: ZERO };
    crate::num::lemma_zero_and_one();
    crate::num::law_rank_orders_values(a, zero);
    crate::num::law_rank_orders_values(b, zero);
    if a.rank() == 0 || b.rank() == 0 {
        assert(a.value() * b.value() == 0) by (nonlinear_arith)
            requires
                a.value() == 0 || b.value() == 0,
        ;
        assert(is_product(a, b, zero));
        let r = fp.mul(a, b);
        crate::num::law_rank_orders_values(r, zero);
        assert(r.value() * unit() == 0) by (nonlinear_arith)
            requires
                r.value() == 0,
        ;
    }
}

/// A quotient that neither overflows nor underflows is near to the exact one.
pub(crate) proof fn lemma_near_quotient(fp: Fp, a: Num, b: Num)
    requires
        fp.exact(),
        fp.close(),
        fp.holds_quotient(a, b),
    ensures
        fp.div(a, b).finite(),
        near(a.value() * unit(), fp.div(a, b).value() * b.value()),
{
    let zero = Num { bits: ZERO };
    crate::num::lemma_zero_and_one();
    crate::num::law_rank_orders_values(a, zero);
    crate::num::law_rank_orders_values(b, zero);
    if a.rank() == 0 {
        assert(zero.value() * b.value() == a.value() * unit()) by (nonlinear_arith)
            requires
                zero.value() == 0,
                a.value() == 0,
        ;
        assert(is_product(zero, b, a));
        let r = fp.div(a, b);
        crate::num::law_rank_orders_values(r, zero);
        assert(r.value() * b.value() == 0 && a.value() * unit() == 0) by (nonlinear_arith)
            requires
                r.value() == 0,
                a.value() == 0,
        ;
    }
}

/// `|a * b|` is `|a| * |b|`.
pub(crate) proof fn lemma_size_of_product(a: int, b: int)
    ensures
        size(a * b) == size(a) * size(b),
{
    assert(size(a * b) == size(a) * size(b)) by (nonlinear_arith);
}

/// What is near was near before both were multiplied.
pub(crate) proof fn lemma_near_unscaled(x: int, y: int, u: int)
    requires
        u > 0,
        near(x * u, y * u),
    ensures
        near(x, y),
{
    let e = 0x10_0000_0000_0000int;
    lemma_size_of_product(x, u);
    lemma_size_of_product(x - y, u);
    assert((x - y) * u == x * u - y * u) by (nonlinear_arith);
    let (d, n) = (size(x - y), size(x));
    assert(e * d <= n) by (nonlinear_arith)
        requires
            e * (d * u) <= n * u,
            u > 0,
    {
        assert((e * d) * u <= n * u);
    }
}

/// What is near stays near when both are multiplied.
pub(crate) proof fn lemma_near_scaled(x: int, y: int, k: int)
    requires
        near(x, y),
    ensures
        near(k * x, k * y),
{
    let e = 0x10_0000_0000_0000int;
    lemma_size_of_product(k, x - y);
    lemma_size_of_product(k, x);
    assert(k * (x - y) == k * x - k * y) by (nonlinear_arith);
    let (d, n, m) = (size(x - y), size(x), size(k));
    assert(e * (m * d) <= m * n) by (nonlinear_arith)
        requires
            e * d <= n,
            0 <= m,
    {
        assert(m * (e * d) <= m * n);
        assert(m * (e * d) == e * (m * d));
    }
}

/// How the roundings of a slope add up.
pub(crate) proof fn lemma_slope_bound(u: int, rise0: int, run0: int, rise: int, run: int, slope: int)
    requires
        u > 0,
        near(rise0, rise),
        near(run0, run),
        near(rise * u, slope * run),
    ensures
        0x10_0000_0000_0000 * size(slope * run0 - rise0 * u) <= 4 * (size(rise0) * u),
{
    lemma_near_scaled(run0, run, slope);
    lemma_near_scaled(rise0, rise, u);
    lemma_size_of_product(rise0, u);
    assert(u * rise0 == rise0 * u && u * rise == rise * u) by (nonlinear_arith);
}

/// A gap is the distance of two numbers: it is never negative, is the same
/// both ways round, and is the exact distance up to rounding.
pub proof fn law_a_gap_is_the_distance(fp: Fp, a: Num, b: Num)
    requires
        fp.orderly(),
        fp.close(),
        a.finite(),
        b.finite(),
        fp.sub(a, b).finite(),
    ensures
        !fp.gap(a, b).nan(),
        fp.gap(a, b).rank() >= 0,
        fp.gap(a, b).rank() == fp.gap(b, a).rank(),
        near(size(a.value() - b.value()), fp.gap(a, b).value()),
{
    lemma_difference(fp, a, b);
    let d = fp.sub(a, b);
    crate::num::law_unsigned_is_the_size(d);
    assert(near(a.value() - b.value(), d.value()));
}

/// Each operation is the question of its name, with its numbers in their order,
/// and each rendering is in the style of its name.
pub proof fn law_every_question_is_asked_as_it_stands(fp: Fp, a: Num, b: Num, n: u64, places: usize)
    ensures
        fp.add(a, b) == (fp.calc)(Calc::Add(a, b)),
        fp.sub(a, b) == (fp.calc)(Calc::Sub(a, b)),
        fp.mul(a, b) == (fp.calc)(Calc::Mul(a, b)),
        fp.div(a, b) == (fp.calc)(Calc::Div(a, b)),
        fp.ln(a) == (fp.calc)(Calc::Ln(a)),
        fp.count(n as int) == (fp.calc)(Calc::Count(n)),
        fp.fixed(a, places) == (fp.show)(a, Style { places: Some(places), plus: false }),
        fp.signed(a, places) == (fp.show)(a, Style { places: Some(places), plus: true }),
        fp.plain(a) == (fp.show)(a, Style { places: None, plus: false }),
{
}

/// A machine follows every pair of functions that name all the answers it can
/// give, and takes every question where its two parts do.
pub proof fn law_a_machine_follows_its_answers<
    C: Fn(Calc) -> Num,
    S: Fn(Num, Style) -> String,
>(machine: Machine<C, S>, fp: Fp)
    ensures
        machine.follows(fp) <==> (forall|q: Calc, r: Num| #[trigger]
            call_ensures(machine.calc, (q,), r) ==> r == (fp.calc)(q)) && (forall|
            n: Num,
            s: Style,
            r: String,
        | #[trigger]
            call_ensures(machine.show, (n, s), r) ==> r@ == (fp.show)(n, s)),
        (forall|q: Calc| call_requires(machine.calc, (q,))) && (forall|n: Num, s: Style|
            call_requires(machine.show, (n, s))) ==> machine.total(),
{
}

} // verus!
