//! A two-point linear wideband transfer function.

use super::error::{told, CalibrationError, ErrorView};
use super::{
    adc_to_volts, law_volts_rise_with_the_count, volts_at, ADC_COUNTS, ADC_REFERENCE_VOLTS,
};
use crate::machine::{
    is_product, is_sum, lemma_difference, lemma_differences_rise, lemma_near_product,
    lemma_near_quotient, lemma_neutral, lemma_products_rise, lemma_quotients_rise,
    lemma_size_of_product, lemma_slope_bound, lemma_sums_rise, near, size, Calc, Fp, Machine, Style,
};
use crate::num::{law_rank_orders_values, lemma_zero_and_one, unit, Num, ONE, ZERO};
use vstd::prelude::*;

verus! {

/// 1e-9: two points closer than this in volts describe no line.
pub const SAME_VOLTAGE: u64 = 0x3E11_2E0B_E826_D695;

/// A two-point linear wideband transfer function: the `linearGenerator` case,
/// and the form the plateau auto-calibration solves for.
///
/// Stored as the two measured points rather than slope and intercept, so that
/// exactly what was entered can be shown.
#[derive(Clone, Copy, Debug, PartialEq)]
pub struct LinearWideband {
    /// First calibration point, `(volts, afr)`.
    pub point1: (Num, Num),
    /// Second calibration point, `(volts, afr)`.
    pub point2: (Num, Num),
}

/// What is said of two points at one voltage.
pub open spec fn same_voltage_text(fp: Fp, volts: Num) -> Seq<char> {
    "the two calibration points must be at different voltages (both were "@ + fp.fixed(volts, 3)
        + " V)"@
}

/// The line through two points.
pub open spec fn line_of(fp: Fp, point1: (Num, Num), point2: (Num, Num)) -> Result<
    LinearWideband,
    ErrorView,
> {
    if fp.gap(point1.0, point2.0).below(Num { bits: SAME_VOLTAGE }) {
        Err(ErrorView::DegenerateInputs(same_voltage_text(fp, point1.0)))
    } else {
        Ok(LinearWideband { point1, point2 })
    }
}

impl LinearWideband {
    /// AFR per volt.
    pub open spec fn slope_of(self, fp: Fp) -> Num {
        fp.div(fp.sub(self.point2.1, self.point1.1), fp.sub(self.point2.0, self.point1.0))
    }

    /// AFR at 0 V.
    pub open spec fn intercept_of(self, fp: Fp) -> Num {
        fp.sub(self.point1.1, fp.mul(self.slope_of(fp), self.point1.0))
    }

    /// AFR at a given voltage.
    pub open spec fn afr_of(self, fp: Fp, volts: Num) -> Num {
        fp.add(self.intercept_of(fp), fp.mul(self.slope_of(fp), volts))
    }

    /// AFR per ADC count.
    pub open spec fn curve_of(self, fp: Fp) -> Seq<Num> {
        Seq::new(ADC_COUNTS as nat, |adc: int| self.afr_of(fp, volts_at(fp, adc)))
    }

    /// The transfer function in words.
    pub open spec fn text_of(self, fp: Fp) -> Seq<char> {
        let full = Num { bits: ADC_REFERENCE_VOLTS };
        fp.fixed(self.afr_of(fp, Num { bits: ZERO }), 2) + "–"@ + fp.fixed(
            self.afr_of(fp, full),
            2,
        ) + " AFR over 0–"@ + fp.fixed(full, 0) + " V ("@ + fp.fixed(self.slope_of(fp), 4)
            + " AFR/V)"@
    }

    /// Construct from two (volts, AFR) points.
    pub fn new<C: Fn(Calc) -> Num, S: Fn(Num, Style) -> String>(
        machine: &Machine<C, S>,
        point1: (Num, Num),
        point2: (Num, Num),
    ) -> (r: Result<Self, CalibrationError>)
        requires
            machine.total(),
        ensures
            forall|fp: Fp| #[trigger]
                machine.follows(fp) ==> told(r) == line_of(fp, point1, point2),
            r matches Ok(w) ==> w == (LinearWideband { point1, point2 }),
            r matches Err(e) ==> e is DegenerateInputs,
    {
        if machine.gap(point1.0, point2.0).lt(Num { bits: SAME_VOLTAGE }) {
            let volts = machine.fixed(point1.0, 3);
            let text = String::from_str(
                "the two calibration points must be at different voltages (both were ",
            ).concat(volts.as_str()).concat(" V)");
            return Err(CalibrationError::DegenerateInputs(text));
        }
        Ok(LinearWideband { point1, point2 })
    }

    /// AFR per volt.
    pub fn slope<C: Fn(Calc) -> Num, S: Fn(Num, Style) -> String>(
        &self,
        machine: &Machine<C, S>,
    ) -> (r: Num)
        requires
            machine.total(),
        ensures
            forall|fp: Fp| #[trigger] machine.follows(fp) ==> r == self.slope_of(fp),
    {
        machine.div(
            machine.sub(self.point2.1, self.point1.1),
            machine.sub(self.point2.0, self.point1.0),
        )
    }

    /// AFR at 0 V.
    pub fn intercept<C: Fn(Calc) -> Num, S: Fn(Num, Style) -> String>(
        &self,
        machine: &Machine<C, S>,
    ) -> (r: Num)
        requires
            machine.total(),
        ensures
            forall|fp: Fp| #[trigger] machine.follows(fp) ==> r == self.intercept_of(fp),
    {
        machine.sub(self.point1.1, machine.mul(self.slope(machine), self.point1.0))
    }

    /// AFR at a given voltage.
    pub fn afr_at_volts<C: Fn(Calc) -> Num, S: Fn(Num, Style) -> String>(
        &self,
        machine: &Machine<C, S>,
        volts: Num,
    ) -> (r: Num)
        requires
            machine.total(),
        ensures
            forall|fp: Fp| #[trigger] machine.follows(fp) ==> r == self.afr_of(fp, volts),
    {
        machine.add(self.intercept(machine), machine.mul(self.slope(machine), volts))
    }

    /// The full 1024-entry AFR curve this line produces.
    pub fn curve<C: Fn(Calc) -> Num, S: Fn(Num, Style) -> String>(
        &self,
        machine: &Machine<C, S>,
    ) -> (r: Vec<Num>)
        requires
            machine.total(),
        ensures
            r.len() == ADC_COUNTS,
            forall|fp: Fp| #[trigger] machine.follows(fp) ==> r@ == self.curve_of(fp),
            forall|fp: Fp, adc: int|
                #![trigger machine.follows(fp), r@[adc]]
                machine.follows(fp) && 0 <= adc < 1024 ==> r@[adc] == self.afr_of(
                    fp,
                    volts_at(fp, adc),
                ),
    {
        let mut out: Vec<Num> = Vec::new();
        while out.len() < ADC_COUNTS
            invariant
                machine.total(),
                out.len() <= ADC_COUNTS,
                forall|fp: Fp| #[trigger]
                    machine.follows(fp) ==> out@ =~= self.curve_of(fp).take(out.len() as int),
            decreases ADC_COUNTS - out.len(),
        {
            let volts = adc_to_volts(machine, out.len() as u16);
            out.push(self.afr_at_volts(machine, volts));
        }
        assert forall|fp: Fp| #[trigger] machine.follows(fp) implies out@ == self.curve_of(fp) by {
            assert(out@ =~= self.curve_of(fp));
        }
        out
    }

    /// Human-readable transfer function, stored with the tune so logs are
    /// self-describing.
    pub fn describe<C: Fn(Calc) -> Num, S: Fn(Num, Style) -> String>(
        &self,
        machine: &Machine<C, S>,
    ) -> (r: String)
        requires
            machine.total(),
        ensures
            forall|fp: Fp| #[trigger] machine.follows(fp) ==> r@ == self.text_of(fp),
    {
        let full = Num { bits: ADC_REFERENCE_VOLTS };
        let at_zero = self.afr_at_volts(machine, Num { bits: ZERO });
        let at_full = self.afr_at_volts(machine, full);
        machine.fixed(at_zero, 2).concat("–").concat(machine.fixed(at_full, 2).as_str()).concat(
            " AFR over 0–",
        ).concat(machine.fixed(full, 0).as_str()).concat(" V (").concat(
            machine.fixed(self.slope(machine), 4).as_str(),
        ).concat(" AFR/V)")
    }
}

impl LinearWideband {
    /// The same line, with its points the other way round.
    pub open spec fn turned(self) -> LinearWideband {
        LinearWideband { point1: self.point2, point2: self.point1 }
    }

    /// No step on the way from the two points to the AFR at a voltage is
    /// rounded.
    pub open spec fn unrounded(self, fp: Fp, volts: Num) -> bool {
        let ((x1, y1), (x2, y2)) = (self.point1, self.point2);
        let (rise, run) = (fp.sub(y2, y1), fp.sub(x2, x1));
        let slope = fp.div(rise, run);
        let (at_point, at_volts) = (fp.mul(slope, x1), fp.mul(slope, volts));
        let intercept = fp.sub(y1, at_point);
        &&& is_sum(rise, y1, y2)
        &&& is_sum(run, x1, x2)
        &&& run.rank() != 0
        &&& is_product(slope, run, rise)
        &&& is_product(slope, x1, at_point)
        &&& is_sum(intercept, at_point, y1)
        &&& is_product(slope, volts, at_volts)
        &&& is_sum(intercept, at_volts, fp.add(intercept, at_volts))
    }
}

/// What an unrounded line says at a voltage, in exact values.
proof fn lemma_on_the_line(fp: Fp, w: LinearWideband, volts: Num)
    requires
        w.unrounded(fp, volts),
    ensures
        ({
            let (x1, y1) = (w.point1.0.value(), w.point1.1.value());
            let (x2, y2) = (w.point2.0.value(), w.point2.1.value());
            let (v, afr) = (volts.value(), w.afr_of(fp, volts).value());
            &&& x2 - x1 != 0
            &&& (afr - y1) * (x2 - x1) == (y2 - y1) * (v - x1)
            &&& (afr - y1) * unit() == w.slope_of(fp).value() * (v - x1)
        }),
{
    let (x1, y1) = (w.point1.0.value(), w.point1.1.value());
    let (x2, y2) = (w.point2.0.value(), w.point2.1.value());
    let (v, afr) = (volts.value(), w.afr_of(fp, volts).value());
    let slope = w.slope_of(fp).value();
    let at_point = fp.mul(w.slope_of(fp), w.point1.0).value();
    let at_volts = fp.mul(w.slope_of(fp), volts).value();
    lemma_zero_and_one();
    law_rank_orders_values(fp.sub(w.point2.0, w.point1.0), Num { bits: ZERO });
    let (rise, run, off, u) = (y2 - y1, x2 - x1, v - x1, unit());
    assert((afr - y1) * u == slope * off) by (nonlinear_arith)
        requires
            afr - y1 == at_volts - at_point,
            at_point * u == slope * x1,
            at_volts * u == slope * v,
            off == v - x1,
    ;
    assert((afr - y1) * run == rise * off) by (nonlinear_arith)
        requires
            (afr - y1) * u == slope * off,
            slope * run == rise * u,
            u > 0,
    {
        assert(((afr - y1) * run) * u == ((afr - y1) * u) * run);
        assert((slope * off) * run == (slope * run) * off);
        assert((rise * u) * off == (rise * off) * u);
    }
}

/// Where nothing is rounded, the line passes through both its points.
pub proof fn law_the_line_passes_through_its_points(fp: Fp, w: LinearWideband)
    requires
        w.unrounded(fp, w.point1.0),
        w.unrounded(fp, w.point2.0),
    ensures
        w.afr_of(fp, w.point1.0).equals(w.point1.1),
        w.afr_of(fp, w.point2.0).equals(w.point2.1),
{
    let (x1, y1) = (w.point1.0.value(), w.point1.1.value());
    let (x2, y2) = (w.point2.0.value(), w.point2.1.value());
    let (afr1, afr2) = (w.afr_of(fp, w.point1.0), w.afr_of(fp, w.point2.0));
    lemma_on_the_line(fp, w, w.point1.0);
    lemma_on_the_line(fp, w, w.point2.0);
    let (a, b) = (afr1.value(), afr2.value());
    assert(a == y1) by (nonlinear_arith)
        requires
            (a - y1) * (x2 - x1) == (y2 - y1) * (x1 - x1),
            x2 - x1 != 0,
    ;
    assert(b == y2) by (nonlinear_arith)
        requires
            (b - y1) * (x2 - x1) == (y2 - y1) * (x2 - x1),
            x2 - x1 != 0,
    ;
    law_rank_orders_values(afr1, w.point1.1);
    law_rank_orders_values(afr2, w.point2.1);
}

/// Where nothing is rounded, the order of the two points does not matter.
pub proof fn law_the_order_of_the_points_does_not_matter(fp: Fp, w: LinearWideband, volts: Num)
    requires
        w.unrounded(fp, volts),
        w.turned().unrounded(fp, volts),
    ensures
        w.afr_of(fp, volts).equals(w.turned().afr_of(fp, volts)),
{
    let (x1, y1) = (w.point1.0.value(), w.point1.1.value());
    let (x2, y2) = (w.point2.0.value(), w.point2.1.value());
    let (here, there) = (w.afr_of(fp, volts), w.turned().afr_of(fp, volts));
    lemma_on_the_line(fp, w, volts);
    lemma_on_the_line(fp, w.turned(), volts);
    let (a, b, v) = (here.value(), there.value(), volts.value());
    assert(a == b) by (nonlinear_arith)
        requires
            (a - y1) * (x2 - x1) == (y2 - y1) * (v - x1),
            (b - y2) * (x1 - x2) == (y1 - y2) * (v - x2),
            x2 - x1 != 0,
    {
        assert((b - y2) * (x2 - x1) == (y2 - y1) * (v - x2));
        assert((a - b) * (x2 - x1) == 0);
    }
    law_rank_orders_values(here, there);
}

/// Where nothing is rounded, one volt more is one slope more.
pub proof fn law_one_volt_more_is_one_slope_more(
    fp: Fp,
    w: LinearWideband,
    volts: Num,
    next: Num,
)
    requires
        w.unrounded(fp, volts),
        w.unrounded(fp, next),
        is_sum(volts, Num { bits: ONE }, next),
    ensures
        is_sum(w.afr_of(fp, volts), w.slope_of(fp), w.afr_of(fp, next)),
{
    lemma_on_the_line(fp, w, volts);
    lemma_on_the_line(fp, w, next);
    lemma_zero_and_one();
    let (x1, y1, slope) = (w.point1.0.value(), w.point1.1.value(), w.slope_of(fp).value());
    let (a, b) = (w.afr_of(fp, volts).value(), w.afr_of(fp, next).value());
    let (v, u) = (volts.value(), unit());
    assert(a + slope == b) by (nonlinear_arith)
        requires
            (a - y1) * u == slope * (v - x1),
            (b - y1) * u == slope * (v + u - x1),
            u > 0,
    {
        assert((b - a - slope) * u == 0);
    }
}

/// The AFR at 0 V is the intercept.
pub proof fn law_the_line_starts_at_its_intercept(fp: Fp, w: LinearWideband)
    requires
        fp.exact(),
        w.slope_of(fp).finite(),
        w.intercept_of(fp).finite(),
    ensures
        w.afr_of(fp, Num { bits: ZERO }).equals(w.intercept_of(fp)),
{
    let zero = Num { bits: ZERO };
    let nothing = fp.mul(w.slope_of(fp), zero);
    lemma_neutral(fp, w.slope_of(fp));
    lemma_zero_and_one();
    law_rank_orders_values(nothing, zero);
    assert(is_sum(w.intercept_of(fp), nothing, w.intercept_of(fp)));
}

impl LinearWideband {
    /// Nothing overflows or underflows on the way from the two points to the
    /// AFR at a voltage.
    pub open spec fn holds(self, fp: Fp, volts: Num) -> bool {
        let ((x1, y1), (x2, y2)) = (self.point1, self.point2);
        let (rise, run) = (fp.sub(y2, y1), fp.sub(x2, x1));
        let slope = fp.div(rise, run);
        let (at_point, at_volts) = (fp.mul(slope, x1), fp.mul(slope, volts));
        let intercept = fp.sub(y1, at_point);
        &&& x1.finite() && y1.finite() && x2.finite() && y2.finite()
        &&& rise.finite()
        &&& fp.holds_quotient(rise, run)
        &&& fp.holds_product(slope, x1)
        &&& intercept.finite()
        &&& fp.holds_product(slope, volts)
        &&& fp.add(intercept, at_volts).finite()
    }

    /// The size of what is added and multiplied on the way to the AFR at a
    /// voltage, times the distance of the two voltages: what the rounding of
    /// it is measured by.
    pub open spec fn weight(self, fp: Fp, volts: Num) -> int {
        let ((x1, y1), (x2, y2)) = (self.point1, self.point2);
        let slope = fp.div(fp.sub(y2, y1), fp.sub(x2, x1));
        size(y2.value() - y1.value()) * size(volts.value() - x1.value()) + size(
            x2.value() - x1.value(),
        ) * (size(y1.value()) + size(fp.mul(slope, x1).value()) + size(
            fp.mul(slope, volts).value(),
        ))
    }
}

/// How the roundings of a line add up.
#[verifier::spinoff_prover]
#[verifier::rlimit(40)]
proof fn lemma_line_bound(
    u: int,
    p1: (int, int),
    p2: (int, int),
    v: int,
    rise: int,
    run: int,
    slope: int,
    at_point: int,
    intercept: int,
    at_volts: int,
    afr: int,
)
    requires
        u > 0,
        near(p2.1 - p1.1, rise),
        near(p2.0 - p1.0, run),
        near(rise * u, slope * run),
        near(slope * p1.0, at_point * u),
        near(p1.1 - at_point, intercept),
        near(slope * v, at_volts * u),
        near(intercept + at_volts, afr),
    ensures
        0x2_0000_0000_0000 * size(
            (afr - p1.1) * (p2.0 - p1.0) - (p2.1 - p1.1) * (v - p1.0),
        ) <= size(p2.1 - p1.1) * size(v - p1.0) + size(p2.0 - p1.0) * (size(p1.1) + size(at_point)
            + size(at_volts)),
{
    let e = 0x10_0000_0000_0000int;
    let ((x1, y1), (rise0, run0)) = (p1, (p2.1 - p1.1, p2.0 - p1.0));
    let (off, d) = (v - x1, afr - y1);
    lemma_slope_bound(u, rise0, run0, rise, run, slope);
    let f = slope * run0 - rise0 * u;
    let (a, b) = (slope * x1, slope * v);
    let (p, q) = (at_point * u, at_volts * u);
    let c = (y1 - at_point - intercept) + (intercept + at_volts - afr);
    let g = d * u - slope * off;
    assert(g == (q - b) - (p - a) - c * u) by (nonlinear_arith)
        requires
            g == d * u - slope * off,
            d == at_volts - at_point - c,
            off == v - x1,
            a == slope * x1,
            b == slope * v,
            p == at_point * u,
            q == at_volts * u,
    ;
    let m = size(y1) + size(at_point) + size(at_volts);
    let (sy, sp, sq) = (size(y1) * u, size(at_point) * u, size(at_volts) * u);
    lemma_size_of_product(at_point, u);
    lemma_size_of_product(at_volts, u);
    assert(e * size(c) <= 3 * size(y1) + 3 * size(at_point) + 2 * size(at_volts));
    lemma_size_of_product(c, u);
    let sc = size(c);
    assert(e * (sc * u) <= 3 * sy + 3 * sp + 2 * sq) by (nonlinear_arith)
        requires
            e * sc <= 3 * size(y1) + 3 * size(at_point) + 2 * size(at_volts),
            u > 0,
            sy == size(y1) * u,
            sp == size(at_point) * u,
            sq == size(at_volts) * u,
    {
        assert((e * sc) * u <= (3 * size(y1) + 3 * size(at_point) + 2 * size(at_volts)) * u);
        assert((e * sc) * u == e * (sc * u));
    }
    assert(m * u == sy + sp + sq) by (nonlinear_arith)
        requires
            m == size(y1) + size(at_point) + size(at_volts),
            sy == size(y1) * u,
            sp == size(at_point) * u,
            sq == size(at_volts) * u,
    ;
    assert(e * size(g) <= 5 * (m * u));
    let gap = d * run0 - rise0 * off;
    assert(gap * u == off * f + g * run0) by (nonlinear_arith)
        requires
            gap == d * run0 - rise0 * off,
            f == slope * run0 - rise0 * u,
            g == d * u - slope * off,
    ;
    lemma_size_of_product(off, f);
    lemma_size_of_product(g, run0);
    lemma_size_of_product(gap, u);
    let (so, sf, sg, sr, si, sn) = (
        size(off),
        size(f),
        size(g),
        size(run0),
        size(rise0),
        size(gap),
    );
    let (one, two) = (si * so, sr * m);
    assert(e * (so * sf) <= 4 * (one * u)) by (nonlinear_arith)
        requires
            e * sf <= 4 * (si * u),
            0 <= so,
            one == si * so,
    {
        assert(so * (e * sf) <= so * (4 * (si * u)));
    }
    assert(e * (sg * sr) <= 5 * (two * u)) by (nonlinear_arith)
        requires
            e * sg <= 5 * (m * u),
            0 <= sr,
            two == sr * m,
    {
        assert(sr * (e * sg) <= sr * (5 * (m * u)));
    }
    assert(0 <= one * u) by (nonlinear_arith)
        requires
            0 <= si,
            0 <= so,
            one == si * so,
            u > 0,
    ;
    assert(e * (sn * u) <= 5 * (one * u) + 5 * (two * u));
    assert(e * sn <= 5 * (one + two)) by (nonlinear_arith)
        requires
            e * (sn * u) <= 5 * (one * u) + 5 * (two * u),
            u > 0,
    {
        assert((e * sn) * u <= (5 * (one + two)) * u);
    }
}

/// The line is straight up to rounding: what it gives at a voltage lies on the
/// line through its two points, up to the 2^-49th part of its weight there.
pub proof fn law_the_line_is_straight_up_to_rounding(fp: Fp, w: LinearWideband, volts: Num)
    requires
        fp.exact(),
        fp.close(),
        w.holds(fp, volts),
    ensures
        ({
            let (x1, y1) = (w.point1.0.value(), w.point1.1.value());
            let (x2, y2) = (w.point2.0.value(), w.point2.1.value());
            let (v, afr) = (volts.value(), w.afr_of(fp, volts).value());
            0x2_0000_0000_0000 * size((afr - y1) * (x2 - x1) - (y2 - y1) * (v - x1)) <= w.weight(
                fp,
                volts,
            )
        }),
{
    let (rise, run) = (fp.sub(w.point2.1, w.point1.1), fp.sub(w.point2.0, w.point1.0));
    let slope = w.slope_of(fp);
    lemma_near_quotient(fp, rise, run);
    lemma_near_product(fp, slope, w.point1.0);
    lemma_near_product(fp, slope, volts);
    lemma_zero_and_one();
    lemma_line_bound(
        unit(),
        (w.point1.0.value(), w.point1.1.value()),
        (w.point2.0.value(), w.point2.1.value()),
        volts.value(),
        rise.value(),
        run.value(),
        slope.value(),
        fp.mul(slope, w.point1.0).value(),
        w.intercept_of(fp).value(),
        fp.mul(slope, volts).value(),
        w.afr_of(fp, volts).value(),
    );
}

/// The line passes through both its points up to rounding.
pub proof fn law_the_line_passes_near_its_points(fp: Fp, w: LinearWideband)
    requires
        fp.exact(),
        fp.close(),
        w.holds(fp, w.point1.0),
        w.holds(fp, w.point2.0),
    ensures
        ({
            let (afr1, afr2) = (w.afr_of(fp, w.point1.0), w.afr_of(fp, w.point2.0));
            let run = w.point2.0.value() - w.point1.0.value();
            &&& 0x2_0000_0000_0000 * size((afr1.value() - w.point1.1.value()) * run) <= w.weight(
                fp,
                w.point1.0,
            )
            &&& 0x2_0000_0000_0000 * size((afr2.value() - w.point2.1.value()) * run) <= w.weight(
                fp,
                w.point2.0,
            )
        }),
{
    let (x1, y1) = (w.point1.0.value(), w.point1.1.value());
    let (x2, y2) = (w.point2.0.value(), w.point2.1.value());
    let (a, b) = (w.afr_of(fp, w.point1.0).value(), w.afr_of(fp, w.point2.0).value());
    law_the_line_is_straight_up_to_rounding(fp, w, w.point1.0);
    law_the_line_is_straight_up_to_rounding(fp, w, w.point2.0);
    assert((a - y1) * (x2 - x1) - (y2 - y1) * (x1 - x1) == (a - y1) * (x2 - x1))
        by (nonlinear_arith);
    assert((b - y1) * (x2 - x1) - (y2 - y1) * (x2 - x1) == (b - y2) * (x2 - x1))
        by (nonlinear_arith);
}

/// The order of the two points does not matter up to rounding.
pub proof fn law_the_order_of_the_points_hardly_matters(fp: Fp, w: LinearWideband, volts: Num)
    requires
        fp.exact(),
        fp.close(),
        w.holds(fp, volts),
        w.turned().holds(fp, volts),
    ensures
        ({
            let (here, there) = (w.afr_of(fp, volts), w.turned().afr_of(fp, volts));
            let run = w.point2.0.value() - w.point1.0.value();
            0x2_0000_0000_0000 * size((here.value() - there.value()) * run) <= w.weight(fp, volts)
                + w.turned().weight(fp, volts)
        }),
{
    let (x1, y1) = (w.point1.0.value(), w.point1.1.value());
    let (x2, y2) = (w.point2.0.value(), w.point2.1.value());
    let (a, b) = (w.afr_of(fp, volts).value(), w.turned().afr_of(fp, volts).value());
    let v = volts.value();
    law_the_line_is_straight_up_to_rounding(fp, w, volts);
    law_the_line_is_straight_up_to_rounding(fp, w.turned(), volts);
    assert((a - b) * (x2 - x1) == ((a - y1) * (x2 - x1) - (y2 - y1) * (v - x1)) + ((b - y2) * (x1
        - x2) - (y1 - y2) * (v - x2))) by (nonlinear_arith);
}

/// One volt more is one slope more, up to rounding.
pub proof fn law_one_volt_more_is_nearly_one_slope_more(
    fp: Fp,
    w: LinearWideband,
    volts: Num,
    next: Num,
)
    requires
        fp.exact(),
        fp.close(),
        w.holds(fp, volts),
        w.holds(fp, next),
        is_sum(volts, Num { bits: ONE }, next),
    ensures
        ({
            let (here, there) = (w.afr_of(fp, volts).value(), w.afr_of(fp, next).value());
            let (rise, run) = (
                w.point2.1.value() - w.point1.1.value(),
                w.point2.0.value() - w.point1.0.value(),
            );
            0x2_0000_0000_0000 * size((there - here - w.slope_of(fp).value()) * run) <= w.weight(
                fp,
                volts,
            ) + w.weight(fp, next) + size(rise) * unit()
        }),
{
    let (x1, y1) = (w.point1.0.value(), w.point1.1.value());
    let (x2, y2) = (w.point2.0.value(), w.point2.1.value());
    let (a, b) = (w.afr_of(fp, volts).value(), w.afr_of(fp, next).value());
    let (v, u, slope) = (volts.value(), unit(), w.slope_of(fp).value());
    let (rise, run) = (fp.sub(w.point2.1, w.point1.1), fp.sub(w.point2.0, w.point1.0));
    lemma_zero_and_one();
    lemma_near_quotient(fp, rise, run);
    lemma_slope_bound(u, y2 - y1, x2 - x1, rise.value(), run.value(), slope);
    law_the_line_is_straight_up_to_rounding(fp, w, volts);
    law_the_line_is_straight_up_to_rounding(fp, w, next);
    assert((b - a - slope) * (x2 - x1) == ((b - y1) * (x2 - x1) - (y2 - y1) * (v + u - x1)) - ((a
        - y1) * (x2 - x1) - (y2 - y1) * (v - x1)) - (slope * (x2 - x1) - (y2 - y1) * u))
        by (nonlinear_arith);
    lemma_size_of_product(y2 - y1, u);
}

/// Two points describe a line exactly when their voltages lie 1e-9 or more
/// apart; the line is made of the points as they were given.
pub proof fn law_a_line_needs_two_voltages(fp: Fp, point1: (Num, Num), point2: (Num, Num))
    ensures
        line_of(fp, point1, point2) is Err <==> fp.sub(point1.0, point2.0).unsigned().below(
            Num { bits: 0x3E11_2E0B_E826_D695 },
        ),
        line_of(fp, point1, point2) matches Ok(w) ==> w.point1 == point1 && w.point2 == point2,
        line_of(fp, point1, point2) matches Err(e) ==> e == ErrorView::DegenerateInputs(
            "the two calibration points must be at different voltages (both were "@ + fp.fixed(
                point1.0,
                3,
            ) + " V)"@,
        ),
{
}

/// Each entry of the curve is the line at the voltage of its own count: the
/// count times five volts over 1023 steps.
pub proof fn law_each_entry_is_the_line_at_its_count(fp: Fp, w: LinearWideband, adc: int)
    requires
        0 <= adc < 1024,
    ensures
        w.curve_of(fp).len() == 1024,
        w.curve_of(fp)[adc] == w.afr_of(fp, volts_at(fp, adc)),
        w.curve_of(fp)[adc] == w.afr_of(
            fp,
            fp.div(
                fp.mul(fp.count(adc), Num { bits: 0x4014_0000_0000_0000 }),
                fp.sub(fp.count(1024), Num { bits: 0x3FF0_0000_0000_0000 }),
            ),
        ),
{
}

/// A line that rises from its first point to its second never falls where the
/// voltage rises.
pub proof fn law_a_rising_line_rises(fp: Fp, w: LinearWideband, low: Num, high: Num)
    requires
        fp.orderly(),
        fp.exact(),
        w.point1.0.below(w.point2.0),
        w.point1.1.at_most(w.point2.1),
        low.at_most(high),
        low.finite(),
        high.finite(),
        w.holds(fp, low),
        w.holds(fp, high),
    ensures
        w.afr_of(fp, low).at_most(w.afr_of(fp, high)),
{
    let ((x1, y1), (x2, y2)) = (w.point1, w.point2);
    let (rise, run) = (fp.sub(y2, y1), fp.sub(x2, x1));
    lemma_neutral(fp, y1);
    lemma_neutral(fp, run);
    lemma_differences_rise(fp, y1, y1, y2);
    lemma_difference(fp, x2, x1);
    lemma_quotients_rise(fp, run, Num { bits: ZERO }, rise);
    let slope = fp.div(rise, run);
    lemma_products_rise(fp, slope, low, high);
    lemma_held_products_are_finite(fp, slope, low);
    lemma_held_products_are_finite(fp, slope, high);
    lemma_sums_rise(fp, fp.sub(y1, fp.mul(slope, x1)), fp.mul(slope, low), fp.mul(slope, high));
}

proof fn lemma_held_products_are_finite(fp: Fp, a: Num, b: Num)
    requires
        fp.exact(),
        fp.holds_product(a, b),
    ensures
        fp.mul(a, b).finite(),
{
    let zero = Num { bits: ZERO };
    lemma_zero_and_one();
    law_rank_orders_values(a, zero);
    law_rank_orders_values(b, zero);
    if a.rank() == 0 || b.rank() == 0 {
        assert(a.value() * b.value() == 0) by (nonlinear_arith)
            requires
                a.value() == 0 || b.value() == 0,
        ;
        assert(is_product(a, b, zero));
    }
}

/// The curve of a line that rises never falls from one count to a higher one.
pub proof fn law_the_curve_of_a_rising_line_rises(fp: Fp, w: LinearWideband, low: int, high: int)
    requires
        fp.orderly(),
        fp.exact(),
        w.point1.0.below(w.point2.0),
        w.point1.1.at_most(w.point2.1),
        0 <= low <= high < 1024,
        w.holds(fp, volts_at(fp, low)),
        w.holds(fp, volts_at(fp, high)),
    ensures
        w.curve_of(fp)[low].at_most(w.curve_of(fp)[high]),
{
    law_volts_rise_with_the_count(fp, low, high);
    law_a_rising_line_rises(fp, w, volts_at(fp, low), volts_at(fp, high));
}

/// What is said of a line: its AFR at 0 V and at 5 V to two places, the
/// reference voltage to none, and its slope to four.
pub proof fn law_a_line_is_told_by_its_ends(fp: Fp, w: LinearWideband)
    ensures
        w.text_of(fp) == fp.fixed(w.afr_of(fp, Num { bits: 0 }), 2) + "–"@ + fp.fixed(
            w.afr_of(fp, Num { bits: 0x4014_0000_0000_0000 }),
            2,
        ) + " AFR over 0–"@ + fp.fixed(Num { bits: 0x4014_0000_0000_0000 }, 0) + " V ("@ + fp.fixed(
            w.slope_of(fp),
            4,
        ) + " AFR/V)"@,
{
}

/// The slope is the rise of the AFR over that of the voltage, up to the 2^-50th
/// part.
pub proof fn law_the_slope_is_rise_over_run(fp: Fp, w: LinearWideband)
    requires
        fp.exact(),
        fp.close(),
        w.point1.0.finite() && w.point1.1.finite() && w.point2.0.finite() && w.point2.1.finite(),
        fp.holds_quotient(
            fp.sub(w.point2.1, w.point1.1),
            fp.sub(w.point2.0, w.point1.0),
        ),
    ensures
        ({
            let (rise, run) = (
                w.point2.1.value() - w.point1.1.value(),
                w.point2.0.value() - w.point1.0.value(),
            );
            &&& w.slope_of(fp).finite()
            &&& 0x4_0000_0000_0000 * size(w.slope_of(fp).value() * run - rise * unit()) <= size(rise)
                * unit()
        }),
{
    let (rise, run) = (fp.sub(w.point2.1, w.point1.1), fp.sub(w.point2.0, w.point1.0));
    lemma_zero_and_one();
    lemma_near_quotient(fp, rise, run);
    lemma_slope_bound(
        unit(),
        w.point2.1.value() - w.point1.1.value(),
        w.point2.0.value() - w.point1.0.value(),
        rise.value(),
        run.value(),
        w.slope_of(fp).value(),
    );
}

/// One formula holds for every line and every voltage, whatever overflows on
/// the way.
pub proof fn law_one_formula_holds_for_every_voltage(fp: Fp, w: LinearWideband, volts: Num)
    ensures
        ({
            let ((x1, y1), (x2, y2)) = (w.point1, w.point2);
            let slope = fp.div(fp.sub(y2, y1), fp.sub(x2, x1));
            let start = fp.sub(y1, fp.mul(slope, x1));
            &&& w.slope_of(fp) == slope
            &&& w.intercept_of(fp) == start
            &&& w.afr_of(fp, volts) == fp.add(start, fp.mul(slope, volts))
        }),
{
}

} // verus!
