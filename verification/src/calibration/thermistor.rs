//! A three-point Steinhart–Hart thermistor fit (`thermGenerator`).

use super::error::{told, CalibrationError, ErrorView};
use super::thermistor_rounding::{
    exact_inverse, lemma_a, lemma_b, lemma_c, lemma_exact_below_its_size, lemma_kelvin, lemma_other_point, lemma_read_back,
    lemma_reading, lemma_squares, reading_size, residue, squares_size, start_size,
};
use super::{
    adc_to_volts, law_the_scale_spans_the_rail, law_volts_rise_with_the_count, lemma_adc_steps,
    lemma_reference_is_five, lemma_volts, volts_at, ADC_REFERENCE_VOLTS,
};
use crate::machine::{
    is_product, is_sum, lemma_differences_rise, lemma_near_product, lemma_near_quotient,
    lemma_negative_products_fall, lemma_neutral, lemma_products_rise, lemma_quotients_fall,
    lemma_quotients_rise, lemma_slope_bound, lemma_sums_rise, near, size, Calc, Fp, Machine, Style,
};
use crate::num::{law_rank_orders_values, lemma_zero_and_one, unit, Num, ONE, ZERO};
use crate::text::{decimal, decimal_text};
use vstd::arithmetic::power2::{
    lemma2_to64, lemma2_to64_rest, lemma_pow2_adds, lemma_pow2_pos, pow2,
};
use vstd::prelude::*;

verus! {

/// 273.15: kelvin at 0 °C.
pub const KELVIN: u64 = 0x4071_1266_6666_6666;

/// 1e-12: a denominator smaller than this leaves nothing to fit.
pub const COLLINEAR: u64 = 0x3D71_9799_812D_EA11;

/// 1e-6: the smallest resistance whose logarithm is taken, and the smallest
/// share of the rail that the divider is read at.
pub const LEAST: u64 = 0x3EB0_C6F7_A0B5_ED8D;

/// 1 - 1e-6: the largest share of the rail that the divider is read at.
pub const MOST: u64 = 0x3FEF_FFFD_E721_0BE9;

/// An INI `thermOption` preset: three (temperature °C, resistance Ω) points
/// and the bias resistor that forms the divider against the 5 V rail.
#[derive(Clone, Copy, Debug, PartialEq)]
pub struct ThermistorOption {
    pub bias_resistor: Num,
    pub points: [(Num, Num); 3],
}

/// A three-point Steinhart–Hart thermistor fit.
///
/// `1/T = A + B·ln(R) + C·ln(R)³`, with T in kelvin.
#[derive(Clone, Copy, Debug, PartialEq)]
pub struct ThermistorFit {
    /// Steinhart–Hart A coefficient.
    pub a: Num,
    /// Steinhart–Hart B coefficient.
    pub b: Num,
    /// Steinhart–Hart C coefficient.
    pub c: Num,
    /// Bias resistor in the divider, ohms.
    pub bias_resistor: Num,
}

/// The resistance of point `i` is zero or less.
pub open spec fn not_positive(points: Seq<(Num, Num)>, i: int) -> bool {
    points[i].1.at_most(Num { bits: ZERO })
}

/// What is said of a resistance that is zero or less.
pub open spec fn resistance_text(fp: Fp, points: Seq<(Num, Num)>, i: int) -> Seq<char> {
    "thermistor resistance must be positive (point "@ + decimal(i + 1) + " was "@ + fp.plain(
        points[i].1,
    ) + " Ω)"@
}

/// The logarithm of the resistance of point `i`.
pub open spec fn log_of(fp: Fp, points: Seq<(Num, Num)>, i: int) -> Num {
    fp.ln(points[i].1)
}

/// The inverse of the absolute temperature of point `i`.
pub open spec fn inverse_of(fp: Fp, points: Seq<(Num, Num)>, i: int) -> Num {
    fp.div(Num { bits: ONE }, fp.add(points[i].0, Num { bits: KELVIN }))
}

/// How the inverse temperature rises from point 0 to point `i`, per unit of
/// log-resistance.
pub open spec fn rise_of(fp: Fp, points: Seq<(Num, Num)>, i: int) -> Num {
    fp.div(
        fp.sub(inverse_of(fp, points, i), inverse_of(fp, points, 0)),
        fp.sub(log_of(fp, points, i), log_of(fp, points, 0)),
    )
}

/// The denominator of the C coefficient.
pub open spec fn spread_of(fp: Fp, points: Seq<(Num, Num)>) -> Num {
    let (l0, l1, l2) = (log_of(fp, points, 0), log_of(fp, points, 1), log_of(fp, points, 2));
    fp.mul(fp.sub(l2, l1), fp.add(fp.add(l0, l1), l2))
}

/// The coefficients that three points determine.
pub open spec fn coefficients(
    fp: Fp,
    bias_resistor: Num,
    points: Seq<(Num, Num)>,
) -> ThermistorFit {
    let (l0, l1) = (log_of(fp, points, 0), log_of(fp, points, 1));
    let g2 = rise_of(fp, points, 1);
    let g3 = rise_of(fp, points, 2);
    let c = fp.div(fp.sub(g3, g2), spread_of(fp, points));
    let squares = fp.add(fp.add(fp.mul(l0, l0), fp.mul(l0, l1)), fp.mul(l1, l1));
    let b = fp.sub(g2, fp.mul(c, squares));
    let a = fp.sub(
        inverse_of(fp, points, 0),
        fp.mul(fp.add(b, fp.mul(fp.mul(l0, l0), c)), l0),
    );
    ThermistorFit { a, b, c, bias_resistor }
}

/// The fit through three points: refused where a resistance is not positive,
/// with the first such point, and where the points leave nothing to fit.
pub open spec fn fit_of(fp: Fp, bias_resistor: Num, points: Seq<(Num, Num)>) -> Result<
    ThermistorFit,
    ErrorView,
> {
    let spread = spread_of(fp, points);
    if not_positive(points, 0) {
        Err(ErrorView::DegenerateInputs(resistance_text(fp, points, 0)))
    } else if not_positive(points, 1) {
        Err(ErrorView::DegenerateInputs(resistance_text(fp, points, 1)))
    } else if not_positive(points, 2) {
        Err(ErrorView::DegenerateInputs(resistance_text(fp, points, 2)))
    } else if !spread.finite() || spread.unsigned().below(Num { bits: COLLINEAR }) {
        Err(
            ErrorView::DegenerateInputs(
                "the three thermistor points are collinear in log-resistance and cannot be fitted"@,
            ),
        )
    } else {
        Ok(coefficients(fp, bias_resistor, points))
    }
}

impl ThermistorFit {
    /// The inverse of the absolute temperature at a logarithm of a resistance.
    pub open spec fn inverse_at(self, fp: Fp, l: Num) -> Num {
        fp.add(
            fp.add(self.a, fp.mul(self.b, l)),
            fp.mul(fp.mul(fp.mul(self.c, l), l), l),
        )
    }

    /// Temperature (°C) for a given thermistor resistance.
    pub open spec fn temperature_of(self, fp: Fp, resistance: Num) -> Num {
        let l = fp.ln(resistance.larger(Num { bits: LEAST }));
        fp.sub(fp.div(Num { bits: ONE }, self.inverse_at(fp, l)), Num { bits: KELVIN })
    }

    /// The share of the rail that an ADC count stands for, kept short of both
    /// ends.
    pub open spec fn share_of(fp: Fp, adc: int) -> Num {
        fp.div(volts_at(fp, adc), Num { bits: ADC_REFERENCE_VOLTS }).confined(
            Num { bits: LEAST },
            Num { bits: MOST },
        )
    }

    /// Thermistor resistance implied by an ADC count.
    pub open spec fn resistance_of(self, fp: Fp, adc: int) -> Num {
        let share = Self::share_of(fp, adc);
        fp.div(fp.mul(self.bias_resistor, share), fp.sub(Num { bits: ONE }, share))
    }

    /// Temperature (°C) the sensor is reading at an ADC count.
    pub open spec fn reading_of(self, fp: Fp, adc: int) -> Num {
        self.temperature_of(fp, self.resistance_of(fp, adc))
    }

    /// Solve the coefficients from three (temperature °C, resistance Ω) points
    /// plus the bias resistor.
    pub fn from_points<C: Fn(Calc) -> Num, S: Fn(Num, Style) -> String>(
        machine: &Machine<C, S>,
        bias_resistor: Num,
        points: [(Num, Num); 3],
    ) -> (r: Result<Self, CalibrationError>)
        requires
            machine.total(),
        ensures
            forall|fp: Fp| #[trigger]
                machine.follows(fp) ==> told(r) == fit_of(fp, bias_resistor, points@),
            r matches Err(e) ==> e is DegenerateInputs,
            (exists|i: int| 0 <= i < 3 && #[trigger] not_positive(points@, i)) ==> r is Err,
    {
        let mut l: [Num; 3] = [Num { bits: ZERO };3];
        let mut y: [Num; 3] = [Num { bits: ZERO };3];
        let mut i: usize = 0;
        while i < 3
            invariant
                machine.total(),
                i <= 3,
                forall|k: int| 0 <= k < i ==> !#[trigger] not_positive(points@, k),
                forall|fp: Fp, k: int|
                    #![trigger machine.follows(fp), l@[k]]
                    #![trigger machine.follows(fp), y@[k]]
                    machine.follows(fp) && 0 <= k < i ==> l@[k] == log_of(fp, points@, k) && y@[k]
                        == inverse_of(fp, points@, k),
            decreases 3 - i,
        {
            let (temp_c, res): (Num, Num) = points[i];
            if res.le(Num { bits: ZERO }) {
                assert(not_positive(points@, i as int));
                let text = String::from_str("thermistor resistance must be positive (point ").concat(
                    decimal_text(i as u64 + 1).as_str(),
                ).concat(" was ").concat(machine.plain(res).as_str()).concat(" Ω)");
                proof {
                    if i > 0 {
                        assert(!not_positive(points@, 0));
                    }
                    if i > 1 {
                        assert(!not_positive(points@, 1));
                    }
                }
                return Err(CalibrationError::DegenerateInputs(text));
            }
            l[i] = machine.ln(res);
            y[i] = machine.div(Num { bits: ONE }, machine.add(temp_c, Num { bits: KELVIN }));
            i += 1;
        }
        assert(!not_positive(points@, 0) && !not_positive(points@, 1) && !not_positive(points@, 2));
        // The standard three-point Steinhart–Hart solution.
        let g2 = machine.div(machine.sub(y[1], y[0]), machine.sub(l[1], l[0]));
        let g3 = machine.div(machine.sub(y[2], y[0]), machine.sub(l[2], l[0]));
        let spread = machine.mul(
            machine.sub(l[2], l[1]),
            machine.add(machine.add(l[0], l[1]), l[2]),
        );
        if !spread.is_finite() || spread.abs().lt(Num { bits: COLLINEAR }) {
            return Err(
                CalibrationError::DegenerateInputs(
                    String::from_str(
                        "the three thermistor points are collinear in log-resistance and cannot be fitted",
                    ),
                ),
            );
        }
        let c = machine.div(machine.sub(g3, g2), spread);
        let squares = machine.add(
            machine.add(machine.mul(l[0], l[0]), machine.mul(l[0], l[1])),
            machine.mul(l[1], l[1]),
        );
        let b = machine.sub(g2, machine.mul(c, squares));
        let a = machine.sub(
            y[0],
            machine.mul(machine.add(b, machine.mul(machine.mul(l[0], l[0]), c)), l[0]),
        );
        Ok(ThermistorFit { a, b, c, bias_resistor })
    }

    /// Build a fit from an INI `thermOption` preset.
    pub fn from_option<C: Fn(Calc) -> Num, S: Fn(Num, Style) -> String>(
        machine: &Machine<C, S>,
        option: &ThermistorOption,
    ) -> (r: Result<Self, CalibrationError>)
        requires
            machine.total(),
        ensures
            forall|fp: Fp| #[trigger]
                machine.follows(fp) ==> told(r) == fit_of(
                    fp,
                    option.bias_resistor,
                    option.points@,
                ),
    {
        Self::from_points(machine, option.bias_resistor, option.points)
    }

    /// Temperature (°C) for a given thermistor resistance.
    pub fn temperature_at_resistance<C: Fn(Calc) -> Num, S: Fn(Num, Style) -> String>(
        &self,
        machine: &Machine<C, S>,
        resistance: Num,
    ) -> (r: Num)
        requires
            machine.total(),
        ensures
            forall|fp: Fp| #[trigger]
                machine.follows(fp) ==> r == self.temperature_of(fp, resistance),
    {
        let l = machine.ln(resistance.max(Num { bits: LEAST }));
        let inverse = machine.add(
            machine.add(self.a, machine.mul(self.b, l)),
            machine.mul(machine.mul(machine.mul(self.c, l), l), l),
        );
        machine.sub(machine.div(Num { bits: ONE }, inverse), Num { bits: KELVIN })
    }

    /// Thermistor resistance implied by an ADC count, through the divider
    /// `Vout = 5 · Rtherm / (Rbias + Rtherm)`.
    pub fn resistance_at_adc<C: Fn(Calc) -> Num, S: Fn(Num, Style) -> String>(
        &self,
        machine: &Machine<C, S>,
        adc: u16,
    ) -> (r: Num)
        requires
            machine.total(),
        ensures
            forall|fp: Fp| #[trigger]
                machine.follows(fp) ==> r == self.resistance_of(fp, adc as int),
    {
        let volts = adc_to_volts(machine, adc);
        // At the rail the divider is singular; clamp just short of it so the
        // curve stays monotone instead of going infinite or negative.
        let share = machine.div(volts, Num { bits: ADC_REFERENCE_VOLTS }).clamp(
            Num { bits: LEAST },
            Num { bits: MOST },
        );
        machine.div(
            machine.mul(self.bias_resistor, share),
            machine.sub(Num { bits: ONE }, share),
        )
    }

    /// Temperature (°C) the sensor is reading at an ADC count.
    pub fn temperature_at_adc<C: Fn(Calc) -> Num, S: Fn(Num, Style) -> String>(
        &self,
        machine: &Machine<C, S>,
        adc: u16,
    ) -> (r: Num)
        requires
            machine.total(),
        ensures
            forall|fp: Fp| #[trigger]
                machine.follows(fp) ==> r == self.reading_of(fp, adc as int),
    {
        self.temperature_at_resistance(machine, self.resistance_at_adc(machine, adc))
    }

    /// Sample this fit at the ADC bins the firmware assigns, producing the 32
    /// temperatures a temperature calibration write expects.
    pub fn sample_at_bins<C: Fn(Calc) -> Num, S: Fn(Num, Style) -> String>(
        &self,
        machine: &Machine<C, S>,
        bins: &[u16; 32],
    ) -> (r: [Num; 32])
        requires
            machine.total(),
        ensures
            forall|fp: Fp, i: int|
                #![trigger machine.follows(fp), r@[i]]
                machine.follows(fp) && 0 <= i < 32 ==> r@[i] == self.reading_of(
                    fp,
                    bins@[i] as int,
                ),
    {
        let mut out: [Num; 32] = [Num { bits: ZERO };32];
        let mut i: usize = 0;
        while i < 32
            invariant
                machine.total(),
                i <= 32,
                forall|fp: Fp, k: int|
                    #![trigger machine.follows(fp), out@[k]]
                    machine.follows(fp) && 0 <= k < i ==> out@[k] == self.reading_of(
                        fp,
                        bins@[k] as int,
                    ),
            decreases 32 - i,
        {
            out[i] = self.temperature_at_adc(machine, bins[i]);
            i += 1;
        }
        out
    }
}

/// No step on the way from three points to the coefficients is rounded; the
/// logarithms and the inverse temperatures are taken as they come.
pub open spec fn fit_unrounded(fp: Fp, points: Seq<(Num, Num)>) -> bool {
    let (l0, l1, l2) = (fp.ln(points[0].1), fp.ln(points[1].1), fp.ln(points[2].1));
    let (one, kelvin) = (Num { bits: 0x3FF0_0000_0000_0000 }, Num { bits: 0x4071_1266_6666_6666 });
    let (y0, y1, y2) = (
        fp.div(one, fp.add(points[0].0, kelvin)),
        fp.div(one, fp.add(points[1].0, kelvin)),
        fp.div(one, fp.add(points[2].0, kelvin)),
    );
    let (g2, g3) = (
        fp.div(fp.sub(y1, y0), fp.sub(l1, l0)),
        fp.div(fp.sub(y2, y0), fp.sub(l2, l0)),
    );
    let spread = fp.mul(fp.sub(l2, l1), fp.add(fp.add(l0, l1), l2));
    let c = fp.div(fp.sub(g3, g2), spread);
    let (l00, l01, l11) = (fp.mul(l0, l0), fp.mul(l0, l1), fp.mul(l1, l1));
    let squares = fp.add(fp.add(l00, l01), l11);
    let b = fp.sub(g2, fp.mul(c, squares));
    let slope = fp.add(b, fp.mul(l00, c));
    let a = fp.sub(y0, fp.mul(slope, l0));
    &&& is_sum(fp.sub(y1, y0), y0, y1)
    &&& is_sum(fp.sub(y2, y0), y0, y2)
    &&& is_sum(fp.sub(l1, l0), l0, l1)
    &&& is_sum(fp.sub(l2, l0), l0, l2)
    &&& is_sum(fp.sub(l2, l1), l1, l2)
    &&& is_sum(l0, l1, fp.add(l0, l1))
    &&& is_sum(fp.add(l0, l1), l2, fp.add(fp.add(l0, l1), l2))
    &&& is_product(g2, fp.sub(l1, l0), fp.sub(y1, y0))
    &&& is_product(g3, fp.sub(l2, l0), fp.sub(y2, y0))
    &&& is_product(fp.sub(l2, l1), fp.add(fp.add(l0, l1), l2), spread)
    &&& is_sum(fp.sub(g3, g2), g2, g3)
    &&& is_product(c, spread, fp.sub(g3, g2))
    &&& is_product(l0, l0, l00)
    &&& is_product(l0, l1, l01)
    &&& is_product(l1, l1, l11)
    &&& is_sum(l00, l01, fp.add(l00, l01))
    &&& is_sum(fp.add(l00, l01), l11, squares)
    &&& is_product(c, squares, fp.mul(c, squares))
    &&& is_sum(b, fp.mul(c, squares), g2)
    &&& is_product(l00, c, fp.mul(l00, c))
    &&& is_sum(b, fp.mul(l00, c), slope)
    &&& is_product(slope, l0, fp.mul(slope, l0))
    &&& is_sum(a, fp.mul(slope, l0), y0)
}

/// `A + B·l + C·l³`, where all four are values in units of 1/u: in units of
/// 1/u⁴.
spec fn cubic(a: int, b: int, c: int, l: int, u: int) -> int {
    a * (u * u * u) + b * l * (u * u) + c * (l * l * l)
}

/// What the fit's B coefficient makes of the rise from point 0 to point 1, and
/// its C coefficient of that to point 2, in exact values.
#[verifier::spinoff_prover]
#[verifier::rlimit(40)]
proof fn lemma_rises(fp: Fp, points: Seq<(Num, Num)>)
    requires
        fit_unrounded(fp, points),
    ensures
        ({
            let fit = coefficients(fp, Num { bits: ONE }, points);
            let (b, c, u) = (fit.b.value(), fit.c.value(), unit());
            let (l0, l1, l2) = (
                log_of(fp, points, 0).value(),
                log_of(fp, points, 1).value(),
                log_of(fp, points, 2).value(),
            );
            let (g2, g3) = (rise_of(fp, points, 1).value(), rise_of(fp, points, 2).value());
            &&& b * (u * u) + c * (l1 * l1 + l0 * l1 + l0 * l0) == g2 * (u * u)
            &&& b * (u * u) + c * (l2 * l2 + l0 * l2 + l0 * l0) == g3 * (u * u)
        }),
{
    let fit = coefficients(fp, Num { bits: ONE }, points);
    let (b, c, u) = (fit.b.value(), fit.c.value(), unit());
    let (n0, n1, n2) = (log_of(fp, points, 0), log_of(fp, points, 1), log_of(fp, points, 2));
    let (l0, l1, l2) = (n0.value(), n1.value(), n2.value());
    let (g2, g3) = (rise_of(fp, points, 1).value(), rise_of(fp, points, 2).value());
    let (l00, l01, l11) = (
        fp.mul(n0, n0).value(),
        fp.mul(n0, n1).value(),
        fp.mul(n1, n1).value(),
    );
    let squares = fp.add(fp.add(fp.mul(n0, n0), fp.mul(n0, n1)), fp.mul(n1, n1));
    let bend = fp.mul(fit.c, squares).value();
    let spread = spread_of(fp, points).value();
    let q = squares.value();
    assert(q * u == l0 * l0 + l0 * l1 + l1 * l1) by (nonlinear_arith)
        requires
            q == l00 + l01 + l11,
            l0 * l0 == l00 * u,
            l0 * l1 == l01 * u,
            l1 * l1 == l11 * u,
    ;
    assert(c * (l1 * l1 + l0 * l1 + l0 * l0) == bend * (u * u)) by (nonlinear_arith)
        requires
            q * u == l0 * l0 + l0 * l1 + l1 * l1,
            c * q == bend * u,
    {
        assert(c * (q * u) == (c * q) * u);
    }
    assert(b * (u * u) + bend * (u * u) == g2 * (u * u)) by (nonlinear_arith)
        requires
            b + bend == g2,
    ;
    let (apart, sum) = (l2 - l1, l0 + l1 + l2);
    assert(c * (apart * sum) == (g3 - g2) * (u * u)) by (nonlinear_arith)
        requires
            apart * sum == spread * u,
            c * spread == (g3 - g2) * u,
    {
        assert(c * (spread * u) == (c * spread) * u);
    }
    assert(apart * sum == (l2 * l2 + l0 * l2 + l0 * l0) - (l1 * l1 + l0 * l1 + l0 * l0))
        by (nonlinear_arith)
        requires
            apart == l2 - l1,
            sum == l0 + l1 + l2,
    ;
    let (p, r) = (l1 * l1 + l0 * l1 + l0 * l0, l2 * l2 + l0 * l2 + l0 * l0);
    assert(c * (r - p) == c * r - c * p) by (nonlinear_arith);
    assert((g3 - g2) * (u * u) == g3 * (u * u) - g2 * (u * u)) by (nonlinear_arith);
}

/// A cubic that starts at point 0 and rises as it should passes through the
/// other end of the rise.
proof fn lemma_cubic_rises(
    a: int,
    b: int,
    c: int,
    u: int,
    l0: int,
    y0: int,
    l: int,
    y: int,
    g: int,
)
    requires
        cubic(a, b, c, l0, u) == y0 * (u * u * u),
        b * (u * u) + c * (l * l + l0 * l + l0 * l0) == g * (u * u),
        g * (l - l0) == (y - y0) * u,
    ensures
        cubic(a, b, c, l, u) == y * (u * u * u),
{
    let w = u * u;
    let q = l * l + l0 * l + l0 * l0;
    assert(l * l * l - l0 * l0 * l0 == q * (l - l0)) by (nonlinear_arith)
        requires
            q == l * l + l0 * l + l0 * l0,
    ;
    assert(c * (l * l * l) - c * (l0 * l0 * l0) == (c * q) * (l - l0)) by (nonlinear_arith)
        requires
            l * l * l - l0 * l0 * l0 == q * (l - l0),
    ;
    assert(b * l * w - b * l0 * w == (b * w) * (l - l0)) by (nonlinear_arith);
    assert((b * w) * (l - l0) + (c * q) * (l - l0) == (g * w) * (l - l0)) by (nonlinear_arith)
        requires
            b * w + c * q == g * w,
    ;
    assert((g * w) * (l - l0) == (y - y0) * (u * u * u)) by (nonlinear_arith)
        requires
            g * (l - l0) == (y - y0) * u,
            w == u * u,
    {
        assert((g * w) * (l - l0) == (g * (l - l0)) * w);
    }
    assert((y - y0) * (u * u * u) == y * (u * u * u) - y0 * (u * u * u)) by (nonlinear_arith);
}

/// Where nothing is rounded, the fit passes through its own points: at each of
/// them, `A + B·ln(R) + C·ln(R)³` is the inverse of the absolute temperature.
#[verifier::spinoff_prover]
#[verifier::rlimit(40)]
pub proof fn law_the_fit_passes_through_its_points(
    fp: Fp,
    bias_resistor: Num,
    points: Seq<(Num, Num)>,
    i: int,
)
    requires
        fit_unrounded(fp, points),
        0 <= i < 3,
    ensures
        ({
            let fit = coefficients(fp, bias_resistor, points);
            let (l, u) = (fp.ln(points[i].1).value(), unit());
            let y = fp.div(
                Num { bits: 0x3FF0_0000_0000_0000 },
                fp.add(points[i].0, Num { bits: 0x4071_1266_6666_6666 }),
            ).value();
            fit.a.value() * (u * u * u) + fit.b.value() * l * (u * u) + fit.c.value() * (l * l * l)
                == y * (u * u * u)
        }),
{
    let fit = coefficients(fp, Num { bits: ONE }, points);
    let (a, b, c, u) = (fit.a.value(), fit.b.value(), fit.c.value(), unit());
    let n0 = log_of(fp, points, 0);
    let (l0, y0) = (n0.value(), inverse_of(fp, points, 0).value());
    let l00 = fp.mul(n0, n0).value();
    let bent = fp.mul(fp.mul(n0, n0), fit.c).value();
    let slope = fp.add(fit.b, fp.mul(fp.mul(n0, n0), fit.c));
    let part = fp.mul(slope, n0).value();
    let t = slope.value();
    assert(bent * (u * u) == c * (l0 * l0)) by (nonlinear_arith)
        requires
            l0 * l0 == l00 * u,
            l00 * c == bent * u,
    {
        assert((l00 * c) * u == c * (l00 * u));
    }
    assert(t * (u * u) == b * (u * u) + bent * (u * u)) by (nonlinear_arith)
        requires
            t == b + bent,
    ;
    assert(part * (u * u * u) == b * l0 * (u * u) + c * (l0 * l0 * l0)) by (nonlinear_arith)
        requires
            t * l0 == part * u,
            t * (u * u) == b * (u * u) + c * (l0 * l0),
    {
        assert(part * (u * u * u) == (part * u) * (u * u));
        assert((t * l0) * (u * u) == (t * (u * u)) * l0);
        assert((b * (u * u)) * l0 == b * l0 * (u * u));
        assert((c * (l0 * l0)) * l0 == c * (l0 * l0 * l0));
    }
    assert((a + part) * (u * u * u) == a * (u * u * u) + part * (u * u * u)) by (nonlinear_arith);
    assert(cubic(a, b, c, l0, u) == y0 * (u * u * u));
    lemma_rises(fp, points);
    let (l1, y1) = (log_of(fp, points, 1).value(), inverse_of(fp, points, 1).value());
    let (l2, y2) = (log_of(fp, points, 2).value(), inverse_of(fp, points, 2).value());
    lemma_cubic_rises(a, b, c, u, l0, y0, l1, y1, rise_of(fp, points, 1).value());
    lemma_cubic_rises(a, b, c, u, l0, y0, l2, y2, rise_of(fp, points, 2).value());
}

/// Nothing overflows or underflows on the way from three points to the
/// coefficients.
pub open spec fn fit_holds(fp: Fp, points: Seq<(Num, Num)>) -> bool {
    let (l0, l1, l2) = (fp.ln(points[0].1), fp.ln(points[1].1), fp.ln(points[2].1));
    let (one, kelvin) = (Num { bits: 0x3FF0_0000_0000_0000 }, Num { bits: 0x4071_1266_6666_6666 });
    let (y0, y1, y2) = (
        fp.div(one, fp.add(points[0].0, kelvin)),
        fp.div(one, fp.add(points[1].0, kelvin)),
        fp.div(one, fp.add(points[2].0, kelvin)),
    );
    let (g2, g3) = (
        fp.div(fp.sub(y1, y0), fp.sub(l1, l0)),
        fp.div(fp.sub(y2, y0), fp.sub(l2, l0)),
    );
    let spread = fp.mul(fp.sub(l2, l1), fp.add(fp.add(l0, l1), l2));
    let c = fp.div(fp.sub(g3, g2), spread);
    let (l00, l01, l11) = (fp.mul(l0, l0), fp.mul(l0, l1), fp.mul(l1, l1));
    let squares = fp.add(fp.add(l00, l01), l11);
    let b = fp.sub(g2, fp.mul(c, squares));
    let slope = fp.add(b, fp.mul(l00, c));
    let a = fp.sub(y0, fp.mul(slope, l0));
    &&& l0.finite() && l1.finite() && l2.finite()
    &&& y0.finite() && y1.finite() && y2.finite()
    &&& fp.holds_quotient(fp.sub(y1, y0), fp.sub(l1, l0))
    &&& fp.holds_quotient(fp.sub(y2, y0), fp.sub(l2, l0))
    &&& fp.add(l0, l1).finite()
    &&& fp.holds_product(fp.sub(l2, l1), fp.add(fp.add(l0, l1), l2))
    &&& fp.holds_quotient(fp.sub(g3, g2), spread)
    &&& fp.holds_product(l0, l0)
    &&& fp.holds_product(l0, l1)
    &&& fp.holds_product(l1, l1)
    &&& fp.add(l00, l01).finite()
    &&& fp.holds_product(c, squares)
    &&& b.finite()
    &&& fp.holds_product(l00, c)
    &&& fp.holds_product(slope, l0)
    &&& a.finite()
}

/// The size of what is added and multiplied on the way to the coefficients, as
/// far as it bears on point `i`: what the rounding there is measured by.
pub open spec fn fit_weight(fp: Fp, points: Seq<(Num, Num)>, i: int) -> int {
    let (l0, l1, l2) = (fp.ln(points[0].1), fp.ln(points[1].1), fp.ln(points[2].1));
    let (one, kelvin) = (Num { bits: 0x3FF0_0000_0000_0000 }, Num { bits: 0x4071_1266_6666_6666 });
    let (y0, y1, y2) = (
        fp.div(one, fp.add(points[0].0, kelvin)),
        fp.div(one, fp.add(points[1].0, kelvin)),
        fp.div(one, fp.add(points[2].0, kelvin)),
    );
    let (g2, g3) = (
        fp.div(fp.sub(y1, y0), fp.sub(l1, l0)),
        fp.div(fp.sub(y2, y0), fp.sub(l2, l0)),
    );
    let spread = fp.mul(fp.sub(l2, l1), fp.add(fp.add(l0, l1), l2));
    let c = fp.div(fp.sub(g3, g2), spread);
    let (l00, l01, l11) = (fp.mul(l0, l0), fp.mul(l0, l1), fp.mul(l1, l1));
    let squares = fp.add(fp.add(l00, l01), l11);
    let b = fp.sub(g2, fp.mul(c, squares));
    let (y, l, u) = (
        fp.div(one, fp.add(points[i].0, kelvin)).value(),
        fp.ln(points[i].1).value(),
        unit(),
    );
    let (k0, k1, k2) = (l0.value(), l1.value(), l2.value());
    let start = start_size(u, b.value(), c.value(), k0, y0.value());
    let rise = size(g2.value()) * (u * u) + size(c.value()) * squares_size(k0, k1);
    let bend = size(g3.value()) * (u * u) + size(c.value()) * (size(k2 - k1) * (size(k0) + size(k1)
        + size(k2)));
    if i == 0 {
        start
    } else if i == 1 {
        start + size(y) * (u * u * u) + size(l - k0) * rise
    } else {
        start + size(y) * (u * u * u) + size(l - k0) * (rise + bend)
    }
}

/// The fit passes through its own points up to rounding: at each of them,
/// `A + B·ln(R) + C·ln(R)³` is the inverse of the absolute temperature, up to
/// the 2^-48th part of the weight there.
#[verifier::spinoff_prover]
#[verifier::rlimit(40)]
pub proof fn law_the_fit_passes_near_its_points(
    fp: Fp,
    bias_resistor: Num,
    points: Seq<(Num, Num)>,
    i: int,
)
    requires
        fp.exact(),
        fp.close(),
        fit_holds(fp, points),
        0 <= i < 3,
    ensures
        ({
            let fit = coefficients(fp, bias_resistor, points);
            let l = fp.ln(points[i].1).value();
            let y = fp.div(
                Num { bits: 0x3FF0_0000_0000_0000 },
                fp.add(points[i].0, Num { bits: 0x4071_1266_6666_6666 }),
            ).value();
            0x1_0000_0000_0000 * size(
                residue(unit(), fit.a.value(), fit.b.value(), fit.c.value(), l, y),
            ) <= fit_weight(fp, points, i)
        }),
{
    let fit = coefficients(fp, Num { bits: ONE }, points);
    let (n0, n1, n2) = (log_of(fp, points, 0), log_of(fp, points, 1), log_of(fp, points, 2));
    let (m0, m1, m2) = (
        inverse_of(fp, points, 0),
        inverse_of(fp, points, 1),
        inverse_of(fp, points, 2),
    );
    let (r2, r3) = (rise_of(fp, points, 1), rise_of(fp, points, 2));
    let (n00, n01, n11) = (fp.mul(n0, n0), fp.mul(n0, n1), fp.mul(n1, n1));
    let squares = fp.add(fp.add(n00, n01), n11);
    let slope = fp.add(fit.b, fp.mul(n00, fit.c));
    let (apart, sum) = (fp.sub(n2, n1), fp.add(fp.add(n0, n1), n2));
    let spread = spread_of(fp, points);
    let u = unit();
    let (l0, l1, l2) = (n0.value(), n1.value(), n2.value());
    let (y0, y1, y2) = (m0.value(), m1.value(), m2.value());
    let (a, b, c) = (fit.a.value(), fit.b.value(), fit.c.value());
    let (g2, g3) = (r2.value(), r3.value());
    lemma_zero_and_one();
    lemma_near_quotient(fp, fp.sub(m1, m0), fp.sub(n1, n0));
    lemma_near_quotient(fp, fp.sub(m2, m0), fp.sub(n2, n0));
    lemma_near_product(fp, apart, sum);
    lemma_near_quotient(fp, fp.sub(r3, r2), spread);
    lemma_near_product(fp, n0, n0);
    lemma_near_product(fp, n0, n1);
    lemma_near_product(fp, n1, n1);
    lemma_near_product(fp, fit.c, squares);
    lemma_near_product(fp, n00, fit.c);
    lemma_near_product(fp, slope, n0);
    lemma_a(
        u,
        l0,
        y0,
        b,
        c,
        n00.value(),
        fp.mul(n00, fit.c).value(),
        slope.value(),
        fp.mul(slope, n0).value(),
        a,
    );
    lemma_squares(
        u,
        l0,
        l1,
        n00.value(),
        n01.value(),
        n11.value(),
        fp.add(n00, n01).value(),
        squares.value(),
    );
    let weight = squares_size(l0, l1);
    let q = l0 * l0 + l0 * l1 + l1 * l1;
    lemma_b(u, c, q, weight, squares.value(), fp.mul(fit.c, squares).value(), g2, b);
    lemma_c(
        u,
        l0,
        l1,
        l2,
        apart.value(),
        fp.add(n0, n1).value(),
        sum.value(),
        spread.value(),
        g2,
        g3,
        fp.sub(r3, r2).value(),
        c,
    );
    lemma_slope_bound(u, y1 - y0, l1 - l0, fp.sub(m1, m0).value(), fp.sub(n1, n0).value(), g2);
    lemma_slope_bound(u, y2 - y0, l2 - l0, fp.sub(m2, m0).value(), fp.sub(n2, n0).value(), g3);
    let (w, t) = (u * u, u * u * u);
    let start = start_size(u, b, c, l0, y0);
    let (cq, cs) = (
        size(c) * weight,
        size(c) * (size(l2 - l1) * (size(l0) + size(l1) + size(l2))),
    );
    let first = size(g2) * w + 9 * cq;
    lemma_other_point(u, a, b, c, l0, y0, l1, y1, g2, 10 * start, first);
    let (d, s) = (l2 - l1, l0 + l1 + l2);
    assert(d * s == (l2 * l2 + l0 * l2 + l0 * l0) - q) by (nonlinear_arith)
        requires
            d == l2 - l1,
            s == l0 + l1 + l2,
            q == l0 * l0 + l0 * l1 + l1 * l1,
    ;
    let q2 = l2 * l2 + l0 * l2 + l0 * l0;
    assert(c * (q2 - q) == c * q2 - c * q) by (nonlinear_arith);
    assert((g3 - g2) * w == g3 * w - g2 * w) by (nonlinear_arith);
    let second = first + 3 * (size(g3 - g2) * w) + 7 * cs;
    lemma_other_point(u, a, b, c, l0, y0, l2, y2, g3, 10 * start, second);
    lemma_fit_weights(u, b, c, l0, y0, l1, y1, l2, y2, g2, g3, cq, cs);
}

/// The weights hold all that the roundings add up to.
#[verifier::spinoff_prover]
#[verifier::rlimit(40)]
proof fn lemma_fit_weights(
    u: int,
    b: int,
    c: int,
    l0: int,
    y0: int,
    l1: int,
    y1: int,
    l2: int,
    y2: int,
    g2: int,
    g3: int,
    cq: int,
    cs: int,
)
    requires
        u > 0,
        0 <= cq,
        0 <= cs,
    ensures
        ({
            let (w, t) = (u * u, u * u * u);
            let start = start_size(u, b, c, l0, y0);
            let first = size(g2) * w + 9 * cq;
            let second = first + 3 * (size(g3 - g2) * w) + 7 * cs;
            &&& 10 * start <= 16 * start
            &&& 10 * start + size(l1 - l0) * first + 4 * (size(y1 - y0) * t) <= 16 * (start + size(
                y1,
            ) * t + size(l1 - l0) * (size(g2) * w + cq))
            &&& 10 * start + size(l2 - l0) * second + 4 * (size(y2 - y0) * t) <= 16 * (start + size(
                y2,
            ) * t + size(l2 - l0) * (size(g2) * w + cq + (size(g3) * w + cs)))
        }),
{
    let (w, t) = (u * u, u * u * u);
    let start = start_size(u, b, c, l0, y0);
    assert(w > 0 && t > 0) by (nonlinear_arith)
        requires
            w == u * u,
            t == u * u * u,
            u > 0,
    ;
    let (sb, sc, k, s, sy) = (size(b), size(c), size(l0), size(l0 * l0), size(y0));
    assert(0 <= k * (sb * w) && 0 <= k * (sc * s) && 0 <= sy * t) by (nonlinear_arith)
        requires
            0 <= sb,
            0 <= sc,
            0 <= k,
            0 <= s,
            0 <= sy,
            w > 0,
            t > 0,
    ;
    let (e1, e2, f1, f2) = (size(y1), size(y2), size(y1 - y0), size(y2 - y0));
    assert(f1 * t <= sy * t + e1 * t && f2 * t <= sy * t + e2 * t && 0 <= e1 * t && 0 <= e2 * t)
        by (nonlinear_arith)
        requires
            f1 <= sy + e1,
            f2 <= sy + e2,
            0 <= e1,
            0 <= e2,
            t > 0,
    ;
    let (h2, h3, h) = (size(g2), size(g3), size(g3 - g2));
    assert(h * w <= h2 * w + h3 * w && 0 <= h2 * w && 0 <= h3 * w) by (nonlinear_arith)
        requires
            h <= h2 + h3,
            0 <= h2,
            0 <= h3,
            w > 0,
    ;
    let (o1, o2) = (size(l1 - l0), size(l2 - l0));
    let first = h2 * w + 9 * cq;
    let second = first + 3 * (h * w) + 7 * cs;
    let (all1, all2) = (h2 * w + cq, h2 * w + cq + (h3 * w + cs));
    assert(first <= 16 * all1 && second <= 16 * all2);
    assert(o1 * first <= 16 * (o1 * all1)) by (nonlinear_arith)
        requires
            first <= 16 * all1,
            0 <= o1,
    ;
    assert(o2 * second <= 16 * (o2 * all2)) by (nonlinear_arith)
        requires
            second <= 16 * all2,
            0 <= o2,
    ;
}

impl ThermistorFit {
    /// No step on the way from a logarithm to the temperature is rounded.
    pub open spec fn reading_unrounded(self, fp: Fp, l: Num) -> bool {
        let (one, zero_celsius) = (
            Num { bits: 0x3FF0_0000_0000_0000 },
            Num { bits: 0x4071_1266_6666_6666 },
        );
        let line = fp.add(self.a, fp.mul(self.b, l));
        let (cl, cll) = (fp.mul(self.c, l), fp.mul(fp.mul(self.c, l), l));
        let inverse = fp.add(line, fp.mul(cll, l));
        let kelvin = fp.div(one, inverse);
        &&& is_product(self.b, l, fp.mul(self.b, l))
        &&& is_sum(self.a, fp.mul(self.b, l), line)
        &&& is_product(self.c, l, cl)
        &&& is_product(cl, l, cll)
        &&& is_product(cll, l, fp.mul(cll, l))
        &&& is_sum(line, fp.mul(cll, l), inverse)
        &&& is_product(kelvin, inverse, one)
        &&& is_sum(fp.sub(kelvin, zero_celsius), zero_celsius, kelvin)
    }
}

/// Where nothing is rounded, the fit reads its own points back: at the
/// resistance of each of them it gives the temperature of that point.
pub proof fn law_the_fit_reads_its_points_back(
    fp: Fp,
    bias_resistor: Num,
    points: Seq<(Num, Num)>,
    i: int,
)
    requires
        fit_unrounded(fp, points),
        0 <= i < 3,
        (Num { bits: LEAST }).at_most(points[i].1),
        is_sum(
            points[i].0,
            Num { bits: KELVIN },
            fp.add(points[i].0, Num { bits: KELVIN }),
        ),
        is_product(
            fp.div(Num { bits: ONE }, fp.add(points[i].0, Num { bits: KELVIN })),
            fp.add(points[i].0, Num { bits: KELVIN }),
            Num { bits: ONE },
        ),
        coefficients(fp, bias_resistor, points).reading_unrounded(fp, fp.ln(points[i].1)),
    ensures
        coefficients(fp, bias_resistor, points).temperature_of(fp, points[i].1).equals(points[i].0),
{
    let fit = coefficients(fp, bias_resistor, points);
    let (n, u) = (log_of(fp, points, i), unit());
    let (l, y) = (n.value(), inverse_of(fp, points, i).value());
    let (a, b, c) = (fit.a.value(), fit.b.value(), fit.c.value());
    law_the_fit_passes_through_its_points(fp, bias_resistor, points, i);
    lemma_zero_and_one();
    let bl = fp.mul(fit.b, n).value();
    let (cl, cll) = (fp.mul(fit.c, n).value(), fp.mul(fp.mul(fit.c, n), n).value());
    let clll = fp.mul(fp.mul(fp.mul(fit.c, n), n), n).value();
    let inverse = fit.inverse_at(fp, n).value();
    assert(bl * (u * u * u) == b * l * (u * u)) by (nonlinear_arith)
        requires
            b * l == bl * u,
    {
        assert((bl * u) * (u * u) == bl * (u * u * u));
    }
    assert(clll * (u * u * u) == c * (l * l * l)) by (nonlinear_arith)
        requires
            c * l == cl * u,
            cl * l == cll * u,
            cll * l == clll * u,
    {
        assert(clll * (u * u * u) == ((clll * u) * u) * u);
        assert((cll * l) * u == (cll * u) * l);
        assert(((cl * l) * l) * u == ((cl * u) * l) * l);
        assert(((c * l) * l) * l == c * (l * l * l));
    }
    assert((a + bl + clll) * (u * u * u) == a * (u * u * u) + bl * (u * u * u) + clll * (u * u * u))
        by (nonlinear_arith);
    assert(inverse == y) by (nonlinear_arith)
        requires
            inverse * (u * u * u) == y * (u * u * u),
            u > 0,
    {
        assert(u * u > 0);
        assert(u * u * u > 0);
        assert((inverse - y) * (u * u * u) == 0);
    }
    let there = fp.add(points[i].0, Num { bits: KELVIN }).value();
    let kelvin = fp.div(Num { bits: ONE }, fit.inverse_at(fp, n)).value();
    assert(kelvin == there) by (nonlinear_arith)
        requires
            kelvin * inverse == u * u,
            y * there == u * u,
            inverse == y,
            u > 0,
    {
        assert(y != 0);
        assert((kelvin - there) * y == 0);
    }
    assert(points[i].1.larger(Num { bits: LEAST }).equals(points[i].1));
    law_rank_orders_values(
        fp.sub(fp.div(Num { bits: ONE }, fit.inverse_at(fp, n)), Num { bits: KELVIN }),
        points[i].0,
    );
}

/// The share of the rail that a divider is read at never reaches an end of
/// the scale, so that neither a zero nor an infinite resistance follows.
pub proof fn law_the_divider_stays_off_the_rails(fp: Fp, adc: int)
    requires
        !fp.div(volts_at(fp, adc), Num { bits: ADC_REFERENCE_VOLTS }).nan(),
    ensures
        (Num { bits: ZERO }).below(ThermistorFit::share_of(fp, adc)),
        ThermistorFit::share_of(fp, adc).below(Num { bits: ONE }),
{
}

/// 1e9: the largest bias resistor that [`law_the_resistance_is_a_resistance`]
/// speaks of, in ohms.
pub const LARGEST_BIAS: u64 = 0x41CD_CD65_0000_0000;

/// 2^-20
const SMALL: u64 = 0x3EB0_0000_0000_0000;

/// 1e9 * 2^20
const LARGE: u64 = 0x430D_CD65_0000_0000;

/// Short of the rail, at least 2^-20 of it is left.
proof fn lemma_rest_of_the_rail(fp: Fp)
    requires
        fp.exact(),
    ensures
        fp.sub(Num { bits: ONE }, Num { bits: MOST }).rank() == 0x3EB0_C6F7_A0B8_0000,
{
    let (one, most, rest) = (
        Num { bits: ONE },
        Num { bits: MOST },
        Num { bits: 0x3EB0_C6F7_A0B8_0000 },
    );
    lemma2_to64();
    lemma_pow2_adds(1, 1021);
    lemma_pow2_adds(19, 1002);
    assert(one.value() == 0x10_0000_0000_0000 * pow2(1022));
    assert(most.value() == 0x1F_FFFD_E721_0BE9 * pow2(1021));
    assert(rest.value() == 0x10_C6F7_A0B8_0000 * pow2(1002));
    assert(is_sum(rest, most, one));
}

/// 1e9 / 2^-20 is 1e9 * 2^20.
proof fn lemma_largest_quotient(fp: Fp)
    requires
        fp.exact(),
    ensures
        fp.div(Num { bits: LARGEST_BIAS }, Num { bits: SMALL }).rank() == LARGE,
{
    let (bias, small, large) = (
        Num { bits: LARGEST_BIAS },
        Num { bits: SMALL },
        Num { bits: LARGE },
    );
    lemma2_to64_rest();
    lemma_pow2_pos(1054);
    lemma_pow2_adds(52, 1002);
    lemma_pow2_adds(1071, 1054);
    lemma_pow2_adds(1051, 1074);
    assert(small.value() == pow2(1054));
    assert(large.value() == 0x1D_CD65_0000_0000 * pow2(1071));
    assert(bias.value() == 0x1D_CD65_0000_0000 * pow2(1051));
    assert(large.value() * small.value() == bias.value() * unit()) by (nonlinear_arith)
        requires
            small.value() == pow2(1054),
            large.value() == 0x1D_CD65_0000_0000 * pow2(1071),
            bias.value() == 0x1D_CD65_0000_0000 * pow2(1051),
            unit() == pow2(1074),
            pow2(1071) * pow2(1054) == pow2(1051) * pow2(1074),
    ;
    assert(is_product(large, small, bias));
}

/// What the divider gives for a share of the rail.
spec fn divided(fp: Fp, bias: Num, share: Num) -> Num {
    fp.div(fp.mul(bias, share), fp.sub(Num { bits: ONE }, share))
}

#[verifier::spinoff_prover]
#[verifier::rlimit(40)]
proof fn lemma_divided(fp: Fp, bias: Num, share: Num)
    requires
        fp.orderly(),
        fp.exact(),
        (Num { bits: ONE }).at_most(bias),
        bias.at_most(Num { bits: LARGEST_BIAS }),
        (Num { bits: LEAST }).at_most(share),
        share.at_most(Num { bits: MOST }),
    ensures
        divided(fp, bias, share).finite(),
        divided(fp, bias, share).rank() >= LEAST,
        fp.mul(bias, share).finite(),
        fp.mul(bias, share).rank() >= LEAST,
        fp.sub(Num { bits: ONE }, share).finite(),
        fp.sub(Num { bits: ONE }, share).rank() > 0,
{
    let (zero, one, most, largest, small) = (
        Num { bits: ZERO },
        Num { bits: ONE },
        Num { bits: MOST },
        Num { bits: LARGEST_BIAS },
        Num { bits: SMALL },
    );
    let (top, rest) = (fp.mul(bias, share), fp.sub(one, share));
    lemma_neutral(fp, share);
    lemma_neutral(fp, bias);
    lemma_neutral(fp, one);
    lemma_products_rise(fp, share, one, bias);
    lemma_products_rise(fp, bias, share, one);
    lemma_differences_rise(fp, one, zero, share);
    lemma_differences_rise(fp, one, share, most);
    lemma_rest_of_the_rail(fp);
    lemma_neutral(fp, top);
    lemma_quotients_fall(fp, top, rest, one);
    lemma_quotients_fall(fp, top, small, rest);
    lemma_quotients_rise(fp, small, top, largest);
    lemma_largest_quotient(fp);
}

proof fn lemma_share(fp: Fp, low: int, high: int)
    requires
        fp.orderly(),
        fp.exact(),
        0 <= low <= high <= u16::MAX,
    ensures
        (Num { bits: LEAST }).at_most(ThermistorFit::share_of(fp, low)),
        ThermistorFit::share_of(fp, low).at_most(ThermistorFit::share_of(fp, high)),
        ThermistorFit::share_of(fp, high).at_most(Num { bits: MOST }),
        low >= 1023 ==> ThermistorFit::share_of(fp, low) == (Num { bits: MOST }),
{
    let five = Num { bits: ADC_REFERENCE_VOLTS };
    law_volts_rise_with_the_count(fp, low, high);
    lemma_quotients_rise(fp, five, volts_at(fp, low), volts_at(fp, high));
    if low >= 1023 {
        law_volts_rise_with_the_count(fp, 1023, low);
        law_the_scale_spans_the_rail(fp);
        lemma_quotients_rise(fp, five, volts_at(fp, 1023), volts_at(fp, low));
        lemma_neutral(fp, five);
    }
}

/// At every count, on the scale and beyond it, the thermistor's resistance is
/// finite and positive. It never falls where the count rises, and stays what
/// it is from the top of the scale on.
#[verifier::spinoff_prover]
#[verifier::rlimit(40)]
pub proof fn law_the_resistance_is_a_resistance(
    fp: Fp,
    fit: ThermistorFit,
    low: int,
    high: int,
)
    requires
        fp.orderly(),
        fp.exact(),
        (Num { bits: ONE }).at_most(fit.bias_resistor),
        fit.bias_resistor.at_most(Num { bits: LARGEST_BIAS }),
        0 <= low <= high <= u16::MAX,
    ensures
        fit.resistance_of(fp, low).finite(),
        (Num { bits: ZERO }).below(fit.resistance_of(fp, low)),
        fit.resistance_of(fp, low).at_most(fit.resistance_of(fp, high)),
        low >= 1023 ==> fit.resistance_of(fp, low) == fit.resistance_of(fp, high),
{
    let (bias, one) = (fit.bias_resistor, Num { bits: ONE });
    let (s, t) = (ThermistorFit::share_of(fp, low), ThermistorFit::share_of(fp, high));
    lemma_share(fp, low, high);
    lemma_share(fp, high, high);
    lemma_divided(fp, bias, s);
    lemma_divided(fp, bias, t);
    lemma_products_rise(fp, bias, s, t);
    lemma_differences_rise(fp, one, s, t);
    lemma_quotients_rise(fp, fp.sub(one, s), fp.mul(bias, s), fp.mul(bias, t));
    lemma_quotients_fall(fp, fp.mul(bias, t), fp.sub(one, t), fp.sub(one, s));
}

/// The doubles between which the counts 1 to 1022 lie: 5/1024 and 5115/1024 in
/// volts, 1/1024 and 1023/1024 of the rail.
pub(crate) proof fn lemma_inner_scale(fp: Fp)
    requires
        fp.exact(),
    ensures
        ({
            let five = Num { bits: ADC_REFERENCE_VOLTS };
            let (v, w) = (Num { bits: 0x3F74_0000_0000_0000 }, Num { bits: 0x4013_FB00_0000_0000 });
            let top = Num { bits: 0x40B3_F601_4000_0000 };
            &&& fp.div(fp.count(5), fp.count(1024)) == v
            &&& fp.div(v, five) == (Num { bits: 0x3F50_0000_0000_0000 })
            &&& fp.count(5110).at_most(top)
            &&& fp.div(top, fp.count(1023)) == w
            &&& fp.div(w, five) == (Num { bits: 0x3FEF_F800_0000_0000 })
        }),
{
    let five = Num { bits: ADC_REFERENCE_VOLTS };
    let (v, w) = (Num { bits: 0x3F74_0000_0000_0000 }, Num { bits: 0x4013_FB00_0000_0000 });
    let top = Num { bits: 0x40B3_F601_4000_0000 };
    let (least, most) = (Num { bits: 0x3F50_0000_0000_0000 }, Num { bits: 0x3FEF_F800_0000_0000 });
    let (t, u) = (pow2(1064) as int, unit());
    lemma2_to64();
    lemma2_to64_rest();
    lemma_pow2_pos(1064);
    lemma_pow2_adds(10, 1064);
    lemma_pow2_adds(50, 1014);
    lemma_pow2_adds(52, 1012);
    lemma_pow2_adds(40, 1024);
    lemma_pow2_adds(30, 1034);
    lemma_pow2_adds(43, 1021);
    lemma_reference_is_five();
    lemma_zero_and_one();
    assert(v.value() == 0x14_0000_0000_0000 * pow2(1014));
    assert(least.value() == 0x10_0000_0000_0000 * pow2(1012));
    assert(w.value() == 0x13_FB00_0000_0000 * pow2(1024));
    assert(top.value() == 0x13_F601_4000_0000 * pow2(1034));
    assert(most.value() == 0x1F_F800_0000_0000 * pow2(1021));
    assert(u == 1024 * t);
    assert(5 * t * (1024 * u) == 5 * u * u) by (nonlinear_arith)
        requires
            u == 1024 * t,
    ;
    assert(is_product(v, fp.count(1024), fp.count(5)));
    assert(t * (5 * u) == 5 * t * u) by (nonlinear_arith);
    assert(is_product(least, five, v));
    assert(5115 * t * (1023 * u) == 5232645 * t * u) by (nonlinear_arith);
    assert(is_product(w, fp.count(1023), top));
    assert(1023 * t * (5 * u) == 5115 * t * u) by (nonlinear_arith);
    assert(is_product(most, five, w));
    law_rank_orders_values(fp.count(5110), top);
}

/// For every count but the ends of the scale, the share of the rail is the
/// count's voltage over the reference voltage: it is not clamped.
pub proof fn law_the_share_is_clamped_at_the_ends_alone(fp: Fp, adc: int)
    requires
        fp.orderly(),
        fp.exact(),
        1 <= adc <= 1022,
    ensures
        ThermistorFit::share_of(fp, adc) == fp.div(
            volts_at(fp, adc),
            Num { bits: ADC_REFERENCE_VOLTS },
        ),
{
    let five = Num { bits: ADC_REFERENCE_VOLTS };
    let (v, w) = (Num { bits: 0x3F74_0000_0000_0000 }, Num { bits: 0x4013_FB00_0000_0000 });
    let (zero, top) = (Num { bits: ZERO }, Num { bits: 0x40B3_F601_4000_0000 });
    let (steps, all) = (fp.count(1023), fp.count(1024));
    lemma_inner_scale(fp);
    lemma_volts(fp, 1);
    lemma_volts(fp, 1022);
    law_volts_rise_with_the_count(fp, 1, adc);
    law_volts_rise_with_the_count(fp, adc, 1022);
    lemma_zero_and_one();
    law_rank_orders_values(steps, all);
    law_rank_orders_values(zero, steps);
    law_rank_orders_values(zero, fp.count(5));
    lemma_quotients_fall(fp, fp.count(5), steps, all);
    lemma_quotients_rise(fp, steps, fp.count(5110), top);
    lemma_quotients_rise(fp, five, v, volts_at(fp, adc));
    lemma_quotients_rise(fp, five, volts_at(fp, adc), w);
}

/// The divider gives the voltage back: for every count but the ends of the
/// scale, `5·R / (Rbias + R)` is the voltage of the count, up to the 2^-49th
/// part.
#[verifier::spinoff_prover]
#[verifier::rlimit(40)]
pub proof fn law_the_divider_gives_the_voltage_back(fp: Fp, fit: ThermistorFit, adc: int)
    requires
        fp.orderly(),
        fp.exact(),
        fp.close(),
        (Num { bits: ONE }).at_most(fit.bias_resistor),
        fit.bias_resistor.at_most(Num { bits: LARGEST_BIAS }),
        1 <= adc <= 1022,
    ensures
        ({
            let (volts, bias) = (volts_at(fp, adc).value(), fit.bias_resistor.value());
            let resistance = fit.resistance_of(fp, adc).value();
            0x2_0000_0000_0000 * size(volts * (bias + resistance) - 5 * resistance * unit()) <= 5
                * resistance * unit()
        }),
{
    let (zero, one, five) = (
        Num { bits: ZERO },
        Num { bits: ONE },
        Num { bits: ADC_REFERENCE_VOLTS },
    );
    let share = ThermistorFit::share_of(fp, adc);
    lemma_share(fp, adc, adc);
    law_the_share_is_clamped_at_the_ends_alone(fp, adc);
    lemma_divided(fp, fit.bias_resistor, share);
    law_volts_rise_with_the_count(fp, adc, adc);
    lemma_reference_is_five();
    lemma_zero_and_one();
    let (top, rest) = (fp.mul(fit.bias_resistor, share), fp.sub(one, share));
    let resistance = fp.div(top, rest);
    lemma_near_product(fp, fit.bias_resistor, share);
    lemma_near_quotient(fp, top, rest);
    lemma_near_quotient(fp, volts_at(fp, adc), five);
    law_rank_orders_values(zero, volts_at(fp, adc));
    law_rank_orders_values(zero, fit.bias_resistor);
    law_rank_orders_values(zero, share);
    law_rank_orders_values(share, one);
    law_rank_orders_values(zero, resistance);
    law_rank_orders_values(zero, top);
    lemma_divider_bound(
        unit(),
        volts_at(fp, adc).value(),
        fit.bias_resistor.value(),
        share.value(),
        top.value(),
        rest.value(),
        resistance.value(),
    );
}

/// How the roundings of the divider add up.
#[verifier::spinoff_prover]
#[verifier::rlimit(40)]
proof fn lemma_divider_bound(
    u: int,
    volts: int,
    bias: int,
    share: int,
    top: int,
    rest: int,
    resistance: int,
)
    requires
        u > 0,
        0 <= volts,
        0 <= bias,
        0 <= share <= u,
        0 <= top,
        0 <= resistance,
        near(volts * u, share * (5 * u)),
        near(bias * share, top * u),
        near(u - share, rest),
        near(top * u, resistance * rest),
    ensures
        0x2_0000_0000_0000 * size(volts * (bias + resistance) - 5 * resistance * u) <= 5 * resistance
            * u,
{
    let e = 0x10_0000_0000_0000int;
    let (x, t, p, y, w) = (
        bias * share,
        top * u,
        resistance * rest,
        resistance * (u - share),
        resistance * u,
    );
    assert(0 <= x && 0 <= t && 0 <= y <= w) by (nonlinear_arith)
        requires
            0 <= bias,
            0 <= share <= u,
            0 <= top,
            0 <= resistance,
            x == bias * share,
            t == top * u,
            y == resistance * (u - share),
            w == resistance * u,
            u > 0,
    ;
    let d = u - share - rest;
    assert(e * (y - p) <= y && e * (p - y) <= y) by (nonlinear_arith)
        requires
            e * d <= u - share,
            -(e * d) <= u - share,
            d == u - share - rest,
            0 <= resistance,
            y == resistance * (u - share),
            p == resistance * rest,
    {
        assert(y - p == resistance * d);
        assert(resistance * (e * d) <= resistance * (u - share));
        assert(-(resistance * (e * d)) <= resistance * (u - share));
        assert(resistance * (e * d) == e * (resistance * d));
    }
    assert(e * size(x - t) <= x);
    assert(e * size(t - p) <= t);
    assert(0x4_0000_0000_0000 * size(x - y) <= w);
    let f = volts - 5 * share;
    assert(e * f <= volts && -(e * f) <= volts) by (nonlinear_arith)
        requires
            e * (volts * u - share * (5 * u)) <= volts * u,
            -(e * (volts * u - share * (5 * u))) <= volts * u,
            f == volts - 5 * share,
            u > 0,
    {
        assert(volts * u - share * (5 * u) == f * u);
        assert((e * f) * u == e * (f * u));
    }
    let all = bias + resistance;
    let (k, off, z) = (volts * all, f * all, share * all);
    assert(k == off + 5 * z && z == w + (x - y) && e * off <= k && -(e * off) <= k)
        by (nonlinear_arith)
        requires
            k == volts * all,
            off == f * all,
            z == share * all,
            f == volts - 5 * share,
            all == bias + resistance,
            0 <= all,
            w == resistance * u,
            x == bias * share,
            y == resistance * (u - share),
            e * f <= volts,
            -(e * f) <= volts,
    {
        assert(off == volts * all - 5 * (share * all));
        assert(share * all == share * bias + share * resistance);
        assert((e * f) * all <= volts * all);
        assert((-(e * f)) * all <= volts * all);
        assert((e * f) * all == e * (f * all));
    }
    assert(5 * resistance * u == 5 * w) by (nonlinear_arith)
        requires
            w == resistance * u,
    ;
}

impl ThermistorFit {
    /// Nothing overflows on the way from a logarithm to the temperature, and
    /// the temperature lies above absolute zero.
    pub open spec fn reads(self, fp: Fp, l: Num) -> bool {
        let (cl, cll) = (fp.mul(self.c, l), fp.mul(fp.mul(self.c, l), l));
        let inverse = fp.add(fp.add(self.a, fp.mul(self.b, l)), fp.mul(cll, l));
        &&& l.finite()
        &&& fp.mul(self.b, l).finite()
        &&& fp.add(self.a, fp.mul(self.b, l)).finite()
        &&& cl.finite()
        &&& cll.finite()
        &&& fp.mul(cll, l).finite()
        &&& inverse.finite()
        &&& inverse.rank() > 0
        &&& fp.div(Num { bits: ONE }, inverse).finite()
    }

    /// The logarithm that a resistance is read by.
    pub open spec fn log_read(fp: Fp, resistance: Num) -> Num {
        fp.ln(resistance.larger(Num { bits: LEAST }))
    }
}

/// `c·l·l·l`, as it is computed.
spec fn cube(fp: Fp, c: Num, l: Num) -> Num {
    fp.mul(fp.mul(fp.mul(c, l), l), l)
}

/// The signs of `c·l`, `c·l·l` and `c·l·l·l`, where `c` is not negative.
proof fn lemma_cube_signs(fp: Fp, c: Num, l: Num)
    requires
        fp.orderly(),
        fp.exact(),
        c.finite(),
        c.rank() >= 0,
        l.finite(),
        fp.mul(c, l).finite(),
        fp.mul(fp.mul(c, l), l).finite(),
    ensures
        fp.mul(fp.mul(c, l), l).rank() >= 0,
        l.rank() >= 0 ==> fp.mul(c, l).rank() >= 0 && cube(fp, c, l).rank() >= 0,
        l.rank() <= 0 ==> fp.mul(c, l).rank() <= 0 && cube(fp, c, l).rank() <= 0,
{
    let zero = Num { bits: ZERO };
    let (cl, cll) = (fp.mul(c, l), fp.mul(fp.mul(c, l), l));
    lemma_neutral(fp, c);
    lemma_neutral(fp, cl);
    lemma_neutral(fp, cll);
    if l.rank() >= 0 {
        lemma_products_rise(fp, c, zero, l);
        lemma_products_rise(fp, cl, zero, l);
        lemma_products_rise(fp, cll, zero, l);
    }
    if l.rank() <= 0 {
        lemma_products_rise(fp, c, l, zero);
        lemma_negative_products_fall(fp, cl, l, zero);
        lemma_products_rise(fp, cll, l, zero);
    }
}

#[verifier::spinoff_prover]
#[verifier::rlimit(40)]
proof fn lemma_cubes_rise(fp: Fp, c: Num, l: Num, m: Num)
    requires
        fp.orderly(),
        fp.exact(),
        c.finite(),
        c.rank() >= 0,
        l.finite(),
        m.finite(),
        l.at_most(m),
        fp.mul(c, l).finite(),
        fp.mul(fp.mul(c, l), l).finite(),
        cube(fp, c, l).finite(),
        fp.mul(c, m).finite(),
        fp.mul(fp.mul(c, m), m).finite(),
        cube(fp, c, m).finite(),
    ensures
        cube(fp, c, l).at_most(cube(fp, c, m)),
{
    let (cl, cll) = (fp.mul(c, l), fp.mul(fp.mul(c, l), l));
    let (cm, cmm) = (fp.mul(c, m), fp.mul(fp.mul(c, m), m));
    lemma_cube_signs(fp, c, l);
    lemma_cube_signs(fp, c, m);
    lemma_products_rise(fp, c, l, m);
    if l.rank() >= 0 {
        lemma_products_rise(fp, cl, l, m);
        lemma_products_rise(fp, m, cl, cm);
        lemma_products_rise(fp, cll, l, m);
        lemma_products_rise(fp, m, cll, cmm);
    } else if m.rank() <= 0 {
        lemma_negative_products_fall(fp, cl, l, m);
        lemma_negative_products_fall(fp, m, cl, cm);
        lemma_products_rise(fp, cll, l, m);
        lemma_negative_products_fall(fp, m, cmm, cll);
    }
}

#[verifier::spinoff_prover]
#[verifier::rlimit(40)]
proof fn lemma_inverses_rise(fp: Fp, fit: ThermistorFit, l: Num, m: Num)
    requires
        fp.orderly(),
        fp.exact(),
        fit.a.finite(),
        fit.b.finite(),
        fit.c.finite(),
        fit.b.rank() >= 0,
        fit.c.rank() >= 0,
        l.at_most(m),
        fit.reads(fp, l),
        fit.reads(fp, m),
    ensures
        fit.inverse_at(fp, l).at_most(fit.inverse_at(fp, m)),
{
    lemma_cubes_rise(fp, fit.c, l, m);
    lemma_lines_rise(fp, fit.a, fit.b, l, m);
    let (s, t) = (fp.add(fit.a, fp.mul(fit.b, l)), fp.add(fit.a, fp.mul(fit.b, m)));
    lemma_sums_rise(fp, cube(fp, fit.c, l), s, t);
    lemma_sums_rise(fp, t, cube(fp, fit.c, l), cube(fp, fit.c, m));
}

proof fn lemma_lines_rise(fp: Fp, a: Num, b: Num, l: Num, m: Num)
    requires
        fp.orderly(),
        a.finite(),
        b.finite(),
        b.rank() >= 0,
        l.finite(),
        m.finite(),
        l.at_most(m),
        fp.mul(b, l).finite(),
        fp.mul(b, m).finite(),
    ensures
        fp.add(a, fp.mul(b, l)).at_most(fp.add(a, fp.mul(b, m))),
{
    lemma_products_rise(fp, b, l, m);
    lemma_sums_rise(fp, a, fp.mul(b, l), fp.mul(b, m));
}

/// The logarithm that a resistance is read by never falls where the
/// resistance rises.
proof fn lemma_logs_read_rise(fp: Fp, low: Num, high: Num)
    requires
        fp.logs_rise(),
        low.at_most(high),
        ThermistorFit::log_read(fp, low).finite(),
        ThermistorFit::log_read(fp, high).finite(),
    ensures
        ThermistorFit::log_read(fp, low).at_most(ThermistorFit::log_read(fp, high)),
{
    let least = Num { bits: LEAST };
    assert(!fp.ln(high.larger(least)).below(fp.ln(low.larger(least))));
}

/// A larger inverse of the absolute temperature is no warmer.
proof fn lemma_kelvins_fall(fp: Fp, x: Num, y: Num)
    requires
        fp.orderly(),
        x.finite(),
        y.finite(),
        0 < x.rank() <= y.rank(),
        fp.div(Num { bits: ONE }, x).finite(),
        fp.div(Num { bits: ONE }, y).finite(),
    ensures
        fp.sub(fp.div(Num { bits: ONE }, y), Num { bits: KELVIN }).at_most(
            fp.sub(fp.div(Num { bits: ONE }, x), Num { bits: KELVIN }),
        ),
{
    let one = Num { bits: ONE };
    lemma_quotients_fall(fp, one, x, y);
    lemma_differences_rise(fp, Num { bits: KELVIN }, fp.div(one, y), fp.div(one, x));
}

/// With a B and a C coefficient that are not negative, a larger resistance
/// never reads warmer.
#[verifier::spinoff_prover]
#[verifier::rlimit(40)]
pub proof fn law_a_larger_resistance_is_no_warmer(
    fp: Fp,
    fit: ThermistorFit,
    low: Num,
    high: Num,
)
    requires
        fp.orderly(),
        fp.exact(),
        fp.logs_rise(),
        fit.a.finite(),
        fit.b.finite(),
        fit.c.finite(),
        fit.b.rank() >= 0,
        fit.c.rank() >= 0,
        low.at_most(high),
        fit.reads(fp, ThermistorFit::log_read(fp, low)),
        fit.reads(fp, ThermistorFit::log_read(fp, high)),
    ensures
        fit.temperature_of(fp, high).at_most(fit.temperature_of(fp, low)),
{
    let (l, m) = (ThermistorFit::log_read(fp, low), ThermistorFit::log_read(fp, high));
    lemma_logs_read_rise(fp, low, high);
    lemma_inverses_rise(fp, fit, l, m);
    lemma_kelvins_fall(fp, fit.inverse_at(fp, l), fit.inverse_at(fp, m));
}

/// With a B and a C coefficient that are not negative, the temperature never
/// rises where the count rises: a higher count is a higher voltage, a higher
/// resistance, and colder.
#[verifier::spinoff_prover]
#[verifier::rlimit(40)]
pub proof fn law_temperature_falls_as_the_count_rises(
    fp: Fp,
    fit: ThermistorFit,
    low: int,
    high: int,
)
    requires
        fp.orderly(),
        fp.exact(),
        fp.logs_rise(),
        fit.a.finite(),
        fit.b.finite(),
        fit.c.finite(),
        fit.b.rank() >= 0,
        fit.c.rank() >= 0,
        (Num { bits: ONE }).at_most(fit.bias_resistor),
        fit.bias_resistor.at_most(Num { bits: LARGEST_BIAS }),
        0 <= low <= high <= u16::MAX,
        fit.reads(fp, ThermistorFit::log_read(fp, fit.resistance_of(fp, low))),
        fit.reads(fp, ThermistorFit::log_read(fp, fit.resistance_of(fp, high))),
    ensures
        fit.reading_of(fp, high).at_most(fit.reading_of(fp, low)),
{
    law_the_resistance_is_a_resistance(fp, fit, low, high);
    law_a_larger_resistance_is_no_warmer(
        fp,
        fit,
        fit.resistance_of(fp, low),
        fit.resistance_of(fp, high),
    );
}

impl ThermistorFit {
    /// Nothing overflows or underflows on the way from a logarithm to
    /// `A + B·l + C·l³`.
    pub open spec fn cubic_holds(self, fp: Fp, l: Num) -> bool {
        let (bl, cl) = (fp.mul(self.b, l), fp.mul(self.c, l));
        let cll = fp.mul(cl, l);
        let clll = fp.mul(cll, l);
        &&& self.a.finite()
        &&& fp.holds_product(self.b, l)
        &&& fp.add(self.a, bl).finite()
        &&& fp.holds_product(self.c, l)
        &&& fp.holds_product(cl, l)
        &&& fp.holds_product(cll, l)
        &&& fp.add(fp.add(self.a, bl), clll).finite()
    }

    /// The absolute temperature at a logarithm, with every step rounded.
    pub open spec fn kelvin_rounded(self, fp: Fp, l: Num) -> Num {
        fp.div(
            Num { bits: 0x3FF0_0000_0000_0000 },
            fp.add(
                fp.add(self.a, fp.mul(self.b, l)),
                fp.mul(fp.mul(fp.mul(self.c, l), l), l),
            ),
        )
    }

    /// Nothing overflows or underflows on the way from a logarithm to the
    /// temperature.
    pub open spec fn reading_holds(self, fp: Fp, l: Num) -> bool {
        let bl = fp.mul(self.b, l);
        let clll = fp.mul(fp.mul(fp.mul(self.c, l), l), l);
        &&& self.cubic_holds(fp, l)
        &&& fp.holds_quotient(
            Num { bits: 0x3FF0_0000_0000_0000 },
            fp.add(fp.add(self.a, bl), clll),
        )
        &&& fp.sub(self.kelvin_rounded(fp, l), Num { bits: 0x4071_1266_6666_6666 }).finite()
    }
}

/// At every logarithm, the inverse of the absolute temperature is
/// `A + B·l + C·l³`, up to the 2^-49th part of `|A| + |B·l| + |C·l³|`.
#[verifier::spinoff_prover]
#[verifier::rlimit(40)]
pub proof fn law_the_inverse_temperature_is_a_cubic(fp: Fp, fit: ThermistorFit, l: Num)
    requires
        fp.exact(),
        fp.close(),
        fit.cubic_holds(fp, l),
    ensures
        ({
            let (a, b, c, n) = (fit.a.value(), fit.b.value(), fit.c.value(), l.value());
            let u = unit();
            &&& fit.inverse_at(fp, l).finite()
            &&& 0x2_0000_0000_0000 * size(
                fit.inverse_at(fp, l).value() * (u * u * u) - (a * (u * u * u) + b * n * (u * u) + c
                    * (n * n * n)),
            ) <= size(a) * (u * u * u) + size(b * n) * (u * u) + size(c * (n * n * n))
        }),
{
    let (bl, cl) = (fp.mul(fit.b, l), fp.mul(fit.c, l));
    let cll = fp.mul(cl, l);
    let clll = fp.mul(cll, l);
    let line = fp.add(fit.a, bl);
    lemma_zero_and_one();
    lemma_near_product(fp, fit.b, l);
    lemma_near_product(fp, fit.c, l);
    lemma_near_product(fp, cl, l);
    lemma_near_product(fp, cll, l);
    lemma_reading(
        unit(),
        fit.a.value(),
        fit.b.value(),
        fit.c.value(),
        l.value(),
        bl.value(),
        line.value(),
        cl.value(),
        cll.value(),
        clll.value(),
        fp.add(line, clll).value(),
    );
}

/// A temperature solves the equation of the fit: above 1e-6 Ω, the absolute
/// temperature times `A + B·ln(R) + C·ln(R)³` is one, up to rounding. Below,
/// and for what is no number, 1e-6 Ω is read in its place.
#[verifier::spinoff_prover]
#[verifier::rlimit(40)]
pub proof fn law_a_temperature_solves_the_equation(fp: Fp, fit: ThermistorFit, resistance: Num)
    requires
        fp.exact(),
        fp.close(),
        ({
            let least = Num { bits: 0x3EB0_C6F7_A0B5_ED8D };
            fit.reading_holds(
                fp,
                fp.ln(
                    if least.below(resistance) {
                        resistance
                    } else {
                        least
                    },
                ),
            )
        }),
    ensures
        ({
            let least = Num { bits: 0x3EB0_C6F7_A0B5_ED8D };
            let log = fp.ln(
                if least.below(resistance) {
                    resistance
                } else {
                    least
                },
            );
            let (a, b, c, l) = (fit.a.value(), fit.b.value(), fit.c.value(), log.value());
            let (u, zero_celsius) = (unit(), (Num { bits: 0x4071_1266_6666_6666 }).value());
            let exact = a * (u * u * u) + b * l * (u * u) + c * (l * l * l);
            let weight = size(a) * (u * u * u) + size(b * l) * (u * u) + size(c * (l * l * l));
            let temp = fit.temperature_of(fp, resistance);
            &&& temp.finite()
            &&& 0x1_0000_0000_0000 * size(
                (temp.value() + zero_celsius) * exact - u * u * (u * u * u),
            ) <= u * u * (u * u * u) + (2 * size(fit.kelvin_rounded(fp, log).value()) + size(
                zero_celsius,
            )) * weight
        }),
{
    let least = Num { bits: LEAST };
    let log = fp.ln(
        if least.below(resistance) {
            resistance
        } else {
            least
        },
    );
    let kelvin = fit.kelvin_rounded(fp, log);
    let inverse = fp.add(
        fp.add(fit.a, fp.mul(fit.b, log)),
        fp.mul(fp.mul(fp.mul(fit.c, log), log), log),
    );
    let (a, b, c, l, u) = (fit.a.value(), fit.b.value(), fit.c.value(), log.value(), unit());
    let (one, zero_celsius) = (Num { bits: ONE }, Num { bits: KELVIN });
    lemma_zero_and_one();
    law_the_inverse_temperature_is_a_cubic(fp, fit, log);
    lemma_near_quotient(fp, one, inverse);
    let (exact, weight) = (exact_inverse(u, a, b, c, l), reading_size(u, a, b, c, l));
    lemma_exact_below_its_size(u, a, b, c, l);
    lemma_kelvin(
        u,
        inverse.value(),
        exact,
        weight,
        kelvin.value(),
        zero_celsius.value(),
        fp.sub(kelvin, zero_celsius).value(),
    );
}

/// A fit reads its own points back up to rounding: for any three points that
/// fit, the temperature at the resistance of each is the temperature of that
/// point, up to the 2^-47th part of what was added and multiplied on the way.
#[verifier::spinoff_prover]
#[verifier::rlimit(40)]
pub proof fn law_the_fit_reads_near_its_points(
    fp: Fp,
    bias_resistor: Num,
    points: Seq<(Num, Num)>,
    i: int,
)
    requires
        fp.exact(),
        fp.close(),
        fit_holds(fp, points),
        0 <= i < 3,
        points[i].0.finite(),
        (Num { bits: 0x3EB0_C6F7_A0B5_ED8D }).at_most(points[i].1),
        fp.holds_quotient(
            Num { bits: 0x3FF0_0000_0000_0000 },
            fp.add(points[i].0, Num { bits: 0x4071_1266_6666_6666 }),
        ),
        fit_of(fp, bias_resistor, points) is Ok,
        fit_of(fp, bias_resistor, points)->Ok_0.reading_holds(fp, fp.ln(points[i].1)),
    ensures
        ({
            let fit = fit_of(fp, bias_resistor, points)->Ok_0;
            let (a, b, c) = (fit.a.value(), fit.b.value(), fit.c.value());
            let (l, u) = (fp.ln(points[i].1).value(), unit());
            let zero_celsius = Num { bits: 0x4071_1266_6666_6666 };
            let inverse = fp.div(
                Num { bits: 0x3FF0_0000_0000_0000 },
                fp.add(points[i].0, zero_celsius),
            ).value();
            let kelvin = fit.kelvin_rounded(fp, fp.ln(points[i].1)).value();
            let weight = fit_weight(fp, points, i) + (size(a) * (u * u * u) + size(b * l) * (u * u)
                + size(c * (l * l * l)));
            let (temp, wanted) = (fit.temperature_of(fp, points[i].1), points[i].0.value());
            &&& temp.finite()
            &&& 0x8000_0000_0000 * size((temp.value() - wanted) * inverse * (u * u * u)) <= size(
                kelvin,
            ) * weight + u * u * (u * u * u) + (size(kelvin) + size(wanted) + 2 * size(
                zero_celsius.value(),
            )) * size(inverse) * (u * u * u)
        }),
{
    let fit = fit_of(fp, bias_resistor, points)->Ok_0;
    law_the_fit_passes_near_its_points(fp, bias_resistor, points, i);
    lemma_point_read_back(fp, fit, points[i].0, points[i].1, fit_weight(fp, points, i));
}

/// How far the temperature that a fit reads lies from that of a point near
/// which it passes.
#[verifier::spinoff_prover]
#[verifier::rlimit(40)]
proof fn lemma_point_read_back(fp: Fp, fit: ThermistorFit, temp: Num, resistance: Num, fitted: int)
    requires
        fp.exact(),
        fp.close(),
        temp.finite(),
        (Num { bits: LEAST }).at_most(resistance),
        fp.holds_quotient(Num { bits: ONE }, fp.add(temp, Num { bits: KELVIN })),
        fit.reading_holds(fp, fp.ln(resistance)),
        0x1_0000_0000_0000 * size(
            residue(
                unit(),
                fit.a.value(),
                fit.b.value(),
                fit.c.value(),
                fp.ln(resistance).value(),
                fp.div(Num { bits: ONE }, fp.add(temp, Num { bits: KELVIN })).value(),
            ),
        ) <= fitted,
    ensures
        ({
            let (a, b, c) = (fit.a.value(), fit.b.value(), fit.c.value());
            let (l, u) = (fp.ln(resistance).value(), unit());
            let zero_celsius = Num { bits: KELVIN };
            let inverse = fp.div(Num { bits: ONE }, fp.add(temp, zero_celsius)).value();
            let kelvin = fit.kelvin_rounded(fp, fp.ln(resistance)).value();
            let weight = fitted + reading_size(u, a, b, c, l);
            let (read, wanted) = (fit.temperature_of(fp, resistance), temp.value());
            &&& read.finite()
            &&& 0x8000_0000_0000 * size((read.value() - wanted) * inverse * (u * u * u)) <= size(
                kelvin,
            ) * weight + u * u * (u * u * u) + (size(kelvin) + size(wanted) + 2 * size(
                zero_celsius.value(),
            )) * size(inverse) * (u * u * u)
        }),
{
    let log = fp.ln(resistance);
    let (one, zero_celsius) = (Num { bits: ONE }, Num { bits: KELVIN });
    let there = fp.add(temp, zero_celsius);
    let y = fp.div(one, there).value();
    let kelvin = fit.kelvin_rounded(fp, log);
    let inverse = fp.add(
        fp.add(fit.a, fp.mul(fit.b, log)),
        fp.mul(fp.mul(fp.mul(fit.c, log), log), log),
    );
    let (a, b, c, l, u) = (fit.a.value(), fit.b.value(), fit.c.value(), log.value(), unit());
    lemma_zero_and_one();
    law_the_inverse_temperature_is_a_cubic(fp, fit, log);
    lemma_near_quotient(fp, one, inverse);
    lemma_near_quotient(fp, one, there);
    let (rest, whole) = (residue(u, a, b, c, l, y), reading_size(u, a, b, c, l));
    let exact = exact_inverse(u, a, b, c, l);
    let t = u * u * u;
    let d = inverse.value() * t - exact;
    assert((inverse.value() - y) * t == d + rest) by (nonlinear_arith)
        requires
            d == inverse.value() * t - exact,
            rest == exact - y * t,
    ;
    lemma_exact_below_its_size(u, a, b, c, l);
    assert(0x8000_0000_0000 * size(d + rest) <= fitted + whole) by {
        assert(size(d + rest) <= size(d) + size(rest));
    }
    lemma_read_back(
        u,
        inverse.value(),
        y,
        fitted + whole,
        kelvin.value(),
        there.value(),
        zero_celsius.value(),
        fp.sub(kelvin, zero_celsius).value(),
        temp.value(),
    );
}

/// Which points fit, and what is said of those that do not: the first point
/// whose resistance is zero or less is named, by its number from one; then
/// come the points whose logarithms leave a spread of less than 1e-12.
pub proof fn law_which_points_fit(fp: Fp, bias_resistor: Num, points: Seq<(Num, Num)>)
    ensures
        ({
            let (l0, l1, l2) = (fp.ln(points[0].1), fp.ln(points[1].1), fp.ln(points[2].1));
            let spread = fp.mul(fp.sub(l2, l1), fp.add(fp.add(l0, l1), l2));
            let (zero, least) = (Num { bits: 0 }, Num { bits: 0x3D71_9799_812D_EA11 });
            let fit = fit_of(fp, bias_resistor, points);
            &&& fit is Ok <==> {
                &&& forall|i: int| 0 <= i < 3 ==> !(#[trigger] points[i]).1.at_most(zero)
                &&& spread.finite()
                &&& !spread.unsigned().below(least)
            }
            &&& fit matches Ok(found) ==> found.bias_resistor == bias_resistor
            &&& forall|i: int|
                0 <= i < 3 && (#[trigger] points[i]).1.at_most(zero) && (forall|j: int|
                    0 <= j < i ==> !(#[trigger] points[j]).1.at_most(zero)) ==> fit == Err::<
                    ThermistorFit,
                    ErrorView,
                >(
                    ErrorView::DegenerateInputs(
                        "thermistor resistance must be positive (point "@ + seq![
                            ('0' as u32 + i + 1) as char,
                        ] + " was "@ + fp.plain(points[i].1) + " Ω)"@,
                    ),
                )
            &&& (forall|i: int| 0 <= i < 3 ==> !(#[trigger] points[i]).1.at_most(zero)) && fit is Err
                ==> fit == Err::<ThermistorFit, ErrorView>(
                ErrorView::DegenerateInputs(
                    "the three thermistor points are collinear in log-resistance and cannot be fitted"@,
                ),
            )
        }),
{
    let zero = Num { bits: ZERO };
    assert(decimal(1) == seq!['1'] && decimal(2) == seq!['2'] && decimal(3) == seq!['3']);
    if fit_of(fp, bias_resistor, points) is Ok {
        assert(!not_positive(points, 0) && !not_positive(points, 1) && !not_positive(points, 2));
    }
    if forall|i: int| 0 <= i < 3 ==> !(#[trigger] points[i]).1.at_most(zero) {
        assert(!points[0].1.at_most(zero) && !points[1].1.at_most(zero) && !points[2].1.at_most(
            zero,
        ));
    }
}

/// The share of the rail that a count is read at: 1e-6 at count 0, 1 - 1e-6
/// from count 1023 on, and its voltage over 5 V in between. The resistance is
/// the bias resistor times the share, over what is left of the rail; the
/// reading is the temperature at that resistance.
pub proof fn law_a_count_is_read_through_the_divider(fp: Fp, fit: ThermistorFit, adc: int)
    requires
        fp.orderly(),
        fp.exact(),
        0 <= adc <= u16::MAX,
    ensures
        ({
            let one = Num { bits: 0x3FF0_0000_0000_0000 };
            let five = Num { bits: 0x4014_0000_0000_0000 };
            let share = if adc == 0 {
                Num { bits: 0x3EB0_C6F7_A0B5_ED8D }
            } else if adc >= 1023 {
                Num { bits: 0x3FEF_FFFD_E721_0BE9 }
            } else {
                fp.div(fp.div(fp.mul(fp.count(adc), five), fp.count(1023)), five)
            };
            let resistance = fp.div(fp.mul(fit.bias_resistor, share), fp.sub(one, share));
            &&& fit.resistance_of(fp, adc) == resistance
            &&& fit.reading_of(fp, adc) == fit.temperature_of(fp, resistance)
        }),
{
    let five = Num { bits: ADC_REFERENCE_VOLTS };
    let zero = Num { bits: ZERO };
    lemma_share(fp, adc, adc);
    lemma_adc_steps(fp);
    if adc == 0 {
        law_volts_rise_with_the_count(fp, 0, 0);
        law_the_scale_spans_the_rail(fp);
        lemma_neutral(fp, five);
        lemma_quotients_rise(fp, five, volts_at(fp, 0), zero);
    } else if adc <= 1022 {
        law_the_share_is_clamped_at_the_ends_alone(fp, adc);
    }
}

/// Every resistance is read by the same steps, whatever overflows on the way.
pub proof fn law_one_formula_reads_every_resistance(
    fp: Fp,
    fit: ThermistorFit,
    resistance: Num,
)
    ensures
        fit.temperature_of(fp, resistance) == fp.sub(
            fit.kelvin_rounded(
                fp,
                fp.ln(
                    if (Num { bits: 0x3EB0_C6F7_A0B5_ED8D }).below(resistance) {
                        resistance
                    } else {
                        Num { bits: 0x3EB0_C6F7_A0B5_ED8D }
                    },
                ),
            ),
            Num { bits: 0x4071_1266_6666_6666 },
        ),
{
}

/// Every three points are fitted by the same steps, whatever overflows on the
/// way: C from how the rise of the inverse temperature changes, B from the
/// rise to point 1, and A from point 0.
pub proof fn law_one_formula_fits_all_points(fp: Fp, bias_resistor: Num, points: Seq<(Num, Num)>)
    requires
        fit_of(fp, bias_resistor, points) is Ok,
    ensures
        ({
            let fit = fit_of(fp, bias_resistor, points)->Ok_0;
            let (one, zero_celsius) = (
                Num { bits: 0x3FF0_0000_0000_0000 },
                Num { bits: 0x4071_1266_6666_6666 },
            );
            let (l0, l1, l2) = (fp.ln(points[0].1), fp.ln(points[1].1), fp.ln(points[2].1));
            let (y0, y1, y2) = (
                fp.div(one, fp.add(points[0].0, zero_celsius)),
                fp.div(one, fp.add(points[1].0, zero_celsius)),
                fp.div(one, fp.add(points[2].0, zero_celsius)),
            );
            let (rise1, rise2) = (
                fp.div(fp.sub(y1, y0), fp.sub(l1, l0)),
                fp.div(fp.sub(y2, y0), fp.sub(l2, l0)),
            );
            let squares = fp.add(fp.add(fp.mul(l0, l0), fp.mul(l0, l1)), fp.mul(l1, l1));
            &&& fit.c == fp.div(
                fp.sub(rise2, rise1),
                fp.mul(fp.sub(l2, l1), fp.add(fp.add(l0, l1), l2)),
            )
            &&& fit.b == fp.sub(rise1, fp.mul(fit.c, squares))
            &&& fit.a == fp.sub(
                y0,
                fp.mul(fp.add(fit.b, fp.mul(fp.mul(l0, l0), fit.c)), l0),
            )
        }),
{
}

} // verus!
