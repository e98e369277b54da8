//! Sensor calibration curves: turning an INI `referenceTable` solution into
//! the engineering values the ECU should store.
//!
//! Three ways to produce a curve, matching the INI's own vocabulary:
//!
//! * **`solution` expression**: a closed-form formula over `adcValue`
//!   ([`evaluate_solution`]).
//! * **`linearGenerator`**: two (volts, AFR) points ([`LinearWideband`]), which
//!   is also what [`auto_calibrate_from_plateaus`] solves for.
//! * **`thermGenerator`**: a three-point Steinhart–Hart thermistor fit
//!   ([`ThermistorFit`]).

use crate::machine::{
    is_product, is_sum, lemma_near_quotient, lemma_near_unscaled, lemma_neutral,
    lemma_products_rise, lemma_quotients_fall, lemma_quotients_rise, near, Calc, Fp, Machine, Style,
};
use crate::num::{law_rank_orders_values, lemma_zero_and_one, unit, Num, ONE, ZERO};
use vstd::arithmetic::power2::{lemma2_to64_rest, lemma_pow2_adds, pow2};
use vstd::prelude::*;

pub mod error;
pub mod linear;
pub mod lookups;
pub mod plateau;
pub mod plateau_trace;
pub mod solution;
pub mod thermistor;
pub mod thermistor_rounding;

pub use error::CalibrationError;
pub use linear::LinearWideband;
pub use plateau::{
    auto_calibrate_from_plateaus, AfrSample, PlateauCalibration, PlateauDetectorConfig,
};
pub use solution::{
    evaluate_solution, evaluate_solution_with_tables, referenced_include_file,
    referenced_include_files, solution_curve, CalibrationSolution, Interpreter, LookupTables,
    ReferenceTable,
};
pub use thermistor::{ThermistorFit, ThermistorOption};

verus! {

/// ADC counts spanned by the Speeduino's 10-bit sensor inputs.
pub const ADC_COUNTS: usize = 1024;

/// 5.0: full-scale reference voltage of those inputs.
pub const ADC_REFERENCE_VOLTS: u64 = 0x4014_0000_0000_0000;

/// The number of steps between the lowest count and the highest.
pub open spec fn adc_steps(fp: Fp) -> Num {
    fp.sub(fp.count(ADC_COUNTS as int), Num { bits: ONE })
}

/// Volts at a position on the ADC's scale, in counts.
pub open spec fn scale_to_volts(fp: Fp, position: Num) -> Num {
    fp.div(fp.mul(position, Num { bits: ADC_REFERENCE_VOLTS }), adc_steps(fp))
}

/// Volts at an ADC count.
pub open spec fn volts_at(fp: Fp, adc: int) -> Num {
    scale_to_volts(fp, fp.count(adc))
}

/// Volts at a position on the ADC's scale, in counts.
pub(crate) fn position_to_volts<C: Fn(Calc) -> Num, S: Fn(Num, Style) -> String>(
    machine: &Machine<C, S>,
    position: Num,
) -> (r: Num)
    requires
        machine.total(),
    ensures
        forall|fp: Fp| #[trigger] machine.follows(fp) ==> r == scale_to_volts(fp, position),
{
    let steps = machine.sub(machine.count(ADC_COUNTS as u64), Num { bits: ONE });
    machine.div(machine.mul(position, Num { bits: ADC_REFERENCE_VOLTS }), steps)
}

/// Volts at a 10-bit ADC count (0 is 0 V, 1023 is 5 V).
pub fn adc_to_volts<C: Fn(Calc) -> Num, S: Fn(Num, Style) -> String>(
    machine: &Machine<C, S>,
    adc: u16,
) -> (r: Num)
    requires
        machine.total(),
    ensures
        forall|fp: Fp| #[trigger] machine.follows(fp) ==> r == volts_at(fp, adc as int),
{
    position_to_volts(machine, machine.count(adc as u64))
}

/// There are 1023 steps on the scale.
pub(crate) proof fn lemma_adc_steps(fp: Fp)
    requires
        fp.exact(),
    ensures
        adc_steps(fp) == fp.count(1023),
        fp.count(1023).finite(),
        fp.count(1023).rank() > 0,
{
    let (top, one, all) = (fp.count(1023), Num { bits: ONE }, fp.count(1024));
    lemma_zero_and_one();
    law_rank_orders_values(top, Num { bits: ZERO });
    assert(is_sum(top, one, all));
}

/// The bottom of the scale is 0 V.
pub(crate) proof fn lemma_nothing_is_no_volts(fp: Fp, position: Num)
    requires
        fp.exact(),
        position.rank() == 0,
    ensures
        scale_to_volts(fp, position).equals(Num { bits: ZERO }),
{
    let (zero, five, steps) = (
        Num { bits: ZERO },
        Num { bits: ADC_REFERENCE_VOLTS },
        fp.count(1023),
    );
    lemma_adc_steps(fp);
    lemma_zero_and_one();
    law_rank_orders_values(position, zero);
    law_rank_orders_values(steps, zero);
    assert(position.value() * five.value() == zero.value() * unit()) by (nonlinear_arith)
        requires
            position.value() == 0,
            zero.value() == 0,
    ;
    assert(is_product(position, five, zero));
    let product = fp.mul(position, five);
    law_rank_orders_values(product, zero);
    assert(zero.value() * steps.value() == product.value() * unit()) by (nonlinear_arith)
        requires
            product.value() == 0,
            zero.value() == 0,
    ;
    assert(is_product(zero, steps, product));
}

/// The reference voltage is five, exactly.
pub(crate) proof fn lemma_reference_is_five()
    ensures
        (Num { bits: ADC_REFERENCE_VOLTS }).value() == 5 * unit(),
{
    lemma2_to64_rest();
    lemma_pow2_adds(50, 1024);
    assert(0x4014_0000_0000_0000int / 0x0010_0000_0000_0000 == 1025);
    assert(0x4014_0000_0000_0000int % 0x0010_0000_0000_0000 == 0x0004_0000_0000_0000);
    assert(0x0014_0000_0000_0000 * pow2(1024) == 5 * (0x0004_0000_0000_0000 * pow2(1024)))
        by (nonlinear_arith);
}

/// A count of one or more stands for its fives over the steps.
pub(crate) proof fn lemma_volts(fp: Fp, n: int)
    requires
        fp.orderly(),
        fp.exact(),
        0 <= n <= u16::MAX,
    ensures
        volts_at(fp, n).finite(),
        volts_at(fp, n).rank() >= 0,
        n > 0 ==> volts_at(fp, n) == fp.div(fp.count(5 * n), fp.count(1023)),
        n == 0 ==> volts_at(fp, n).rank() == 0,
{
    let (zero, one, steps) = (Num { bits: ZERO }, Num { bits: ONE }, fp.count(1023));
    let fives = fp.count(5 * n);
    lemma_adc_steps(fp);
    lemma_zero_and_one();
    lemma_product_with_five(fp, n);
    assert(5 * n * unit() >= 0 && (n > 0 ==> 5 * n * unit() > 0)) by (nonlinear_arith)
        requires
            n >= 0,
            unit() > 0,
    ;
    law_rank_orders_values(fives, zero);
    law_rank_orders_values(fp.count(n), zero);
    law_rank_orders_values(one, steps);
    if n == 0 {
        assert(n * unit() == 0) by (nonlinear_arith)
            requires
                n == 0,
        ;
        lemma_nothing_is_no_volts(fp, fp.count(0));
    } else {
        assert(fp.mul(fp.count(n), Num { bits: ADC_REFERENCE_VOLTS }) == fives);
        lemma_neutral(fp, fives);
        lemma_neutral(fp, steps);
        lemma_quotients_rise(fp, steps, zero, fives);
        lemma_quotients_fall(fp, fives, one, steps);
    }
}

/// Volts are finite, are not negative, and rise with the count, on the scale
/// and beyond it.
pub proof fn law_volts_rise_with_the_count(fp: Fp, low: int, high: int)
    requires
        fp.orderly(),
        fp.exact(),
        0 <= low <= high <= u16::MAX,
    ensures
        volts_at(fp, low).finite(),
        volts_at(fp, high).finite(),
        (Num { bits: ZERO }).at_most(volts_at(fp, low)),
        volts_at(fp, low).at_most(volts_at(fp, high)),
{
    lemma_volts(fp, low);
    lemma_volts(fp, high);
    if low > 0 {
        let (l, h) = (fp.count(5 * low), fp.count(5 * high));
        lemma_zero_and_one();
        assert(5 * low * unit() <= 5 * high * unit()) by (nonlinear_arith)
            requires
                low <= high,
                unit() > 0,
        ;
        law_rank_orders_values(l, h);
        lemma_adc_steps(fp);
        lemma_quotients_rise(fp, fp.count(1023), l, h);
    }
}

/// A position on the scale that lies between two others stands for a voltage
/// that lies between theirs.
pub(crate) proof fn lemma_scale_rises(fp: Fp, low: Num, high: Num, n: int)
    requires
        fp.orderly(),
        fp.exact(),
        0 <= low.rank(),
        low.at_most(high),
        high.at_most(fp.count(n)),
        0 <= n <= u16::MAX + 1,
    ensures
        scale_to_volts(fp, low).at_most(scale_to_volts(fp, high)),
{
    let (zero, five, top) = (Num { bits: ZERO }, Num { bits: ADC_REFERENCE_VOLTS }, fp.count(n));
    lemma_adc_steps(fp);
    lemma_product_with_five(fp, n);
    lemma_products_rise(fp, five, zero, low);
    lemma_products_rise(fp, five, low, high);
    lemma_products_rise(fp, five, high, top);
    lemma_zero_times_five(fp);
    lemma_quotients_rise(fp, fp.count(1023), fp.mul(low, five), fp.mul(high, five));
}

proof fn lemma_zero_times_five(fp: Fp)
    requires
        fp.exact(),
    ensures
        fp.mul(Num { bits: ZERO }, Num { bits: ADC_REFERENCE_VOLTS }).equals(Num { bits: ZERO }),
{
    let (zero, five) = (Num { bits: ZERO }, Num { bits: ADC_REFERENCE_VOLTS });
    lemma_zero_and_one();
    assert(zero.value() * five.value() == zero.value() * unit()) by (nonlinear_arith)
        requires
            zero.value() == 0,
    ;
    assert(is_product(zero, five, zero));
}

/// The scale spans the reference rail: its bottom is 0 V, and its top is the
/// reference voltage.
pub proof fn law_the_scale_spans_the_rail(fp: Fp)
    requires
        fp.orderly(),
        fp.exact(),
    ensures
        volts_at(fp, 0).equals(Num { bits: ZERO }),
        volts_at(fp, 1023) == (Num { bits: ADC_REFERENCE_VOLTS }),
{
    let (zero, five, steps) = (
        Num { bits: ZERO },
        Num { bits: ADC_REFERENCE_VOLTS },
        fp.count(1023),
    );
    lemma_volts(fp, 0);
    lemma_volts(fp, 1023);
    lemma_reference_is_five();
    lemma_zero_and_one();
    lemma_adc_steps(fp);
    law_rank_orders_values(steps, zero);
    assert(5 * unit() * (1023 * unit()) == 5115 * unit() * unit()) by (nonlinear_arith);
    assert(is_product(five, steps, fp.count(5115)));
}

/// Five times a count is the count of five times as many.
proof fn lemma_product_with_five(fp: Fp, n: int)
    requires
        fp.exact(),
        0 <= n <= u16::MAX + 1,
    ensures
        fp.mul(fp.count(n), Num { bits: ADC_REFERENCE_VOLTS }).equals(fp.count(5 * n)),
{
    let five = Num { bits: ADC_REFERENCE_VOLTS };
    lemma_reference_is_five();
    assert(n * unit() * (5 * unit()) == 5 * n * unit() * unit()) by (nonlinear_arith);
    assert(is_product(fp.count(n), five, fp.count(5 * n)));
}

/// Volts are the count's share of the reference voltage: 1023 times the volts
/// are five times the count, up to rounding.
pub proof fn law_volts_are_the_counts_share(fp: Fp, adc: int)
    requires
        fp.orderly(),
        fp.exact(),
        fp.close(),
        0 <= adc <= u16::MAX,
    ensures
        near(5 * adc * unit(), 1023 * volts_at(fp, adc).value()),
{
    lemma_volts(fp, adc);
    lemma_zero_and_one();
    if adc == 0 {
        law_rank_orders_values(volts_at(fp, 0), Num { bits: ZERO });
        assert(5 * adc * unit() == 0) by (nonlinear_arith)
            requires
                adc == 0,
        ;
    } else {
        let (fives, steps, v) = (fp.count(5 * adc), fp.count(1023), volts_at(fp, adc));
        let u = unit();
        lemma_adc_steps(fp);
        thermistor::lemma_inner_scale(fp);
        law_volts_rise_with_the_count(fp, 1, adc);
        lemma_volts(fp, 1);
        law_rank_orders_values(fp.count(1023), fp.count(1024));
        law_rank_orders_values(Num { bits: ZERO }, fp.count(5));
        lemma_quotients_fall(fp, fp.count(5), fp.count(1023), fp.count(1024));
        lemma_near_quotient(fp, fives, steps);
        assert(v.value() * (1023 * u) == 1023 * v.value() * u) by (nonlinear_arith);
        lemma_near_unscaled(5 * adc * u, 1023 * v.value(), u);
    }
}

/// Volts at a count are computed as the count times five over 1024 - 1.
pub proof fn law_volts_are_computed_from_the_count(fp: Fp, adc: int)
    ensures
        volts_at(fp, adc) == fp.div(
            fp.mul(fp.count(adc), Num { bits: 0x4014_0000_0000_0000 }),
            fp.sub(fp.count(1024), Num { bits: 0x3FF0_0000_0000_0000 }),
        ),
{
}

} // verus!
