use libretune_core::autotune::afr_validity::{
    AfrInvalid, AfrValidity, EPSILON, FROZEN_HOLD_MS, STATUS_HOLD_MS, STATUS_TOLERANCE,
    STATUS_VALUES,
};
use libretune_core::machine::{Calc, Machine, Style};
use libretune_core::num::Num;

fn num(x: f64) -> Num {
    Num { bits: x.to_bits() }
}

fn float(n: Num) -> f64 {
    f64::from_bits(n.bits)
}

fn calc(q: Calc) -> Num {
    num(match q {
        Calc::Add(a, b) => float(a) + float(b),
        Calc::Sub(a, b) => float(a) - float(b),
        Calc::Mul(a, b) => float(a) * float(b),
        Calc::Div(a, b) => float(a) / float(b),
        Calc::Ln(a) => float(a).ln(),
        Calc::Count(n) => n as f64,
    })
}

fn show(n: Num, style: Style) -> String {
    match (style.places, style.plus) {
        (Some(p), true) => format!("{:+.*}", p, float(n)),
        (Some(p), false) => format!("{:.*}", p, float(n)),
        (None, true) => format!("{:+}", float(n)),
        (None, false) => format!("{}", float(n)),
    }
}

fn machine() -> Machine<fn(Calc) -> Num, fn(Num, Style) -> String> {
    Machine { calc, show }
}

fn check(v: &mut AfrValidity, afr: f64, t_ms: u64, rail: f64) -> Option<AfrInvalid> {
    v.check(&machine(), num(afr), t_ms, num(rail))
}

/// 19.7 held for tens of seconds is the sensor out of range, not a lean
/// mixture.
#[test]
fn railed_reading_is_refused_once_it_persists() {
    let mut v = AfrValidity::new();
    assert_eq!(check(&mut v, 19.7, 0, 19.7), None, "first sample cannot be judged");
    assert_eq!(check(&mut v, 19.7, 400, 19.7), None, "brief rail is still allowed");
    assert_eq!(check(&mut v, 19.7, 1_000, 19.7), Some(AfrInvalid::HeldStatusValue));
}

/// The Spartan 2's calibration outputs, held while it warms up.
#[test]
fn spartan_calibration_values_are_refused_when_held() {
    for value in [13.33, 16.67] {
        let mut v = AfrValidity::new();
        check(&mut v, value, 0, 19.7);
        assert_eq!(
            check(&mut v, value, 900, 19.7),
            Some(AfrInvalid::HeldStatusValue),
            "{value} held for 0.9 s is the controller, not a mixture"
        );
    }
}

/// Those same values occur as real readings; a brief one must pass.
#[test]
fn genuine_readings_on_a_status_value_are_kept() {
    let mut v = AfrValidity::new();
    check(&mut v, 13.3, 0, 19.7);
    assert_eq!(check(&mut v, 13.3, 200, 19.7), None);
    assert_eq!(check(&mut v, 13.3, 460, 19.7), None, "0.46 s is real data");
    assert_eq!(check(&mut v, 13.4, 520, 19.7), None);
}

/// A channel stuck at an ordinary value is still broken.
#[test]
fn frozen_channel_is_refused_even_at_a_plausible_value() {
    let mut v = AfrValidity::new();
    check(&mut v, 14.70, 0, 19.7);
    assert_eq!(check(&mut v, 14.70, 2_000, 19.7), None, "steady idle is allowed");
    assert_eq!(check(&mut v, 14.70, 3_500, 19.7), Some(AfrInvalid::Frozen));
}

/// Normal dithering never trips anything.
#[test]
fn dithering_reading_always_passes() {
    let mut v = AfrValidity::new();
    for (i, afr) in [14.6, 14.7, 14.6, 14.8, 14.7, 14.9].iter().enumerate() {
        assert_eq!(check(&mut v, *afr, i as u64 * 60, 19.7), None);
    }
}

#[test]
fn reset_forgets_the_current_run() {
    let mut v = AfrValidity::new();
    check(&mut v, 19.7, 0, 19.7);
    v.reset();
    assert_eq!(
        check(&mut v, 19.7, 10_000, 19.7),
        None,
        "after a reset the run starts again rather than judging across the gap"
    );
}

#[test]
fn holds_are_refused_from_their_limit_on() {
    let mut v = AfrValidity::default();
    check(&mut v, 13.33, 100, f64::NAN);
    assert_eq!(check(&mut v, 13.33, 100 + STATUS_HOLD_MS - 1, f64::NAN), None);
    assert_eq!(
        check(&mut v, 13.33, 100 + STATUS_HOLD_MS, f64::NAN),
        Some(AfrInvalid::HeldStatusValue)
    );
    let mut w = AfrValidity::new();
    check(&mut w, 15.0, 100, f64::NAN);
    assert_eq!(check(&mut w, 15.0, 100 + FROZEN_HOLD_MS - 1, f64::NAN), None);
    assert_eq!(check(&mut w, 15.0, 100 + FROZEN_HOLD_MS, f64::NAN), Some(AfrInvalid::Frozen));
    // The hold still counts from the first sample.
    assert_eq!(check(&mut w, 15.0, 100 + FROZEN_HOLD_MS + 1, f64::NAN), Some(AfrInvalid::Frozen));
}

#[test]
fn a_rail_is_only_a_status_value_where_it_is_given() {
    let mut v = AfrValidity::new();
    check(&mut v, 19.7, 0, f64::NAN);
    assert_eq!(check(&mut v, 19.7, 1_000, f64::NAN), None);
    assert_eq!(check(&mut v, 19.7, 3_000, f64::NAN), Some(AfrInvalid::Frozen));
    // The rail may be the only thing that makes it a status value.
    assert_eq!(check(&mut v, 19.7, 3_000, 19.65), Some(AfrInvalid::HeldStatusValue));
    assert_eq!(check(&mut v, 19.7, 3_000, 19.6), Some(AfrInvalid::Frozen));
}

#[test]
fn a_clock_that_runs_backwards_counts_as_no_time() {
    let mut v = AfrValidity::new();
    check(&mut v, 19.7, 5_000, 19.7);
    assert_eq!(check(&mut v, 19.7, 1_000, 19.7), None);
}

#[test]
fn a_nan_reading_never_holds() {
    let mut v = AfrValidity::new();
    check(&mut v, f64::NAN, 0, 19.7);
    assert_eq!(check(&mut v, f64::NAN, 60_000, 19.7), None);
}

#[test]
fn validity_constants_are_the_decimal_values() {
    assert_eq!(STATUS_VALUES.map(f64::from_bits), [13.33, 16.67]);
    assert_eq!(f64::from_bits(STATUS_TOLERANCE), 0.06);
    assert_eq!(f64::from_bits(EPSILON), f64::EPSILON);
    assert_eq!((STATUS_HOLD_MS, FROZEN_HOLD_MS), (750, 3_000));
}

#[test]
fn invalid_readings_have_labels() {
    assert_eq!(
        AfrInvalid::HeldStatusValue.label(),
        "wideband not measuring (held at a status value)"
    );
    assert_eq!(AfrInvalid::Frozen.label(), "wideband reading frozen");
}
