use libretune_core::calibration::plateau::{
    auto_calibrate_from_plateaus, find_runs, invert_curve, AfrSample, PlateauCalibration,
    PlateauDetectorConfig, LEVEL, SPARTAN2_PLATEAU_1, SPARTAN2_PLATEAU_2,
};
use libretune_core::calibration::{CalibrationError, ADC_COUNTS};
use libretune_core::machine::{Calc, Machine, Style};
use libretune_core::num::Num;

fn num(x: f64) -> Num {
    Num { bits: x.to_bits() }
}

fn float(n: Num) -> f64 {
    f64::from_bits(n.bits)
}

fn calc(q: Calc) -> Num {
    num(match q {
        Calc::Add(a, b) => float(a) + float(b),
        Calc::Sub(a, b) => float(a) - float(b),
        Calc::Mul(a, b) => float(a) * float(b),
        Calc::Div(a, b) => float(a) / float(b),
        Calc::Ln(a) => float(a).ln(),
        Calc::Count(n) => n as f64,
    })
}

fn show(n: Num, style: Style) -> String {
    match (style.places, style.plus) {
        (Some(p), true) => format!("{:+.*}", p, float(n)),
        (Some(p), false) => format!("{:.*}", p, float(n)),
        (None, true) => format!("{:+}", float(n)),
        (None, false) => format!("{}", float(n)),
    }
}

fn machine() -> Machine<fn(Calc) -> Num, fn(Num, Style) -> String> {
    Machine { calc, show }
}

/// The stock 14Point7 preset.
fn stock_14point7_curve() -> Vec<Num> {
    (0..ADC_COUNTS).map(|adc| num(10.0001 + adc as f64 * 0.0097752)).collect()
}

fn trace(steps: &[(f64, f64, f64)]) -> Vec<AfrSample> {
    // (start_s, end_s, afr) at 10 Hz.
    let mut out = Vec::new();
    for (start, end, afr) in steps {
        let mut t = *start;
        while t < *end {
            out.push(AfrSample { time_s: num(t), afr: num(*afr) });
            t += 0.1;
        }
    }
    out
}

fn calibrate(
    samples: &[AfrSample],
    curve: &[Num],
) -> Result<PlateauCalibration, CalibrationError> {
    auto_calibrate_from_plateaus(&machine(), samples, curve, &Default::default())
}

fn invert(curve: &[Num], afr: f64) -> Option<f64> {
    invert_curve(&machine(), curve, num(afr)).map(float)
}

#[test]
fn invert_curve_round_trips_the_stock_preset() {
    let curve = stock_14point7_curve();
    // 14Point7 spans about 10.0 to 20.0 across 0-5 V, so 15.0 sits mid-scale.
    let v = invert(&curve, 15.0).unwrap();
    assert!(v > 2.4 && v < 2.6, "15.0 AFR recovered as {v} V");
    // Out of range readings must not silently clamp to a rail.
    assert!(invert(&curve, 5.0).is_none());
    assert!(invert(&curve, 30.0).is_none());
}

#[test]
fn solves_the_hand_validated_na6_calibration() {
    // The two plateaus read 13.60 and 16.90 through the stock preset. Solved
    // by hand, this gives 9.69 AFR at 0 V and 19.80 at 5 V.
    let samples = trace(&[
        (0.0, 4.0, 13.60),
        (4.0, 9.0, 16.90),
        (9.0, 14.0, 14.90), // live reading once the sequence ends
    ]);
    let result = calibrate(&samples, &stock_14point7_curve()).unwrap();

    let m = machine();
    let at_0v = float(result.calibration.afr_at_volts(&m, num(0.0)));
    let at_5v = float(result.calibration.afr_at_volts(&m, num(5.0)));
    assert!((at_0v - 9.69).abs() < 0.05, "0 V calibration point was {at_0v}, expected ~9.69");
    assert!((at_5v - 19.80).abs() < 0.05, "5 V calibration point was {at_5v}, expected ~19.80");
    // The error really is a near-constant offset, so the two plateaus must
    // agree on it.
    assert!(
        float(result.offset_consistency_volts) < 0.02,
        "plateaus disagreed on the offset by {} V",
        float(result.offset_consistency_volts)
    );
    let offset = float(result.ground_offset_volts);
    assert!(
        offset > 0.05 && offset < 0.25,
        "implied ground offset {} V is outside the plausible range",
        offset
    );
}

#[test]
fn a_channel_pinned_at_the_rail_is_not_a_plateau() {
    // A disconnected wideband sits at the bottom of the scale forever.
    let samples = trace(&[(0.0, 5.0, 10.0), (5.0, 10.0, 10.0)]);
    let err = calibrate(&samples, &stock_14point7_curve()).unwrap_err();
    assert!(matches!(err, CalibrationError::DegenerateInputs(_)));
}

#[test]
fn a_steady_idle_alone_is_not_a_plateau_pair() {
    let samples = trace(&[(0.0, 20.0, 14.7)]);
    assert!(calibrate(&samples, &stock_14point7_curve()).is_err());
}

#[test]
fn falling_pairs_are_rejected() {
    // The sequence rises. A high-then-low pair is the tail of a sequence plus
    // a live reading, and fitting it would invert the curve.
    let samples = trace(&[(0.0, 4.0, 16.90), (4.0, 9.0, 13.60)]);
    assert!(calibrate(&samples, &stock_14point7_curve()).is_err());
}

#[test]
fn an_already_correct_sensor_yields_a_near_identity_offset() {
    // If the wiring were perfect the ECU would read exactly what the sensor
    // sends, and the solved offset should be about 0.
    let curve = stock_14point7_curve();
    let nominal = |bits: u64| (f64::from_bits(bits) / 5.0 * 1023.0).round() as usize;
    let afr1 = float(curve[nominal(SPARTAN2_PLATEAU_1.0)]);
    let afr2 = float(curve[nominal(SPARTAN2_PLATEAU_2.0)]);
    let samples = trace(&[(0.0, 4.0, afr1), (4.0, 9.0, afr2)]);
    let result = calibrate(&samples, &curve).unwrap();
    assert!(
        float(result.ground_offset_volts).abs() < 0.01,
        "offset {} V should be ~0 for a perfect install",
        float(result.ground_offset_volts)
    );
}

#[test]
fn a_curve_is_inverted_between_its_entries() {
    let curve: Vec<Num> = [10.0, 12.0, 16.0, 16.0, 14.0].map(num).to_vec();
    let volts = |position: f64| position * 5.0 / 1023.0;
    assert_eq!(invert(&curve, 10.0), Some(volts(0.0)));
    assert_eq!(invert(&curve, 11.0), Some(volts(0.5)));
    assert_eq!(invert(&curve, 12.0), Some(volts(1.0)));
    assert_eq!(invert(&curve, 15.0), Some(volts(1.75)));
    assert_eq!(invert(&curve, 9.9), None);
    assert_eq!(invert(&curve, 16.1), None);
    assert_eq!(invert(&curve, f64::NAN), None);
    let falling: Vec<Num> = [16.0, 12.0].map(num).to_vec();
    assert_eq!(invert(&falling, 15.0), Some(volts(0.25)));
    let level: Vec<Num> = [14.0, 14.0].map(num).to_vec();
    assert_eq!(invert(&level, 14.0), Some(0.0));
    assert_eq!(invert(&level[..1], 14.0), None);
    assert_eq!(invert(&[], 14.0), None);
}

/// A curve that reads a voltage as the same AFR.
fn volt_curve() -> Vec<Num> {
    (0..ADC_COUNTS).map(|adc| num(adc as f64 * 5.0 / 1023.0)).collect()
}

#[test]
fn runs_are_levels_of_a_plateaus_length_off_the_rails() {
    let samples = trace(&[
        (0.0, 4.0, 0.1),    // at the lower rail
        (4.0, 8.0, 1.5),    // a run
        (8.0, 9.0, 2.5),    // too short
        (9.0, 13.0, 3.0),   // a run
        (13.0, 24.0, 1.0),  // too long
        (24.0, 28.0, 4.95), // at the upper rail
        (28.0, 32.0, 9.0),  // off the curve
        (32.0, 36.0, 2.0),  // a run, open at the end
    ]);
    let runs = find_runs(&machine(), &samples, &volt_curve(), &PlateauDetectorConfig::default());
    let levels: Vec<f64> = runs.iter().map(|r| (float(r.volts) * 10.0).round() / 10.0).collect();
    assert_eq!(levels, vec![1.5, 3.0, 2.0]);
    assert!((float(runs[0].start_s) - 4.0).abs() < 1e-9);
    assert!(float(runs[0].end_s) > 7.85 && float(runs[0].end_s) < 8.0);
    assert!(find_runs(&machine(), &[], &volt_curve(), &Default::default()).is_empty());
}

#[test]
fn a_run_spreads_no_wider_than_the_tolerance() {
    let curve: Vec<Num> = (0..ADC_COUNTS).map(|adc| num(adc as f64)).collect();
    let runs = |afr: [f64; 4]| {
        let samples: Vec<AfrSample> = (0..4)
            .map(|i| AfrSample { time_s: num(i as f64), afr: num(afr[i]) })
            .collect();
        find_runs(&machine(), &samples, &curve, &PlateauDetectorConfig::default()).len()
    };
    // Each reading is within 0.25 of the first, but they lie 0.5 apart.
    assert_eq!(runs([341.0, 341.25, 340.75, 341.0]), 0);
    assert_eq!(runs([341.0, 341.25, 341.0, 341.25]), 1);
    assert_eq!(runs([341.0, 340.875, 341.125, 341.0]), 1);
    assert_eq!(runs([341.0, 341.5, 341.0, 341.0]), 0);
}

#[test]
fn a_curve_inverts_at_its_own_entries() {
    let rising = stock_14point7_curve();
    let mut falling = rising.clone();
    falling.reverse();
    let m = machine();
    for curve in [rising, falling] {
        for (i, afr) in curve.iter().enumerate() {
            let volts = invert_curve(&m, &curve, *afr).map(float);
            assert_eq!(volts, Some(i as f64 * 5.0 / 1023.0));
        }
    }
}

#[test]
fn a_recovered_voltage_lies_between_its_counts() {
    let rising = stock_14point7_curve();
    let mut falling = rising.clone();
    falling.reverse();
    for curve in [rising, falling] {
        for i in 0..ADC_COUNTS - 1 {
            for part in [0.1, 0.5, 0.9] {
                let (a, b) = (float(curve[i]), float(curve[i + 1]));
                let v = invert(&curve, a + (b - a) * part).unwrap();
                let volts = |n: usize| n as f64 * 5.0 / 1023.0;
                assert!(volts(i) <= v && v <= volts(i + 1));
            }
        }
    }
}

#[test]
fn runs_come_in_the_order_of_the_trace_and_do_not_overlap() {
    let samples = trace(&[(0.0, 4.0, 3.0), (4.0, 8.0, 1.5), (8.0, 8.5, 4.0), (8.5, 12.0, 2.0)]);
    let runs = find_runs(&machine(), &samples, &volt_curve(), &Default::default());
    assert_eq!(runs.len(), 3);
    for pair in runs.windows(2) {
        assert!(float(pair[0].start_s) < float(pair[0].end_s));
        assert!(float(pair[0].end_s) < float(pair[1].start_s));
    }
}

#[test]
fn only_the_settled_tail_of_a_run_is_averaged() {
    // Four samples a second; the first half ramps within the tolerance.
    let mut samples = Vec::new();
    for i in 0..17 {
        let afr = if i < 8 { 2.0 + 0.01 * i as f64 } else { 2.125 };
        samples.push(AfrSample { time_s: num(i as f64 * 0.25), afr: num(afr) });
    }
    let runs = find_runs(&machine(), &samples, &volt_curve(), &Default::default());
    assert_eq!(runs.len(), 1);
    assert_eq!(float(runs[0].settled_afr), 2.125);
}

#[test]
fn of_several_rising_pairs_the_one_nearest_the_nominal_ratio_is_taken() {
    let samples = trace(&[
        (0.0, 4.0, 1.0),
        (4.0, 8.0, 1.6),  // ratio 1.6
        (8.0, 12.0, 3.2), // ratio 2.0
        (12.0, 16.0, 4.5),
    ]);
    let result = calibrate(&samples, &volt_curve()).unwrap();
    let (v1, v2) = result.observed_volts;
    assert!((float(v1) - 1.6).abs() < 1e-6 && (float(v2) - 3.2).abs() < 1e-6);
    // Each plateau is laid at what the sensor sent.
    let m = machine();
    assert!((float(result.calibration.afr_at_volts(&m, v1)) - 13.328).abs() < 1e-9);
    assert!((float(result.calibration.afr_at_volts(&m, v2)) - 16.666).abs() < 1e-9);
    let (first, second) = result.windows;
    assert!((float(first.0) - 4.0).abs() < 1e-9 && (float(second.0) - 8.0).abs() < 1e-9);
    let (o1, o2) = (float(v1) - 1.666, float(v2) - 3.333);
    assert_eq!(float(result.ground_offset_volts), (o1 + o2) / 2.0);
    assert_eq!(float(result.offset_consistency_volts), (o1 - o2).abs());
}

#[test]
fn a_short_trace_and_a_trace_without_plateaus_are_told_apart() {
    let one = trace(&[(0.0, 0.05, 14.7)]);
    assert_eq!(
        calibrate(&one, &volt_curve()),
        Err(CalibrationError::DegenerateInputs(
            "need a captured AFR trace to auto-calibrate from".to_string()
        ))
    );
    let idle = trace(&[(0.0, 4.0, 2.0)]);
    assert_eq!(
        calibrate(&idle, &volt_curve()),
        Err(CalibrationError::DegenerateInputs(
            "no pair of rising sensor startup plateaus found in 3.9 s of AFR data (1 steady \
             run(s) detected). Capture from key-on, with logging already running."
                .to_string()
        ))
    );
}

#[test]
fn plateaus_at_one_voltage_describe_no_line() {
    let cfg = PlateauDetectorConfig {
        min_separation_volts: num(0.0),
        tolerance_afr: num(-1.0),
        min_duration_s: num(0.0),
        ..Default::default()
    };
    // With no tolerance every sample is a run of its own.
    let samples = trace(&[(0.0, 0.15, 2.0)]);
    let err = auto_calibrate_from_plateaus(&machine(), &samples, &volt_curve(), &cfg).unwrap_err();
    assert_eq!(
        err.message(),
        "the two calibration points must be at different voltages (both were 2.000 V)"
    );
}

#[test]
fn a_messy_start_does_not_mislead() {
    // A channel pinned at the bottom, a ramp into each level, an engine that
    // runs on after the sequence.
    let mut samples = trace(&[(0.0, 3.5, 10.0)]);
    let mut afr: f64 = 10.0;
    let mut t = 3.5;
    while t < 20.0 {
        let target = if t < 9.0 {
            13.6
        } else if t < 14.0 {
            16.9
        } else {
            14.2 + 0.8 * (t * 3.0_f64).sin()
        };
        afr += (target - afr) * 0.6;
        samples.push(AfrSample { time_s: num(t), afr: num(afr) });
        t += 0.1;
    }
    let result = calibrate(&samples, &stock_14point7_curve()).unwrap();
    let (first, second) = result.windows;
    assert!(float(first.0) > 3.5 && float(second.1) < 14.5);
    assert!((float(result.observed_afr.0) - 13.6).abs() < 0.05);
    assert!((float(result.observed_afr.1) - 16.9).abs() < 0.05);
}

#[test]
fn a_calibration_describes_itself() {
    let samples = trace(&[(0.0, 4.0, 13.60), (4.0, 9.0, 16.90)]);
    let result = calibrate(&samples, &stock_14point7_curve()).unwrap();
    let m = machine();
    let expected = format!(
        "{} — auto-calibrated from sensor startup plateaus (read 13.60/16.90 AFR where the \
         sensor sent 13.328/16.666 AFR; ground offset {:+.3} V)",
        result.calibration.describe(&m),
        float(result.ground_offset_volts),
    );
    assert_eq!(result.describe(&m), expected);
    assert!(expected.contains("ground offset +0.1"));
}

#[test]
fn plateau_constants_are_the_decimal_values() {
    let pair = |p: (u64, u64)| (f64::from_bits(p.0), f64::from_bits(p.1));
    assert_eq!(pair(SPARTAN2_PLATEAU_1), (1.666, 13.328));
    assert_eq!(pair(SPARTAN2_PLATEAU_2), (3.333, 16.666));
    assert_eq!(f64::from_bits(LEVEL), 1e-12);
    let cfg = PlateauDetectorConfig::default();
    assert_eq!(float(cfg.min_duration_s), 2.5);
    assert_eq!(float(cfg.max_duration_s), 9.0);
    assert_eq!(float(cfg.tolerance_afr), 0.25);
    assert_eq!(float(cfg.settle_fraction), 0.5);
    assert_eq!(float(cfg.rail_margin_volts), 0.2);
    assert_eq!(float(cfg.min_separation_volts), 0.5);
}
