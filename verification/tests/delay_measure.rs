use libretune_core::autotune::delay_measure::{
    detect_delay, mad, median, AfrSample, DelayMeasurement, DelayRejection, DelayTable, K_MAD,
    LOAD_EDGES, MAX_BASELINE_MAD, MIN_BASELINE_SAMPLES, MIN_EXCURSION_AFR, RPM_EDGES,
};
use libretune_core::machine::{Calc, Machine, Style};
use libretune_core::num::Num;

fn num(x: f64) -> Num {
    Num { bits: x.to_bits() }
}

fn float(n: Num) -> f64 {
    f64::from_bits(n.bits)
}

fn calc(q: Calc) -> Num {
    num(match q {
        Calc::Add(a, b) => float(a) + float(b),
        Calc::Sub(a, b) => float(a) - float(b),
        Calc::Mul(a, b) => float(a) * float(b),
        Calc::Div(a, b) => float(a) / float(b),
        Calc::Ln(a) => float(a).ln(),
        Calc::Count(n) => n as f64,
    })
}

fn show(n: Num, style: Style) -> String {
    match (style.places, style.plus) {
        (Some(p), true) => format!("{:+.*}", p, float(n)),
        (Some(p), false) => format!("{:.*}", p, float(n)),
        (None, true) => format!("{:+}", float(n)),
        (None, false) => format!("{}", float(n)),
    }
}

fn machine() -> Machine<fn(Calc) -> Num, fn(Num, Style) -> String> {
    Machine { calc, show }
}

fn trace(points: &[(u64, f64)]) -> Vec<AfrSample> {
    points.iter().map(|&(t_ms, afr)| AfrSample { t_ms, afr: num(afr) }).collect()
}

fn detect(
    anchor_ms: u64,
    pre: &[AfrSample],
    post: &[AfrSample],
) -> Result<DelayMeasurement, DelayRejection> {
    detect_delay(&machine(), anchor_ms, pre, post)
}

/// The crossing rarely lands exactly on a sample. Interpolating across the
/// crossing must land between the two samples and close to where the AFR
/// genuinely passed the trigger.
#[test]
fn crossing_is_interpolated_between_samples() {
    let pre = trace(&[(0, 14.70), (60, 14.70), (120, 14.70), (180, 14.70)]);
    let post = trace(&[(240, 14.70), (300, 14.30), (360, 14.10), (420, 14.05)]);

    let m = detect(240, &pre, &post).expect("should measure");
    let delay_ms = float(m.delay_ms);
    assert!(
        delay_ms > 0.0 && delay_ms < 60.0,
        "interpolated crossing {:.0} ms must fall inside the 240-300 ms sample gap",
        delay_ms
    );
    // Reporting the raw sample time would have given exactly 60 ms.
    assert!(
        delay_ms < 59.0,
        "expected sub-sample resolution, got the sample time itself ({:.0} ms)",
        delay_ms
    );
}

/// When the very first post-anchor sample is already past the trigger there is
/// nothing to interpolate from; the sample time is the honest answer.
#[test]
fn crossing_on_the_first_sample_falls_back_cleanly() {
    let pre = trace(&[(0, 14.70), (60, 14.70), (120, 14.70), (180, 14.70)]);
    let post = trace(&[(240, 14.20), (300, 14.10), (360, 14.05)]);
    let m = detect(240, &pre, &post).expect("should measure");
    assert_eq!(float(m.delay_ms), 0.0, "first sample at the anchor means zero delay");
}

/// Clean step: steady 14.7 baseline. AFR is still 14.68 at 320 ms and 14.2 at
/// 380 ms, so it passes the 14.55 trigger at about 336 ms.
#[test]
fn clean_step_yields_the_transport_delay() {
    let pre = trace(&[(0, 14.7), (40, 14.68), (80, 14.72), (120, 14.7), (160, 14.69)]);
    let post = trace(&[
        (200, 14.7),
        (240, 14.71),
        (280, 14.69),
        (320, 14.68),
        (380, 14.2), // edge
        (420, 13.9),
        (460, 13.7),
    ]);
    let m = detect(200, &pre, &post).expect("clean step must measure");
    assert!(
        (float(m.delay_ms) - 136.25).abs() < 0.5,
        "interpolated crossing, got {}",
        float(m.delay_ms)
    );
    assert!(float(m.excursion) > 0.4);
    assert!((float(m.baseline_afr) - 14.7).abs() < 0.05);
}

/// A single noise spike below threshold must not register as the edge.
#[test]
fn single_spike_is_not_an_edge() {
    let pre = trace(&[(0, 14.7), (40, 14.7), (80, 14.7), (120, 14.7)]);
    let post = trace(&[
        (200, 14.7),
        (240, 13.9), // lone spike
        (280, 14.7),
        (320, 14.71),
        (360, 14.69),
    ]);
    assert_eq!(detect(200, &pre, &post), Err(DelayRejection::NoResponse));
}

/// A sustained crossing right after a lone spike anchors on the real run, not
/// the spike.
#[test]
fn edge_anchors_at_the_sustained_run() {
    let pre = trace(&[(0, 14.7), (40, 14.7), (80, 14.7), (120, 14.7)]);
    let post = trace(&[
        (200, 14.7),
        (240, 13.9), // spike, run resets after
        (280, 14.7),
        (320, 14.0), // real edge starts
        (360, 13.8),
    ]);
    let m = detect(200, &pre, &post).expect("must measure");
    assert!(
        (float(m.delay_ms) - 88.6).abs() < 0.5,
        "must anchor on the sustained run, got {}",
        float(m.delay_ms)
    );
}

#[test]
fn wandering_baseline_is_rejected() {
    let pre = trace(&[(0, 13.2), (40, 15.4), (80, 12.9), (120, 15.8), (160, 13.5)]);
    let post = trace(&[(200, 12.0), (240, 12.0), (280, 12.0)]);
    assert_eq!(detect(200, &pre, &post), Err(DelayRejection::UnstableBaseline));
}

#[test]
fn too_few_baseline_samples_rejected() {
    let pre = trace(&[(0, 14.7), (40, 14.7)]);
    let post = trace(&[(200, 13.0), (240, 13.0)]);
    assert_eq!(detect(200, &pre, &post), Err(DelayRejection::InsufficientBaseline));
}

/// AFR never reacts. Must decline, not invent.
#[test]
fn flat_trace_declines() {
    let pre = trace(&[(0, 14.7), (40, 14.7), (80, 14.7), (120, 14.7)]);
    let post: Vec<AfrSample> = (0..40)
        .map(|i| AfrSample {
            t_ms: 200 + i * 40,
            afr: num(14.7 + if i % 2 == 0 { 0.02 } else { -0.02 }),
        })
        .collect();
    assert_eq!(detect(200, &pre, &post), Err(DelayRejection::NoResponse));
}

#[test]
fn table_bins_and_aggregates() {
    let mut t = DelayTable::new();
    let m = machine();
    t.add(&m, num(900.0), num(35.0), num(400.0)); // idle cell
    t.add(&m, num(950.0), num(38.0), num(360.0)); // same cell
    t.add(&m, num(3200.0), num(85.0), num(140.0)); // mid-rpm, high-load
    t.add(&m, num(7000.0), num(105.0), num(90.0)); // open-ended top bins

    let idle = &t.cells[0][0];
    assert_eq!(idle.n, 2);
    assert!((float(idle.mean_ms) - 380.0).abs() < 1e-9);
    assert!((float(idle.range_ms) - 40.0).abs() < 1e-9);

    let (l, r) = t.cell_index(num(3200.0), num(85.0));
    assert_eq!(t.cells[l][r].n, 1);

    let top = &t.cells[LOAD_EDGES.len()][RPM_EDGES.len()];
    assert_eq!(top.n, 1);
    assert!((float(top.mean_ms) - 90.0).abs() < 1e-9);
}

#[test]
fn a_cell_keeps_its_extremes_and_touches_no_other() {
    let mut t = DelayTable::default();
    let m = machine();
    for d in [120.0, 80.0, 200.0, 100.0] {
        t.add(&m, num(2500.0), num(70.0), num(d));
    }
    let (l, r) = t.cell_index(num(2500.0), num(70.0));
    assert_eq!((l, r), (2, 2));
    let c = t.cells[l][r];
    assert_eq!((c.n, float(c.min_ms), float(c.max_ms)), (4, 80.0, 200.0));
    assert_eq!(float(c.range_ms), 120.0);
    assert_eq!(float(c.mean_ms), 125.0);
    let others: u32 = t.cells.iter().flatten().map(|c| c.n).sum();
    assert_eq!(others, 4);
}

#[test]
fn a_number_on_an_edge_falls_into_the_bin_above() {
    let t = DelayTable::new();
    assert_eq!(t.cell_index(num(1199.9), num(39.9)), (0, 0));
    assert_eq!(t.cell_index(num(1200.0), num(40.0)), (1, 1));
    assert_eq!(t.cell_index(num(6500.0), num(100.0)), (4, 5));
    assert_eq!(t.cell_index(num(f64::NAN), num(f64::NAN)), (4, 5));
    assert_eq!(t.cell_index(num(-1.0), num(f64::NEG_INFINITY)), (0, 0));
}

#[test]
fn cells_are_of_their_own_delays_in_any_order() {
    let m = machine();
    let adds = [
        (900.0, 30.0, 400.0),
        (3200.0, 85.0, 140.0),
        (1000.0, 39.0, 100.0),
        (1199.0, 0.0, 250.0),
        (3000.0, 99.0, 160.0),
    ];
    let mut forth = DelayTable::new();
    let mut back = DelayTable::new();
    for (rpm, load, delay) in adds {
        forth.add(&m, num(rpm), num(load), num(delay));
    }
    for (rpm, load, delay) in adds.into_iter().rev() {
        back.add(&m, num(rpm), num(load), num(delay));
    }
    for t in [&forth, &back] {
        assert_eq!((t.cells.len(), t.cells[0].len()), (5, 6));
        for (l, row) in t.cells.iter().enumerate() {
            for (r, c) in row.iter().enumerate() {
                let told = (c.n, float(c.mean_ms), float(c.min_ms), float(c.max_ms), float(c.range_ms));
                let expected = match (l, r) {
                    (0, 0) => (3, 250.0, 100.0, 400.0, 300.0),
                    (3, 3) => (2, 150.0, 140.0, 160.0, 20.0),
                    _ => (0, 0.0, 0.0, 0.0, 0.0),
                };
                assert_eq!(told, expected);
            }
        }
    }
}

#[test]
fn a_rounded_mean_is_near_the_arithmetic_mean() {
    let m = machine();
    let delays: Vec<f64> = (0..1000).map(|i| 100.0 + (i * 7919 % 1000) as f64 / 3.0).collect();
    let (mut forth, mut back) = (DelayTable::new(), DelayTable::new());
    for d in &delays {
        forth.add(&m, num(900.0), num(30.0), num(*d));
    }
    for d in delays.iter().rev() {
        back.add(&m, num(900.0), num(30.0), num(*d));
    }
    let mean = delays.iter().sum::<f64>() / 1000.0;
    for t in [forth, back] {
        assert!((float(t.cells[0][0].mean_ms) - mean).abs() < 1e-9);
    }
}

#[test]
fn the_order_of_the_baseline_does_not_matter() {
    let post = trace(&[(200, 14.7), (260, 14.1), (320, 13.9)]);
    let pre = trace(&[(0, 14.7), (40, 14.68), (80, 14.72), (120, 14.71), (160, 14.69)]);
    let other = trace(&[(7, 14.72), (9, 14.69), (1, 14.7), (3, 14.68), (5, 14.71)]);
    let a = detect(200, &pre, &post).unwrap();
    let b = detect(200, &other, &post).unwrap();
    assert_eq!(a, b);
    // Not even where both zeros are among the readings.
    let post = trace(&[(200, 0.0), (260, -1.0), (320, -2.0)]);
    let a = detect(200, &trace(&[(0, 0.0), (1, -0.0), (2, 0.0), (3, -0.0)]), &post).unwrap();
    let b = detect(200, &trace(&[(0, -0.0), (1, -0.0), (2, 0.0), (3, 0.0)]), &post).unwrap();
    assert_eq!(a, b);
    let a = detect(200, &pre, &trace(&[(200, 14.7), (260, 14.1), (320, 13.9)])).unwrap();
    // What follows a measured edge changes nothing.
    let longer = trace(&[(200, 14.7), (260, 14.1), (320, 13.9), (380, 14.7), (440, 12.0)]);
    assert_eq!(detect(200, &pre, &longer).unwrap(), a);
}

#[test]
fn medians_of_odd_and_even_lists() {
    let m = machine();
    let mut odd: Vec<Num> = [3.0, -1.0, 2.0].map(num).to_vec();
    assert_eq!(float(median(&m, &mut odd)), 2.0);
    assert_eq!(odd.iter().map(|n| float(*n)).collect::<Vec<f64>>(), vec![-1.0, 2.0, 3.0]);
    let mut even: Vec<Num> = [4.0, 1.0, 3.0, 10.0].map(num).to_vec();
    assert_eq!(float(median(&m, &mut even)), 3.5);
    assert_eq!(float(mad(&m, &even, num(3.5))), 1.5);
}

#[test]
fn a_measurement_has_exact_values() {
    let pre = trace(&[(0, 16.0), (40, 16.0), (80, 16.0), (120, 16.0)]);
    let post = trace(&[(200, 16.0), (300, 12.0), (400, 12.0)]);
    let m = detect(150, &pre, &post).expect("must measure");
    let trigger = 16.0 - 0.15;
    assert_eq!(float(m.delay_ms), 200.0 + 100.0 * ((16.0 - trigger) / 4.0) - 150.0);
    assert_eq!(float(m.excursion), 4.0);
    assert_eq!(float(m.baseline_afr), 16.0);
    // Samples that follow change nothing.
    let mut longer = post.clone();
    longer.extend(trace(&[(500, 16.0), (600, 1.0), (700, 1.0)]));
    assert_eq!(detect(150, &pre, &longer), Ok(m));
}

#[test]
fn an_edge_before_the_anchor_is_no_delay() {
    let pre = trace(&[(0, 16.0), (40, 16.0), (80, 16.0), (120, 16.0)]);
    let post = trace(&[(100, 12.0), (140, 12.0)]);
    let m = detect(150, &pre, &post).expect("must measure");
    assert_eq!(float(m.delay_ms), 0.0);
}

#[test]
fn a_sample_out_of_time_order_is_not_interpolated_from() {
    let pre = trace(&[(0, 16.0), (40, 16.0), (80, 16.0), (120, 16.0)]);
    let post = trace(&[(300, 16.0), (300, 12.0), (400, 12.0)]);
    let m = detect(200, &pre, &post).expect("must measure");
    assert_eq!(float(m.delay_ms), 100.0);
}

#[test]
fn rejections_have_labels() {
    assert_eq!(DelayRejection::InsufficientBaseline.label(), "too few baseline samples");
    assert_eq!(DelayRejection::UnstableBaseline.label(), "baseline unstable — hold steadier");
    assert_eq!(DelayRejection::NoResponse.label(), "no AFR response detected");
}

#[test]
fn delay_constants_are_the_decimal_values() {
    assert_eq!(f64::from_bits(MAX_BASELINE_MAD), 0.35);
    assert_eq!(f64::from_bits(K_MAD), 3.0);
    assert_eq!(f64::from_bits(MIN_EXCURSION_AFR), 0.15);
    assert_eq!(MIN_BASELINE_SAMPLES, 4);
    assert_eq!(RPM_EDGES.map(f64::from_bits), [1200.0, 2000.0, 3000.0, 4500.0, 6500.0]);
    assert_eq!(LOAD_EDGES.map(f64::from_bits), [40.0, 60.0, 80.0, 100.0]);
}
