use libretune_core::commands::sensor_calibration::{
    get_temperature_calibration_bins, parse_sensor, temperature_calibration_bins,
    write_afr_calibration, write_temperature_calibration, CalibrationTable,
};
use libretune_core::commands::tune_info::{get_tune_info, new_tune, TuneState};
use libretune_core::commands::w2_probe::{
    exit_report, mark_report, Probe, ProbeReport, RtGuard, SLOW_MS,
};
use libretune_core::num::Num;
use libretune_core::text::decimal_text;

fn numbers(n: usize) -> Vec<Num> {
    (0..n).map(|i| Num { bits: (i as f64).to_bits() }).collect()
}

#[test]
fn sensors_are_known_in_any_case() {
    assert_eq!(parse_sensor("clt"), Ok(CalibrationTable::Clt));
    assert_eq!(parse_sensor("CLT"), Ok(CalibrationTable::Clt));
    assert_eq!(parse_sensor("iAt"), Ok(CalibrationTable::Iat));
    assert_eq!(
        parse_sensor("Öl-TEMP"),
        Err("unknown temperature sensor 'Öl-temp' (expected 'clt' or 'iat')".to_string())
    );
    assert_eq!(
        parse_sensor(""),
        Err("unknown temperature sensor '' (expected 'clt' or 'iat')".to_string())
    );
}

#[test]
fn bins_follow_the_protocol() {
    let legacy = temperature_calibration_bins(false);
    let modern = temperature_calibration_bins(true);
    assert_eq!((legacy[0], legacy[1], legacy[31]), (0, 32, 992));
    assert_eq!((modern[0], modern[1], modern[31]), (0, 33, 1023));

    let info = get_temperature_calibration_bins(Some(true)).unwrap();
    assert!(info.connected && info.modern_protocol);
    assert_eq!(info.bins, modern.to_vec());
    let info = get_temperature_calibration_bins(Some(false)).unwrap();
    assert!(info.connected && !info.modern_protocol);
    assert_eq!(info.bins, legacy.to_vec());
    let info = get_temperature_calibration_bins(None).unwrap();
    assert!(!info.connected && !info.modern_protocol);
    assert_eq!(info.bins, legacy.to_vec());
}

#[test]
fn a_temperature_write_is_checked_in_order() {
    let full = numbers(32);
    let (table, temps) = write_temperature_calibration("IAT", &full, true).unwrap();
    assert_eq!(table, CalibrationTable::Iat);
    assert!(temps.to_vec() == full);
    let refused = |sensor: &str, n: usize, connected: bool| {
        write_temperature_calibration(sensor, &numbers(n), connected).unwrap_err()
    };
    assert_eq!(
        refused("oil", 3, false),
        "unknown temperature sensor 'oil' (expected 'clt' or 'iat')"
    );
    assert_eq!(refused("clt", 31, false), "expected 32 temperatures, got 31");
    assert_eq!(refused("clt", 32, false), "Not connected to ECU");
}

#[test]
fn an_afr_write_is_checked_in_order() {
    let full = numbers(1024);
    assert!(write_afr_calibration(full.clone(), true).unwrap() == full);
    assert_eq!(
        write_afr_calibration(numbers(1025), false).unwrap_err(),
        "expected 1024 AFR values, got 1025"
    );
    assert_eq!(write_afr_calibration(numbers(0), true).unwrap_err(), "expected 1024 AFR values, got 0");
    assert_eq!(write_afr_calibration(full, false).unwrap_err(), "Not connected to ECU");
}

#[test]
fn integers_are_written_in_decimal() {
    for n in [0, 7, 10, 99, 100, 1023, 4_294_967_296, u64::MAX] {
        assert_eq!(decimal_text(n), format!("{n}"));
    }
}

#[test]
fn a_loaded_tune_is_told_as_it_is() {
    let state = TuneState {
        signature: Some("speeduino 202501".to_string()),
        path: Some("/tunes/na6.msq".to_string()),
        modified: true,
    };
    let info = get_tune_info(&state).unwrap();
    assert!(info.has_tune && info.modified);
    assert_eq!(info.path.as_deref(), Some("/tunes/na6.msq"));
    assert_eq!(info.signature, "speeduino 202501");
}

#[test]
fn without_a_tune_nothing_else_is_told() {
    let state =
        TuneState { signature: None, path: Some("/tunes/old.msq".to_string()), modified: true };
    let info = get_tune_info(&state).unwrap();
    assert!(!info.has_tune && !info.modified);
    assert_eq!((info.path, info.signature), (None, String::new()));
}

#[test]
fn a_new_tune_is_fresh() {
    let mut state = TuneState {
        signature: Some("old".to_string()),
        path: Some("/tunes/old.msq".to_string()),
        modified: true,
    };
    new_tune(&mut state, Some("speeduino 202501")).unwrap();
    let info = get_tune_info(&state).unwrap();
    assert!(info.has_tune && !info.modified);
    assert_eq!((info.path, info.signature), (None, "speeduino 202501".to_string()));
    new_tune(&mut state, None).unwrap();
    assert_eq!(get_tune_info(&state).unwrap().signature, "Unknown");
}

#[test]
fn a_probe_reports_its_command() {
    let (probe, entry) = Probe::new("burn", 3);
    assert_eq!(entry, ProbeReport::Enter { cmd: "burn", realtime_in_flight: 3 });
    assert!(matches!(probe.mark("lock"), Some(ProbeReport::Mark { cmd: "burn", at: "lock", .. })));
    assert!(matches!(probe.finish(), Some(ProbeReport::Exit { cmd: "burn", .. })));
}

#[test]
fn a_probe_tells_the_time_that_has_passed() {
    let (probe, _) = Probe::new("burn", 0);
    let t0 = std::time::Instant::now();
    while t0.elapsed().as_millis() < 30 {}
    match probe.mark("lock") {
        Some(ProbeReport::Mark { ms, .. }) => assert!((30..20_000).contains(&ms)),
        other => panic!("unexpected report {other:?}"),
    }
    match probe.finish() {
        Some(ProbeReport::Exit { total_ms, .. }) => assert!((30..20_000).contains(&total_ms)),
        other => panic!("unexpected report {other:?}"),
    }
}

#[test]
fn a_slow_quiet_probe_reports() {
    let probe = Probe::quiet("realtime");
    let t0 = std::time::Instant::now();
    while t0.elapsed().as_millis() < 300 {}
    assert_eq!(probe.mark("lock"), None);
    match probe.finish() {
        Some(ProbeReport::Exit { cmd, total_ms }) => {
            assert_eq!(cmd, "realtime");
            assert!((300..20_000).contains(&total_ms));
        }
        other => panic!("unexpected report {other:?}"),
    }
}

#[test]
fn a_quiet_probe_reports_only_when_slow() {
    let probe = Probe::quiet("realtime");
    assert_eq!(probe.mark("lock"), None);
    assert_eq!(mark_report("realtime", true, "lock", 9_999), None);
    assert_eq!(exit_report("realtime", true, SLOW_MS as u128), None);
    assert_eq!(
        exit_report("realtime", true, 251),
        Some(ProbeReport::Exit { cmd: "realtime", total_ms: 251 })
    );
    assert_eq!(
        exit_report("burn", false, 0),
        Some(ProbeReport::Exit { cmd: "burn", total_ms: 0 })
    );
    assert_eq!(
        mark_report("burn", false, "io", (1u128 << 64) + 12),
        Some(ProbeReport::Mark { cmd: "burn", at: "io", ms: 12 })
    );
}

#[test]
fn guards_keep_the_count_in_any_order() {
    let mut in_flight: usize = 0;
    let a = RtGuard::new(&mut in_flight);
    let b = RtGuard::new(&mut in_flight);
    assert_eq!(in_flight, 2);
    a.release(&mut in_flight);
    assert_eq!(in_flight, 1);
    let c = RtGuard::new(&mut in_flight);
    b.release(&mut in_flight);
    assert_eq!(in_flight, 1);
    c.release(&mut in_flight);
    assert_eq!(in_flight, 0);
    let mut full = usize::MAX;
    let d = RtGuard::new(&mut full);
    assert_eq!(full, 0);
    d.release(&mut full);
    assert_eq!(full, usize::MAX);
}
