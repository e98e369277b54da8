use libretune_core::calibration::linear::SAME_VOLTAGE;
use libretune_core::calibration::thermistor::{COLLINEAR, KELVIN, LARGEST_BIAS, LEAST, MOST};
use libretune_core::calibration::{
    adc_to_volts, evaluate_solution, evaluate_solution_with_tables, referenced_include_file,
    referenced_include_files, solution_curve, CalibrationError, CalibrationSolution, Interpreter,
    LinearWideband, LookupTables, ReferenceTable, ThermistorFit, ThermistorOption, ADC_COUNTS,
    ADC_REFERENCE_VOLTS,
};
use libretune_core::machine::{Calc, Machine, Style};
use libretune_core::num::Num;

fn num(x: f64) -> Num {
    Num { bits: x.to_bits() }
}

fn float(n: Num) -> f64 {
    f64::from_bits(n.bits)
}

fn calc(q: Calc) -> Num {
    num(match q {
        Calc::Add(a, b) => float(a) + float(b),
        Calc::Sub(a, b) => float(a) - float(b),
        Calc::Mul(a, b) => float(a) * float(b),
        Calc::Div(a, b) => float(a) / float(b),
        Calc::Ln(a) => float(a).ln(),
        Calc::Count(n) => n as f64,
    })
}

fn show(n: Num, style: Style) -> String {
    match (style.places, style.plus) {
        (Some(p), true) => format!("{:+.*}", p, float(n)),
        (Some(p), false) => format!("{:.*}", p, float(n)),
        (None, true) => format!("{:+}", float(n)),
        (None, false) => format!("{}", float(n)),
    }
}

fn machine() -> Machine<fn(Calc) -> Num, fn(Num, Style) -> String> {
    Machine { calc, show }
}

/// Arithmetic over one variable, with `table(x, "name")` lookups.
enum Expr {
    Number(f64),
    Variable(String),
    Binary(char, Box<Expr>, Box<Expr>),
    Table(Box<Expr>, String),
}

struct Reader<'a> {
    rest: &'a str,
}

impl<'a> Reader<'a> {
    fn eat(&mut self, token: &str) -> bool {
        self.rest = self.rest.trim_start();
        match self.rest.strip_prefix(token) {
            Some(rest) => {
                self.rest = rest;
                true
            }
            None => false,
        }
    }

    fn sum(&mut self) -> Result<Expr, String> {
        let mut left = self.product()?;
        loop {
            if self.eat("+") {
                left = Expr::Binary('+', Box::new(left), Box::new(self.product()?));
            } else if self.eat("-") {
                left = Expr::Binary('-', Box::new(left), Box::new(self.product()?));
            } else {
                return Ok(left);
            }
        }
    }

    fn product(&mut self) -> Result<Expr, String> {
        let mut left = self.atom()?;
        loop {
            if self.eat("*") {
                left = Expr::Binary('*', Box::new(left), Box::new(self.atom()?));
            } else if self.eat("/") {
                left = Expr::Binary('/', Box::new(left), Box::new(self.atom()?));
            } else {
                return Ok(left);
            }
        }
    }

    fn atom(&mut self) -> Result<Expr, String> {
        if self.eat("table(") {
            let x = self.sum()?;
            if !self.eat(",") || !self.eat("\"") {
                return Err("no file".to_string());
            }
            let end = self.rest.find('"').ok_or("unclosed quote")?;
            let name = self.rest[..end].to_string();
            self.rest = &self.rest[end + 1..];
            return if self.eat(")") {
                Ok(Expr::Table(Box::new(x), name))
            } else {
                Err("unclosed call".to_string())
            };
        }
        if self.eat("(") {
            let e = self.sum()?;
            return if self.eat(")") { Ok(e) } else { Err("unclosed bracket".to_string()) };
        }
        self.rest = self.rest.trim_start();
        let end = self
            .rest
            .find(|c: char| !(c.is_ascii_alphanumeric() || c == '.'))
            .unwrap_or(self.rest.len());
        let (word, rest) = self.rest.split_at(end);
        self.rest = rest;
        match word.parse::<f64>() {
            Ok(v) => Ok(Expr::Number(v)),
            Err(_) if word.is_empty() => Err("unexpected end".to_string()),
            Err(_) => Ok(Expr::Variable(word.to_string())),
        }
    }
}

fn parse(text: &str) -> Result<Expr, String> {
    Reader { rest: text }.sum()
}

fn value(e: &Expr, variable: &str, x: f64, tables: &LookupTables<f64>) -> Result<f64, String> {
    match e {
        Expr::Number(v) => Ok(*v),
        Expr::Variable(name) if name == variable => Ok(x),
        Expr::Variable(name) => Err(format!("unknown variable {name}")),
        Expr::Table(e, name) => match tables.get(name) {
            Some(factor) => Ok(factor * value(e, variable, x, tables)?),
            None => Ok(0.0),
        },
        Expr::Binary(op, a, b) => {
            let (a, b) = (value(a, variable, x, tables)?, value(b, variable, x, tables)?);
            Ok(match op {
                '+' => a + b,
                '-' => a - b,
                '*' => a * b,
                _ if b == 0.0 => return Err("division by zero".to_string()),
                _ => a / b,
            })
        }
    }
}

fn evaluate(e: &Expr, variable: &str, adc: u64, tables: &LookupTables<f64>) -> Result<Num, String> {
    value(e, variable, adc as f64, tables).map(num)
}

fn solve(expression: &str) -> Result<Vec<f64>, CalibrationError> {
    evaluate_solution(expression, parse, evaluate).map(|c| c.into_iter().map(float).collect())
}

/// Knows two tables: one scales by 2, the other by 10.
fn load(name: &str) -> Option<f64> {
    match name {
        "wb.inc" => Some(2.0),
        "tens.inc" => Some(10.0),
        _ => None,
    }
}

fn solve_with_tables(expression: &str) -> Result<Vec<f64>, CalibrationError> {
    evaluate_solution_with_tables(expression, Interpreter { load, parse, evaluate })
        .map(|c| c.into_iter().map(float).collect())
}

fn line(p1: (f64, f64), p2: (f64, f64)) -> Result<LinearWideband, CalibrationError> {
    LinearWideband::new(&machine(), (num(p1.0), num(p1.1)), (num(p2.0), num(p2.1)))
}

fn fit(bias: f64, points: [(f64, f64); 3]) -> Result<ThermistorFit, CalibrationError> {
    ThermistorFit::from_points(&machine(), num(bias), points.map(|(t, r)| (num(t), num(r))))
}

#[test]
fn fourteen_point_seven_preset_matches_the_datasheet() {
    // The INI's 14Point7 formula: 10.0001 + adcValue * 0.0097752.
    let curve = solve("10.0001 + ( adcValue * 0.0097752 )").unwrap();
    assert_eq!(curve.len(), 1024);
    assert!((curve[0] - 10.0001).abs() < 1e-6);
    // AFR x 10 at ADC 512 is about 150.
    let at_512 = curve[512] * 10.0;
    assert!((at_512 - 150.0).abs() < 1.0, "AFR x 10 at ADC 512 = {at_512}");
    // ... and the byte table over that span is monotone in 100..200.
    let bytes: Vec<u8> = curve.iter().map(|a| (a * 10.0).round() as u8).collect();
    assert!(bytes.windows(2).all(|w| w[1] >= w[0]));
    assert!(bytes[0] >= 100 && bytes[1023] <= 200);
}

#[test]
fn table_lookup_presets_are_refused_not_zeroed() {
    // Writing an all-zero AFR table to an ECU is actively dangerous, so a
    // preset whose .inc file we do not have must fail loudly.
    let err = solve(r#"table(adcValue*5/1023 , "nb.inc")"#).unwrap_err();
    assert_eq!(err, CalibrationError::MissingIncludeFile("nb.inc".into()));
}

#[test]
fn linear_wideband_solves_the_measured_na6_case() {
    let m = machine();
    let cal = line((0.0, 9.69), (5.0, 19.80)).unwrap();
    assert!((float(cal.afr_at_volts(&m, num(0.0))) - 9.69).abs() < 1e-9);
    assert!((float(cal.afr_at_volts(&m, num(5.0))) - 19.80).abs() < 1e-9);
    let curve = cal.curve(&m);
    assert_eq!(curve.len(), 1024);
    assert!((float(curve[0]) - 9.69).abs() < 1e-9);
    assert!((float(curve[1023]) - 19.80).abs() < 1e-9);
}

#[test]
fn linear_wideband_rejects_a_single_point() {
    let err = line((2.5, 14.7), (2.5, 15.0)).unwrap_err();
    assert!(matches!(err, CalibrationError::DegenerateInputs(_)));
}

#[test]
fn thermistor_fit_reproduces_its_own_calibration_points() {
    // The INI's Mazda preset.
    let fit = fit(50000.0, [(-40.0, 2022088.0), (21.0, 68273.0), (99.0, 3715.0)]).unwrap();
    for (temp_c, res) in [(-40.0, 2022088.0), (21.0, 68273.0), (99.0, 3715.0)] {
        let got = float(fit.temperature_at_resistance(&machine(), num(res)));
        assert!(
            (got - temp_c).abs() < 0.01,
            "fit returned {got} °C for {res} Ω, expected {temp_c} °C"
        );
    }
}

#[test]
fn thermistor_curve_falls_as_adc_rises() {
    let fit = fit(2490.0, [(-40.0, 100700.0), (30.0, 2238.0), (99.0, 177.0)]).unwrap();
    // Higher ADC = higher voltage = higher resistance = colder.
    let cold = float(fit.temperature_at_adc(&machine(), 900));
    let hot = float(fit.temperature_at_adc(&machine(), 100));
    assert!(hot > cold, "ADC 100 gave {hot} °C, ADC 900 gave {cold} °C");
}

#[test]
fn adc_endpoints_span_the_reference_rail() {
    assert!((float(adc_to_volts(&machine(), 0)) - 0.0).abs() < 1e-12);
    assert!((float(adc_to_volts(&machine(), 1023)) - 5.0).abs() < 1e-12);
}

#[test]
fn volts_rise_with_the_count() {
    let volts = |adc: u16| float(adc_to_volts(&machine(), adc));
    assert_eq!((volts(0), volts(341), volts(1023)), (0.0, 341.0 * 5.0 / 1023.0, 5.0));
    assert!((0..2000).all(|adc| volts(adc) < volts(adc + 1)));
}

#[test]
fn include_files_are_found_by_their_quotes() {
    let name = |e: &str| referenced_include_file(e);
    assert_eq!(name(r#"table(adcValue*5/1023 , "nb.inc")"#), Some("nb.inc".to_string()));
    assert_eq!(name(r#""a" + table(x, "b") + table(y, "c")"#), Some("b".to_string()));
    assert_eq!(name(r#"table(x, "")"#), Some(String::new()));
    assert_eq!(name("10 + adcValue"), None);
    assert_eq!(name(r#""only.inc""#), None);
    assert_eq!(name("table(x)"), None);
    assert_eq!(name(r#"table(x, "open"#), None);
    assert_eq!(name(r#"table (x, "spaced")"#), None);
    assert_eq!(name(r#"é table(é, "ü.inc")"#), Some("ü.inc".to_string()));
    // The first pair of quotes behind the first call is what is read.
    assert_eq!(name(r#"table(table(v,"a"),"b")"#), Some("a".to_string()));
    assert_eq!(name(r#"table(f("s"),"t")"#), Some("s".to_string()));
    assert_eq!(name(""), None);
}

#[test]
fn a_table_at_hand_is_used() {
    let curve = solve_with_tables(r#"table(adcValue, "wb.inc") + 1"#).unwrap();
    assert_eq!(curve.len(), ADC_COUNTS);
    assert_eq!((curve[0], curve[10], curve[1023]), (1.0, 21.0, 2047.0));
    assert_eq!(
        solve_with_tables(r#"table(adcValue, "nb.inc")"#),
        Err(CalibrationError::MissingIncludeFile("nb.inc".to_string()))
    );
    // A missing file is reported before anything is parsed.
    assert_eq!(
        solve_with_tables(r#"(( table("nb.inc""#),
        Err(CalibrationError::MissingIncludeFile("nb.inc".to_string()))
    );
}

#[test]
fn every_lookup_file_has_to_be_at_hand() {
    let missing = |e: &str| solve_with_tables(e).unwrap_err();
    assert_eq!(
        missing(r#"table(adcValue*5/1023, "wb.inc") + table(adcValue*5/1023, "b.inc")"#),
        CalibrationError::MissingIncludeFile("b.inc".to_string())
    );
    // The first that is missing is reported.
    assert_eq!(
        missing(r#"table(1, "x.inc") + table(2, "wb.inc") + table(3, "y.inc")"#),
        CalibrationError::MissingIncludeFile("x.inc".to_string())
    );
    // A lookup within a lookup names its own file.
    assert_eq!(
        missing(r#"table(table(adcValue, "wb.inc"), "b.inc")"#),
        CalibrationError::MissingIncludeFile("b.inc".to_string())
    );
    // Of both, the inner one is read first.
    assert_eq!(
        missing(r#"table(table(adcValue, "x.inc"), "y.inc")"#),
        CalibrationError::MissingIncludeFile("x.inc".to_string())
    );
    assert_eq!(
        solve(r#"table(table(adcValue, "x.inc"), "y.inc")"#),
        Err(CalibrationError::MissingIncludeFile("x.inc".to_string()))
    );
    assert_eq!(
        missing(r#"table((adcValue + 1), "b.inc")"#),
        CalibrationError::MissingIncludeFile("b.inc".to_string())
    );
}

#[test]
fn every_lookup_is_answered_from_its_own_table() {
    let curve =
        solve_with_tables(r#"table(adcValue, "wb.inc") + table(adcValue, "tens.inc")"#).unwrap();
    assert_eq!((curve[0], curve[1], curve[100]), (0.0, 12.0, 1200.0));
    let nested = solve_with_tables(r#"table(table(adcValue, "wb.inc"), "tens.inc")"#).unwrap();
    assert_eq!(nested[3], 60.0);
}

#[test]
fn all_the_files_are_listed() {
    let names = |e: &str| referenced_include_files(e);
    assert_eq!(names(r#"table(x, "a") + table(y, "b") + table(z, "a")"#), ["a", "b", "a"]);
    assert_eq!(names(r#"table(table(x, "in"), "out")"#), ["in", "out"]);
    assert_eq!(names(r#"table(f("s)"), "t")"#), ["s)", "t"]);
    // Only the first call falls back on what follows it.
    assert_eq!(names(r#"table(v, "a.inc") + table(w) + f("s")"#), ["a.inc"]);
    assert_eq!(names(r#"table(f("s"))"#), ["s"]);
    assert_eq!(names(r#"table(x) + f("s")"#), ["s"]);
    assert!(names("adcValue").is_empty());
}

#[test]
fn a_formula_that_does_not_parse_is_quoted() {
    assert_eq!(
        solve("( 1 + 2"),
        Err(CalibrationError::ParseFailed("unclosed bracket (in `( 1 + 2`)".to_string()))
    );
}

#[test]
fn a_failing_evaluation_names_its_first_count() {
    assert_eq!(
        solve("1 / (adcValue - 300)"),
        Err(CalibrationError::EvalFailed("division by zero (at adcValue=300)".to_string()))
    );
    assert_eq!(
        solve("rpm"),
        Err(CalibrationError::EvalFailed("unknown variable rpm (at adcValue=0)".to_string()))
    );
}

#[test]
fn solutions_are_found_by_label() {
    let table = ReferenceTable {
        solutions: vec![
            (
                "Linear".to_string(),
                CalibrationSolution::Generator { generator: "linearGenerator".to_string() },
            ),
            (
                "14Point7".to_string(),
                CalibrationSolution::Expression { expression: "adcValue * 2".to_string() },
            ),
            (
                "14POINT7".to_string(),
                CalibrationSolution::Expression { expression: "7".to_string() },
            ),
        ],
    };
    let find = |label: &str| solution_curve(&table, label, Interpreter { load, parse, evaluate });
    let curve = find("14point7").expect("known label").expect("plain formula");
    assert_eq!(float(curve[3]), 6.0);
    assert_eq!(
        find("LINEAR"),
        Some(Err(CalibrationError::NotAnExpression("linearGenerator".to_string())))
    );
    assert_eq!(find("Innovate"), None);
}

#[test]
fn errors_have_messages() {
    let s = || "x".to_string();
    let told = |e: CalibrationError| e.message();
    assert_eq!(told(CalibrationError::ParseFailed(s())), "calibration formula parse failed: x");
    assert_eq!(told(CalibrationError::EvalFailed(s())), "calibration formula failed: x");
    assert_eq!(
        told(CalibrationError::NotAnExpression(s())),
        "this preset uses the 'x' generator and has no formula to evaluate"
    );
    assert_eq!(
        told(CalibrationError::MissingIncludeFile(s())),
        "preset needs the lookup file 'x', which is not available"
    );
    assert_eq!(told(CalibrationError::DegenerateInputs(s())), "x");
}

#[test]
fn a_line_has_exact_values() {
    let m = machine();
    let cal = line((1.0, 10.0), (3.0, 15.0)).unwrap();
    assert_eq!(float(cal.slope(&m)), 2.5);
    assert_eq!(float(cal.intercept(&m)), 7.5);
    assert_eq!(float(cal.afr_at_volts(&m, num(2.0))), 12.5);
    assert_eq!(cal.describe(&m), "7.50–20.00 AFR over 0–5 V (2.5000 AFR/V)");
    // The line passes through its points, in either order, and rises by its
    // slope for each volt.
    let turned = line((3.0, 15.0), (1.0, 10.0)).unwrap();
    for (volts, afr) in [(0.0, 7.5), (1.0, 10.0), (2.0, 12.5), (3.0, 15.0)] {
        assert_eq!(float(cal.afr_at_volts(&m, num(volts))), afr);
        assert_eq!(float(turned.afr_at_volts(&m, num(volts))), afr);
    }
    let same = line((2.5, 14.7), (2.5, 15.0)).unwrap_err();
    assert_eq!(
        same.message(),
        "the two calibration points must be at different voltages (both were 2.500 V)"
    );
}

#[test]
fn a_resistance_that_is_not_positive_is_refused() {
    let err = fit(1000.0, [(0.0, 10.0), (1.0, -3.5), (2.0, 0.0)]).unwrap_err();
    assert_eq!(
        err,
        CalibrationError::DegenerateInputs(
            "thermistor resistance must be positive (point 2 was -3.5 Ω)".to_string()
        )
    );
}

#[test]
fn points_that_leave_nothing_to_fit_are_refused() {
    let option = ThermistorOption {
        bias_resistor: num(1000.0),
        points: [(num(0.0), num(500.0)), (num(10.0), num(400.0)), (num(20.0), num(400.0))],
    };
    assert_eq!(
        ThermistorFit::from_option(&machine(), &option),
        Err(CalibrationError::DegenerateInputs(
            "the three thermistor points are collinear in log-resistance and cannot be fitted"
                .to_string()
        ))
    );
}

#[test]
fn the_divider_is_read_short_of_its_rails() {
    let m = machine();
    let fit = fit(2490.0, [(-40.0, 100700.0), (30.0, 2238.0), (99.0, 177.0)]).unwrap();
    assert_eq!(float(fit.resistance_at_adc(&m, 0)), 2490.0 * 1e-6 / (1.0 - 1e-6));
    let most: f64 = 1.0 - 1e-6;
    assert_eq!(float(fit.resistance_at_adc(&m, 1023)), 2490.0 * most / (1.0 - most));
    let share: f64 = (300.0 * 5.0 / 1023.0) / 5.0;
    assert_eq!(float(fit.resistance_at_adc(&m, 300)), 2490.0 * share / (1.0 - share));
}

#[test]
fn the_resistance_is_positive_and_never_falls() {
    let m = machine();
    for bias in [1.0, 2490.0, 1e9] {
        let fit =
            ThermistorFit { a: num(0.0), b: num(0.0), c: num(0.0), bias_resistor: num(bias) };
        let mut last = 0.0;
        for adc in 0..2000u16 {
            let r = float(fit.resistance_at_adc(&m, adc));
            assert!(r.is_finite() && r > 0.0 && r >= last);
            last = r;
        }
        assert_eq!(fit.resistance_at_adc(&m, 1023).bits, fit.resistance_at_adc(&m, u16::MAX).bits);
        // A third of the rail stands for half the bias resistor.
        let half = ThermistorFit { bias_resistor: num(1023.0), ..fit };
        assert!((float(half.resistance_at_adc(&m, 341)) - 511.5).abs() < 1e-9);
    }
    assert_eq!(f64::from_bits(LARGEST_BIAS), 1e9);
    // Arithmetic that the bounds rest on.
    assert_eq!((1.0 - f64::from_bits(MOST)).to_bits(), 0x3EB0_C6F7_A0B8_0000);
}

#[test]
fn the_divider_gives_the_voltage_back() {
    let m = machine();
    for bias in [1.0, 2490.0, 50000.0, 1e9] {
        let fit =
            ThermistorFit { a: num(0.0), b: num(0.0), c: num(0.0), bias_resistor: num(bias) };
        for adc in 1..=1022u16 {
            let r = float(fit.resistance_at_adc(&m, adc));
            let volts = float(adc_to_volts(&m, adc));
            assert!((5.0 * r / (bias + r) - volts).abs() <= volts * 1e-14);
            // The share of the rail is not clamped.
            let share = volts / 5.0;
            assert_eq!(r, bias * share / (1.0 - share));
        }
    }
}

#[test]
fn the_fit_meets_its_points_up_to_rounding() {
    for points in [
        [(-40.0, 2022088.0), (21.0, 68273.0), (99.0, 3715.0)],
        [(-40.0, 100700.0), (30.0, 2238.0), (99.0, 177.0)],
    ] {
        let fit = fit(2490.0, points).unwrap();
        let (a, b, c) = (float(fit.a), float(fit.b), float(fit.c));
        for (temp_c, res) in points {
            let l: f64 = f64::ln(res);
            let inverse = 1.0 / (temp_c + 273.15);
            assert!((a + b * l + c * l * l * l - inverse).abs() < 1e-15);
        }
    }
}

#[test]
fn temperature_never_rises_with_the_count() {
    let m = machine();
    let fit = fit(2490.0, [(-40.0, 100700.0), (30.0, 2238.0), (99.0, 177.0)]).unwrap();
    assert!(float(fit.b) >= 0.0 && float(fit.c) >= 0.0);
    let temp = |adc: u16| float(fit.temperature_at_adc(&m, adc));
    assert!((0..1100).all(|adc| temp(adc + 1) <= temp(adc)));
}

#[test]
fn a_rounded_line_meets_its_points() {
    let m = machine();
    let (p, q) = ((1.666, 13.328), (3.333, 16.666));
    let (cal, turned) = (line(p, q).unwrap(), line(q, p).unwrap());
    let at = |w: &LinearWideband, v: f64| float(w.afr_at_volts(&m, num(v)));
    assert!((at(&cal, p.0) - p.1).abs() < 1e-13 && (at(&cal, q.0) - q.1).abs() < 1e-13);
    for i in 0..50 {
        let v = i as f64 * 0.1;
        assert!((at(&cal, v) - at(&turned, v)).abs() < 1e-13);
        assert!((at(&cal, v + 1.0) - at(&cal, v) - float(cal.slope(&m))).abs() < 1e-13);
    }
    assert_eq!(at(&cal, 0.0), float(cal.intercept(&m)));
}

#[test]
fn bins_are_sampled_one_by_one() {
    let m = machine();
    let fit = fit(2490.0, [(-40.0, 100700.0), (30.0, 2238.0), (99.0, 177.0)]).unwrap();
    let mut bins = [0u16; 32];
    for (i, b) in bins.iter_mut().enumerate() {
        *b = i as u16 * 33;
    }
    let temps = fit.sample_at_bins(&m, &bins);
    for (i, t) in temps.iter().enumerate() {
        assert_eq!(t.bits, fit.temperature_at_adc(&m, i as u16 * 33).bits);
    }
}

#[test]
fn calibration_constants_are_the_decimal_values() {
    assert_eq!(f64::from_bits(ADC_REFERENCE_VOLTS), 5.0);
    assert_eq!(f64::from_bits(SAME_VOLTAGE), 1e-9);
    assert_eq!(f64::from_bits(KELVIN), 273.15);
    assert_eq!(f64::from_bits(COLLINEAR), 1e-12);
    assert_eq!(f64::from_bits(LEAST), 1e-6);
    assert_eq!(f64::from_bits(MOST), 1.0 - 1e-6);
}
