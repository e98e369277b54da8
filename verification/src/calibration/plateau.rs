//! Sequencer-assisted wideband auto-calibration.
//!
//! A 14Point7 Spartan 2 runs a fixed self-test at power-on: it drives its
//! analogue output to 1.666 V (13.328 AFR on the sensor's own nominal scale)
//! for about five seconds, then 3.333 V (16.666 AFR) for another five, before
//! switching to live readings. Those two levels are generated inside the
//! sensor and owe nothing to what is in the exhaust, so they are a free
//! two-point reference: whatever the ECU *reads* during those windows, minus
//! what the sensor was *sending*, is the error in the wiring and the ADC path.
//!
//! Here we look for the two levels in a captured AFR trace, recover the
//! voltage the ECU actually saw (by inverting the calibration currently
//! loaded), and solve the line that would have made those two windows read
//! correctly. Detection deliberately does not look at the engine speed: the
//! sequence starts at power-on and frequently overlaps cranking and the first
//! seconds of idle.

use super::error::{told, CalibrationError, ErrorView};
use super::linear::{line_of, LinearWideband};
use super::{
    lemma_nothing_is_no_volts, lemma_scale_rises, position_to_volts, scale_to_volts, volts_at,
    ADC_REFERENCE_VOLTS,
};
use crate::machine::{
    is_product, is_sum, lemma_difference, lemma_differences_rise, lemma_negative_quotients_fall,
    lemma_neutral, lemma_quotients_rise, lemma_sums_rise, Calc, Fp, Machine, Style, MOST_COUNT,
};
use crate::num::{law_rank_orders_values, lemma_zero_and_one, unit, Num, ONE, TWO, ZERO};
use crate::text::{decimal, decimal_text};
use vstd::prelude::*;

verus! {

/// (1.666, 13.328): the first nominal Spartan 2 startup level, in volts and
/// in AFR.
pub const SPARTAN2_PLATEAU_1: (u64, u64) = (0x3FFA_A7EF_9DB2_2D0E, 0x402A_A7EF_9DB2_2D0E);

/// (3.333, 16.666): the second level.
pub const SPARTAN2_PLATEAU_2: (u64, u64) = (0x400A_A9FB_E76C_8B44, 0x4030_AA7E_F9DB_22D1);

/// 1e-12: two entries of a curve closer than this are level.
pub const LEVEL: u64 = 0x3D71_9799_812D_EA11;

/// One sample of the live AFR channel.
#[derive(Clone, Copy, Debug, PartialEq)]
pub struct AfrSample {
    /// Seconds since the start of the log.
    pub time_s: Num,
    /// AFR as the ECU reported it, through whatever calibration is loaded.
    pub afr: Num,
}

/// Tunables for the plateau detector.
#[derive(Clone, Copy, Debug, PartialEq)]
pub struct PlateauDetectorConfig {
    /// Shortest run accepted as a plateau. The nominal window is 5 s, but the
    /// leading edge is eaten by input smoothing and by however late logging
    /// started, so this is generously short.
    pub min_duration_s: Num,
    /// Longest run accepted. A level that holds far longer than the sequence
    /// is steady-state running, not a plateau.
    pub max_duration_s: Num,
    /// Widest AFR spread tolerated inside one run: the largest reading less
    /// the smallest.
    pub tolerance_afr: Num,
    /// Trailing fraction of each run averaged to get its settled value: the
    /// head of the window is still ramping through the input filter.
    pub settle_fraction: Num,
    /// Reject a run whose recovered voltage is within this margin of either
    /// supply rail; a channel pinned at the end of its scale is a
    /// disconnected or saturated input, not a plateau.
    pub rail_margin_volts: Num,
    /// The two plateaus must be at least this far apart in recovered volts.
    pub min_separation_volts: Num,
}

impl Default for PlateauDetectorConfig {
    /// 2.5 s to 9 s, a spread of 0.25 AFR, half of each run averaged, 0.2 V
    /// off the rails, 0.5 V apart.
    fn default() -> (r: Self)
        ensures
            r.min_duration_s.bits == 0x4004_0000_0000_0000,
            r.max_duration_s.bits == 0x4022_0000_0000_0000,
            r.tolerance_afr.bits == 0x3FD0_0000_0000_0000,
            r.settle_fraction.bits == 0x3FE0_0000_0000_0000,
            r.rail_margin_volts.bits == 0x3FC9_9999_9999_999A,
            r.min_separation_volts.bits == 0x3FE0_0000_0000_0000,
    {
        PlateauDetectorConfig {
            min_duration_s: Num { bits: 0x4004_0000_0000_0000 },
            max_duration_s: Num { bits: 0x4022_0000_0000_0000 },
            tolerance_afr: Num { bits: 0x3FD0_0000_0000_0000 },
            settle_fraction: Num { bits: 0x3FE0_0000_0000_0000 },
            rail_margin_volts: Num { bits: 0x3FC9_9999_9999_999A },
            min_separation_volts: Num { bits: 0x3FE0_0000_0000_0000 },
        }
    }
}

/// A calibration solved from a detected plateau pair.
#[derive(Clone, Copy, Debug, PartialEq)]
pub struct PlateauCalibration {
    /// The corrected transfer function to write.
    pub calibration: LinearWideband,
    /// Per plateau: the settled AFR the ECU reported.
    pub observed_afr: (Num, Num),
    /// Per plateau: the input voltage that reading implies, recovered through
    /// the calibration that was loaded at capture time.
    pub observed_volts: (Num, Num),
    /// Per plateau: `(start, end)` seconds of the detected window.
    pub windows: ((Num, Num), (Num, Num)),
    /// Mean of (recovered volts − sensor's nominal volts) across the two
    /// plateaus: the constant input offset this calibration cancels. A
    /// positive value means the ECU sees the sensor as higher than it is,
    /// which is the signature of a ground offset between the two.
    pub ground_offset_volts: Num,
    /// How far apart the two plateaus' implied offsets are. A pure offset
    /// gives near-zero here; a large value means the error is not a simple
    /// offset and the fit should be treated with suspicion.
    pub offset_consistency_volts: Num,
}

/// A flat run in the AFR trace.
#[derive(Clone, Copy, Debug)]
pub struct Run {
    /// When the run starts, in seconds.
    pub start_s: Num,
    /// When it ends.
    pub end_s: Num,
    /// The AFR it settled at.
    pub settled_afr: Num,
    /// The voltage that reading implies.
    pub volts: Num,
}

/// The reading lies between entries `i` and `i + 1` of the curve, ends
/// included.
pub open spec fn brackets(curve: Seq<Num>, afr: Num, i: int) -> bool {
    let (a, b) = (curve[i], curve[i + 1]);
    &&& 0 <= i
    &&& i + 1 < curve.len()
    &&& if a.at_most(b) {
        a.at_most(afr) && afr.at_most(b)
    } else {
        b.at_most(afr) && afr.at_most(a)
    }
}

/// Entry `i` is the first from which the curve passes through the reading.
pub open spec fn is_bracket(curve: Seq<Num>, afr: Num, i: int) -> bool {
    &&& brackets(curve, afr, i)
    &&& forall|j: int| 0 <= j < i ==> !#[trigger] brackets(curve, afr, j)
}

/// How far on its way from entry `i` to the next the curve passes through the
/// reading; a level stretch counts from its start.
pub open spec fn fraction_of(fp: Fp, curve: Seq<Num>, afr: Num, i: int) -> Num {
    let span = fp.sub(curve[i + 1], curve[i]);
    if span.unsigned().below(Num { bits: LEVEL }) {
        Num { bits: ZERO }
    } else {
        fp.div(fp.sub(afr, curve[i]), span)
    }
}

/// The input voltage that produced a reading, through a curve.
pub open spec fn inverted(fp: Fp, curve: Seq<Num>, afr: Num) -> Option<Num> {
    if exists|i: int| is_bracket(curve, afr, i) {
        let i = choose|i: int| is_bracket(curve, afr, i);
        Some(scale_to_volts(fp, fp.add(fp.count(i), fraction_of(fp, curve, afr, i))))
    } else {
        None
    }
}

/// The readings of samples `a .. b` from the instant `cutoff` on.
pub open spec fn tail_of(samples: Seq<AfrSample>, a: int, b: int, cutoff: Num) -> Seq<Num>
    decreases b - a,
{
    if b <= a {
        Seq::empty()
    } else {
        let front = tail_of(samples, a, b - 1, cutoff);
        if cutoff.at_most(samples[b - 1].time_s) {
            front.push(samples[b - 1].afr)
        } else {
            front
        }
    }
}

/// The sum of some numbers, added from the first to the last.
pub open spec fn sum_of(fp: Fp, s: Seq<Num>) -> Num
    decreases s.len(),
{
    if s.len() == 0 {
        Num { bits: ZERO }
    } else {
        fp.add(sum_of(fp, s.drop_last()), s.last())
    }
}

/// How long samples `a .. b` last.
pub open spec fn duration_of(fp: Fp, samples: Seq<AfrSample>, a: int, b: int) -> Num {
    fp.sub(samples[b - 1].time_s, samples[a].time_s)
}

/// The readings that count for samples `a .. b`: the settled tail.
pub open spec fn settled_tail(
    fp: Fp,
    samples: Seq<AfrSample>,
    cfg: PlateauDetectorConfig,
    a: int,
    b: int,
) -> Seq<Num> {
    let settling = fp.mul(duration_of(fp, samples, a, b), cfg.settle_fraction);
    tail_of(samples, a, b, fp.sub(samples[b - 1].time_s, settling))
}

/// The voltage lies too near to a rail to be a plateau.
pub open spec fn at_a_rail(fp: Fp, cfg: PlateauDetectorConfig, volts: Num) -> bool {
    ||| volts.below(cfg.rail_margin_volts)
    ||| fp.sub(Num { bits: ADC_REFERENCE_VOLTS }, cfg.rail_margin_volts).below(volts)
}

/// The run that samples `a .. b` make up, if they last long enough and not too
/// long, and settle on a reading that stands for a voltage off the rails.
pub open spec fn run_of(
    fp: Fp,
    samples: Seq<AfrSample>,
    curve: Seq<Num>,
    cfg: PlateauDetectorConfig,
    a: int,
    b: int,
) -> Option<Run> {
    let duration = duration_of(fp, samples, a, b);
    let tail = settled_tail(fp, samples, cfg, a, b);
    let settled = fp.div(sum_of(fp, tail), fp.count(tail.len() as int));
    if b <= a || duration.below(cfg.min_duration_s) || cfg.max_duration_s.below(duration)
        || tail.len() == 0 {
        None
    } else {
        match inverted(fp, curve, settled) {
            None => None,
            Some(volts) => if at_a_rail(fp, cfg, volts) {
                None
            } else {
                Some(
                    Run {
                        start_s: samples[a].time_s,
                        end_s: samples[b - 1].time_s,
                        settled_afr: settled,
                        volts,
                    },
                )
            },
        }
    }
}

/// The largest reading of samples `a .. b`; a NaN is passed over.
pub open spec fn highest(samples: Seq<AfrSample>, a: int, b: int) -> Num
    decreases b - a,
{
    if b <= a + 1 {
        samples[a].afr
    } else {
        highest(samples, a, b - 1).larger(samples[b - 1].afr)
    }
}

/// The smallest reading of samples `a .. b`; a NaN is passed over.
pub open spec fn lowest(samples: Seq<AfrSample>, a: int, b: int) -> Num
    decreases b - a,
{
    if b <= a + 1 {
        samples[a].afr
    } else {
        lowest(samples, a, b - 1).smaller(samples[b - 1].afr)
    }
}

/// How far apart the readings of samples `a .. b` lie.
pub open spec fn spread_of(fp: Fp, samples: Seq<AfrSample>, a: int, b: int) -> Num {
    fp.sub(highest(samples, a, b), lowest(samples, a, b))
}

/// With sample `i`, the level that starts at sample `start` would spread wider
/// than a run may.
pub open spec fn leaves(
    fp: Fp,
    samples: Seq<AfrSample>,
    cfg: PlateauDetectorConfig,
    start: int,
    i: int,
) -> bool {
    cfg.tolerance_afr.below(spread_of(fp, samples, start, i + 1))
}

/// Where the level starts that the first `n` samples end on.
pub open spec fn level_start(
    fp: Fp,
    samples: Seq<AfrSample>,
    cfg: PlateauDetectorConfig,
    n: int,
) -> int
    decreases n,
{
    if n <= 1 {
        0
    } else {
        let start = level_start(fp, samples, cfg, n - 1);
        if leaves(fp, samples, cfg, start, n - 1) {
            n - 1
        } else {
            start
        }
    }
}

/// `runs`, and behind it `run` if there is one.
pub open spec fn with_run(runs: Seq<Run>, run: Option<Run>) -> Seq<Run> {
    match run {
        Some(r) => runs.push(r),
        None => runs,
    }
}

/// The runs among the levels that the first `n` samples have left.
pub open spec fn closed_runs(
    fp: Fp,
    samples: Seq<AfrSample>,
    curve: Seq<Num>,
    cfg: PlateauDetectorConfig,
    n: int,
) -> Seq<Run>
    decreases n,
{
    if n <= 1 {
        Seq::empty()
    } else {
        let before = closed_runs(fp, samples, curve, cfg, n - 1);
        let start = level_start(fp, samples, cfg, n - 1);
        if leaves(fp, samples, cfg, start, n - 1) {
            with_run(before, run_of(fp, samples, curve, cfg, start, n - 1))
        } else {
            before
        }
    }
}

/// The flat runs of a trace, in order.
pub open spec fn runs_of(
    fp: Fp,
    samples: Seq<AfrSample>,
    curve: Seq<Num>,
    cfg: PlateauDetectorConfig,
) -> Seq<Run> {
    let n = samples.len() as int;
    with_run(
        closed_runs(fp, samples, curve, cfg, n),
        run_of(fp, samples, curve, cfg, level_start(fp, samples, cfg, n), n),
    )
}

/// Runs `k` and `k + 1` rise, and lie far enough apart.
pub open spec fn rises(fp: Fp, runs: Seq<Run>, cfg: PlateauDetectorConfig, k: int) -> bool {
    &&& 0 <= k
    &&& k + 1 < runs.len()
    &&& cfg.min_separation_volts.at_most(fp.sub(runs[k + 1].volts, runs[k].volts))
}

/// How far the voltages of runs `k` and `k + 1` are from the nominal ratio.
pub open spec fn misfit(fp: Fp, runs: Seq<Run>, k: int) -> Num {
    fp.gap(
        fp.div(runs[k + 1].volts, runs[k].volts),
        fp.div(Num { bits: SPARTAN2_PLATEAU_2.0 }, Num { bits: SPARTAN2_PLATEAU_1.0 }),
    )
}

/// Of the rising pairs among the first `n` runs, the one nearest to the
/// nominal ratio; the first of several that are equally near.
pub open spec fn best_pair(fp: Fp, runs: Seq<Run>, cfg: PlateauDetectorConfig, n: int) -> Option<
    int,
>
    decreases n,
{
    if n < 2 {
        None
    } else {
        let k = n - 2;
        match best_pair(fp, runs, cfg, n - 1) {
            None => if rises(fp, runs, cfg, k) {
                Some(k)
            } else {
                None
            },
            Some(p) => if rises(fp, runs, cfg, k) && misfit(fp, runs, k).below(misfit(fp, runs, p)) {
                Some(k)
            } else {
                Some(p)
            },
        }
    }
}

/// The calibration that two plateaus give.
pub open spec fn solved_from(fp: Fp, p1: Run, p2: Run) -> Result<PlateauCalibration, ErrorView> {
    let offset1 = fp.sub(p1.volts, Num { bits: SPARTAN2_PLATEAU_1.0 });
    let offset2 = fp.sub(p2.volts, Num { bits: SPARTAN2_PLATEAU_2.0 });
    match line_of(
        fp,
        (p1.volts, Num { bits: SPARTAN2_PLATEAU_1.1 }),
        (p2.volts, Num { bits: SPARTAN2_PLATEAU_2.1 }),
    ) {
        Err(e) => Err(e),
        Ok(calibration) => Ok(
            PlateauCalibration {
                calibration,
                observed_afr: (p1.settled_afr, p2.settled_afr),
                observed_volts: (p1.volts, p2.volts),
                windows: ((p1.start_s, p1.end_s), (p2.start_s, p2.end_s)),
                ground_offset_volts: fp.div(fp.add(offset1, offset2), Num { bits: TWO }),
                offset_consistency_volts: fp.gap(offset1, offset2),
            },
        ),
    }
}

/// What is said of a trace without a pair of plateaus.
pub open spec fn no_pair_text(fp: Fp, samples: Seq<AfrSample>, runs: int) -> Seq<char> {
    "no pair of rising sensor startup plateaus found in "@ + fp.fixed(
        duration_of(fp, samples, 0, samples.len() as int),
        1,
    ) + " s of AFR data ("@ + decimal(runs)
        + " steady run(s) detected). Capture from key-on, with logging already running."@
}

/// The calibration that a captured trace gives.
pub open spec fn calibrated(
    fp: Fp,
    samples: Seq<AfrSample>,
    curve: Seq<Num>,
    cfg: PlateauDetectorConfig,
) -> Result<PlateauCalibration, ErrorView> {
    let runs = runs_of(fp, samples, curve, cfg);
    if samples.len() < 2 {
        Err(ErrorView::DegenerateInputs("need a captured AFR trace to auto-calibrate from"@))
    } else {
        match best_pair(fp, runs, cfg, runs.len() as int) {
            None => Err(
                ErrorView::DegenerateInputs(no_pair_text(fp, samples, runs.len() as int)),
            ),
            Some(k) => solved_from(fp, runs[k], runs[k + 1]),
        }
    }
}

pub(crate) proof fn lemma_bracket_is_unique(curve: Seq<Num>, afr: Num, i: int)
    requires
        is_bracket(curve, afr, i),
    ensures
        (choose|k: int| is_bracket(curve, afr, k)) == i,
{
    let other = choose|k: int| is_bracket(curve, afr, k);
    assert(is_bracket(curve, afr, other));
    assert(brackets(curve, afr, other) && brackets(curve, afr, i));
}

/// Recover the input voltage that produced an observed AFR, by inverting the
/// calibration curve that was loaded when the sample was taken.
///
/// `curve` is AFR per ADC count. Inversion is a scan for the bracketing pair
/// plus linear interpolation, so it works for the non-linear presets too, not
/// just straight lines. Returns `None` if the reading falls outside the
/// curve's range, which is what a rail-pinned channel does.
pub fn invert_curve<C: Fn(Calc) -> Num, S: Fn(Num, Style) -> String>(
    machine: &Machine<C, S>,
    curve: &[Num],
    afr: Num,
) -> (r: Option<Num>)
    requires
        machine.total(),
    ensures
        forall|fp: Fp| #[trigger] machine.follows(fp) ==> r == inverted(fp, curve@, afr),
        r is Some <==> exists|i: int| is_bracket(curve@, afr, i),
{
    if curve.len() < 2 {
        return None;
    }
    let mut i: usize = 0;
    while i < curve.len() - 1
        invariant
            machine.total(),
            curve@.len() >= 2,
            i <= curve.len() - 1,
            forall|j: int| 0 <= j < i ==> !#[trigger] brackets(curve@, afr, j),
        decreases curve.len() - i,
    {
        let (a, b): (Num, Num) = (curve[i], curve[i + 1]);
        let (lo, hi): (Num, Num) = if a.le(b) {
            (a, b)
        } else {
            (b, a)
        };
        if lo.le(afr) && afr.le(hi) {
            proof {
                assert(brackets(curve@, afr, i as int));
                assert(is_bracket(curve@, afr, i as int));
                lemma_bracket_is_unique(curve@, afr, i as int);
            }
            let span = machine.sub(b, a);
            let fraction = if span.abs().lt(Num { bits: LEVEL }) {
                Num { bits: ZERO }
            } else {
                machine.div(machine.sub(afr, a), span)
            };
            let position = machine.add(machine.count(i as u64), fraction);
            return Some(position_to_volts(machine, position));
        }
        i += 1;
    }
    assert forall|i: int| !is_bracket(curve@, afr, i) by {
        if is_bracket(curve@, afr, i) {
            assert(brackets(curve@, afr, i));
        }
    }
    None
}

/// The run that samples `start .. end` make up, if any.
fn close_run<C: Fn(Calc) -> Num, S: Fn(Num, Style) -> String>(
    machine: &Machine<C, S>,
    samples: &[AfrSample],
    curve: &[Num],
    cfg: &PlateauDetectorConfig,
    start: usize,
    end: usize,
) -> (r: Option<Run>)
    requires
        machine.total(),
        end <= samples@.len(),
    ensures
        forall|fp: Fp| #[trigger]
            machine.follows(fp) ==> r == run_of(
                fp,
                samples@,
                curve@,
                *cfg,
                start as int,
                end as int,
            ),
{
    if end <= start {
        return None;
    }
    let (first, last): (AfrSample, AfrSample) = (samples[start], samples[end - 1]);
    let duration = machine.sub(last.time_s, first.time_s);
    if duration.lt(cfg.min_duration_s) || cfg.max_duration_s.lt(duration) {
        return None;
    }
    // Average only the settled tail: the input filter is still catching up
    // across the leading edge of each step.
    let cutoff = machine.sub(last.time_s, machine.mul(duration, cfg.settle_fraction));
    let mut sum = Num { bits: ZERO };
    let mut n: usize = 0;
    let mut i: usize = start;
    while i < end
        invariant
            machine.total(),
            start <= i <= end <= samples@.len(),
            n <= i - start,
            n == tail_of(samples@, start as int, i as int, cutoff).len(),
            forall|fp: Fp| #[trigger]
                machine.follows(fp) ==> sum == sum_of(
                    fp,
                    tail_of(samples@, start as int, i as int, cutoff),
                ),
        decreases end - i,
    {
        let s = samples[i];
        if cutoff.le(s.time_s) {
            let ghost front = tail_of(samples@, start as int, i as int, cutoff);
            assert(front.push(s.afr).drop_last() =~= front);
            sum = machine.add(sum, s.afr);
            n += 1;
        }
        i += 1;
    }
    if n == 0 {
        return None;
    }
    let settled = machine.div(sum, machine.count(n as u64));
    let volts = match invert_curve(machine, curve, settled) {
        Some(v) => v,
        None => {
            return None;
        },
    };
    let top = machine.sub(Num { bits: ADC_REFERENCE_VOLTS }, cfg.rail_margin_volts);
    if volts.lt(cfg.rail_margin_volts) || top.lt(volts) {
        return None;
    }
    Some(Run { start_s: first.time_s, end_s: last.time_s, settled_afr: settled, volts })
}

/// Find flat runs in the trace and recover each one's input voltage.
pub fn find_runs<C: Fn(Calc) -> Num, S: Fn(Num, Style) -> String>(
    machine: &Machine<C, S>,
    samples: &[AfrSample],
    curve: &[Num],
    cfg: &PlateauDetectorConfig,
) -> (r: Vec<Run>)
    requires
        machine.total(),
    ensures
        forall|fp: Fp| #[trigger]
            machine.follows(fp) ==> r@ == runs_of(fp, samples@, curve@, *cfg),
{
    let mut runs: Vec<Run> = Vec::new();
    if samples.len() == 0 {
        return runs;
    }
    let mut start: usize = 0;
    let mut high = samples[0].afr;
    let mut low = samples[0].afr;
    let mut i: usize = 1;
    while i < samples.len()
        invariant
            machine.total(),
            start < i <= samples@.len(),
            high == highest(samples@, start as int, i as int),
            low == lowest(samples@, start as int, i as int),
            forall|fp: Fp| #[trigger]
                machine.follows(fp) ==> {
                    &&& start == level_start(fp, samples@, *cfg, i as int)
                    &&& runs@ == closed_runs(fp, samples@, curve@, *cfg, i as int)
                },
        decreases samples.len() - i,
    {
        let afr = samples[i].afr;
        high = high.max(afr);
        low = low.min(afr);
        if cfg.tolerance_afr.lt(machine.sub(high, low)) {
            if let Some(run) = close_run(machine, samples, curve, cfg, start, i) {
                runs.push(run);
            }
            start = i;
            high = afr;
            low = afr;
        }
        i += 1;
    }
    if let Some(run) = close_run(machine, samples, curve, cfg, start, samples.len()) {
        runs.push(run);
    }
    runs
}

/// The pair of runs to calibrate from, by the index of its first.
fn select_pair<C: Fn(Calc) -> Num, S: Fn(Num, Style) -> String>(
    machine: &Machine<C, S>,
    runs: &Vec<Run>,
    cfg: &PlateauDetectorConfig,
) -> (r: Option<usize>)
    requires
        machine.total(),
    ensures
        forall|fp: Fp| #[trigger]
            machine.follows(fp) ==> best_pair(fp, runs@, *cfg, runs.len() as int) == (match r {
                Some(k) => Some(k as int),
                None => None,
            }),
        r matches Some(k) ==> k + 1 < runs.len(),
{
    let expected = machine.div(
        Num { bits: SPARTAN2_PLATEAU_2.0 },
        Num { bits: SPARTAN2_PLATEAU_1.0 },
    );
    let mut best: Option<(usize, Num)> = None;
    let mut n: usize = 1;
    while n < runs.len()
        invariant
            machine.total(),
            1 <= n,
            n <= runs.len() || n == 1,
            best matches Some((k, _)) ==> k + 1 < n,
            forall|fp: Fp| #[trigger]
                machine.follows(fp) ==> {
                    &&& expected == fp.div(
                        Num { bits: SPARTAN2_PLATEAU_2.0 },
                        Num { bits: SPARTAN2_PLATEAU_1.0 },
                    )
                    &&& match best {
                        Some((k, score)) => {
                            &&& best_pair(fp, runs@, *cfg, n as int) == Some(k as int)
                            &&& score == misfit(fp, runs@, k as int)
                        },
                        None => best_pair(fp, runs@, *cfg, n as int) is None,
                    }
                },
        decreases runs.len() - n,
    {
        let (low, high): (Num, Num) = (runs[n - 1].volts, runs[n].volts);
        if cfg.min_separation_volts.le(machine.sub(high, low)) {
            let score = machine.gap(machine.div(high, low), expected);
            match best {
                Some((_, least)) => {
                    if score.lt(least) {
                        best = Some((n - 1, score));
                    }
                },
                None => {
                    best = Some((n - 1, score));
                },
            }
        }
        n += 1;
    }
    match best {
        Some((k, _)) => Some(k),
        None => None,
    }
}

/// Detect the sensor's startup plateaus in a captured AFR trace and solve the
/// calibration that would have made them read correctly.
///
/// * `samples`: the live AFR channel, in time order.
/// * `current_curve`: the 1024-entry AFR-per-ADC-count curve that was loaded
///   in the ECU when the trace was captured. This is what makes the result
///   absolute rather than relative: the observed AFR is meaningless on its
///   own, but run backwards through the loaded curve it gives the voltage the
///   ADC actually saw.
///
/// The two plateaus must be *consecutive* detected runs, rising, and far
/// enough apart in voltage, which is what distinguishes the real sequence from
/// a coincidentally steady idle.
pub fn auto_calibrate_from_plateaus<C: Fn(Calc) -> Num, S: Fn(Num, Style) -> String>(
    machine: &Machine<C, S>,
    samples: &[AfrSample],
    current_curve: &[Num],
    cfg: &PlateauDetectorConfig,
) -> (r: Result<PlateauCalibration, CalibrationError>)
    requires
        machine.total(),
    ensures
        forall|fp: Fp| #[trigger]
            machine.follows(fp) ==> told(r) == calibrated(fp, samples@, current_curve@, *cfg),
        samples@.len() < 2 ==> r is Err,
        r matches Err(e) ==> e is DegenerateInputs,
{
    if samples.len() < 2 {
        return Err(
            CalibrationError::DegenerateInputs(
                String::from_str("need a captured AFR trace to auto-calibrate from"),
            ),
        );
    }
    let runs = find_runs(machine, samples, current_curve, cfg);
    let k: usize = match select_pair(machine, &runs, cfg) {
        Some(k) => k,
        None => {
            let span = machine.sub(samples[samples.len() - 1].time_s, samples[0].time_s);
            let text = String::from_str(
                "no pair of rising sensor startup plateaus found in ",
            ).concat(machine.fixed(span, 1).as_str()).concat(" s of AFR data (").concat(
                decimal_text(runs.len() as u64).as_str(),
            ).concat(
                " steady run(s) detected). Capture from key-on, with logging already running.",
            );
            return Err(CalibrationError::DegenerateInputs(text));
        },
    };
    let (p1, p2): (Run, Run) = (runs[k], runs[k + 1]);
    let calibration = match LinearWideband::new(
        machine,
        (p1.volts, Num { bits: SPARTAN2_PLATEAU_1.1 }),
        (p2.volts, Num { bits: SPARTAN2_PLATEAU_2.1 }),
    ) {
        Ok(c) => c,
        Err(e) => {
            return Err(e);
        },
    };
    let offset1 = machine.sub(p1.volts, Num { bits: SPARTAN2_PLATEAU_1.0 });
    let offset2 = machine.sub(p2.volts, Num { bits: SPARTAN2_PLATEAU_2.0 });
    Ok(
        PlateauCalibration {
            calibration,
            observed_afr: (p1.settled_afr, p2.settled_afr),
            observed_volts: (p1.volts, p2.volts),
            windows: ((p1.start_s, p1.end_s), (p2.start_s, p2.end_s)),
            ground_offset_volts: machine.div(machine.add(offset1, offset2), Num { bits: TWO }),
            offset_consistency_volts: machine.gap(offset1, offset2),
        },
    )
}

impl PlateauCalibration {
    /// The calibration in words.
    pub open spec fn text_of(self, fp: Fp) -> Seq<char> {
        self.calibration.text_of(fp)
            + " — auto-calibrated from sensor startup plateaus (read "@ + fp.fixed(
            self.observed_afr.0,
            2,
        ) + "/"@ + fp.fixed(self.observed_afr.1, 2) + " AFR where the sensor sent "@ + fp.fixed(
            Num { bits: SPARTAN2_PLATEAU_1.1 },
            3,
        ) + "/"@ + fp.fixed(Num { bits: SPARTAN2_PLATEAU_2.1 }, 3) + " AFR; ground offset "@
            + fp.signed(self.ground_offset_volts, 3) + " V)"@
    }

    /// One-line description for logs and the tune's stored metadata.
    pub fn describe<C: Fn(Calc) -> Num, S: Fn(Num, Style) -> String>(
        &self,
        machine: &Machine<C, S>,
    ) -> (r: String)
        requires
            machine.total(),
        ensures
            forall|fp: Fp| #[trigger] machine.follows(fp) ==> r@ == self.text_of(fp),
    {
        let (read1, read2): (Num, Num) = self.observed_afr;
        let sent1 = Num { bits: SPARTAN2_PLATEAU_1.1 };
        let sent2 = Num { bits: SPARTAN2_PLATEAU_2.1 };
        self.calibration.describe(machine).concat(
            " — auto-calibrated from sensor startup plateaus (read ",
        ).concat(machine.fixed(read1, 2).as_str()).concat("/").concat(
            machine.fixed(read2, 2).as_str(),
        ).concat(" AFR where the sensor sent ").concat(machine.fixed(sent1, 3).as_str()).concat(
            "/",
        ).concat(machine.fixed(sent2, 3).as_str()).concat(" AFR; ground offset ").concat(
            machine.signed(self.ground_offset_volts, 3).as_str(),
        ).concat(" V)")
    }
}

/// A reading beyond the curve is not clamped to an end of it: it stands for no
/// voltage.
pub proof fn law_an_off_scale_reading_stands_for_nothing(fp: Fp, curve: Seq<Num>, afr: Num)
    requires
        (forall|i: int| 0 <= i < curve.len() ==> afr.below(#[trigger] curve[i])) || (forall|i: int|
            0 <= i < curve.len() ==> (#[trigger] curve[i]).below(afr)),
    ensures
        inverted(fp, curve, afr) is None,
{
    assert forall|i: int| !is_bracket(curve, afr, i) by {
        if is_bracket(curve, afr, i) {
            assert(brackets(curve, afr, i));
            assert(afr.below(curve[i]) || curve[i].below(afr));
            assert(afr.below(curve[i + 1]) || curve[i + 1].below(afr));
        }
    }
}

pub(crate) proof fn lemma_first_bracket(curve: Seq<Num>, afr: Num, i: int)
    requires
        brackets(curve, afr, i),
    ensures
        exists|k: int| is_bracket(curve, afr, k),
    decreases i,
{
    if exists|j: int| 0 <= j < i && brackets(curve, afr, j) {
        lemma_first_bracket(curve, afr, choose|j: int| 0 <= j < i && brackets(curve, afr, j));
    } else {
        assert(is_bracket(curve, afr, i));
    }
}

proof fn lemma_curve_passes(curve: Seq<Num>, afr: Num, from: int, to: int)
    requires
        0 <= from < to < curve.len(),
        !afr.nan(),
        forall|i: int| 0 <= i < curve.len() ==> !(#[trigger] curve[i]).nan(),
        curve[from].at_most(afr) && afr.at_most(curve[to]) || curve[to].at_most(afr)
            && afr.at_most(curve[from]),
    ensures
        exists|i: int| brackets(curve, afr, i),
    decreases to - from,
{
    if to == from + 1 {
        assert(brackets(curve, afr, from));
    } else {
        let next = curve[from + 1];
        assert(!next.nan());
        if next.at_most(afr) == curve[from].at_most(afr) && afr.at_most(next) == afr.at_most(
            curve[from],
        ) {
            lemma_curve_passes(curve, afr, from + 1, to);
        } else {
            assert(brackets(curve, afr, from));
        }
    }
}

/// A reading between the ends of a curve stands for a voltage, whether the
/// curve rises, falls or wanders on its way.
pub proof fn law_an_on_scale_reading_stands_for_a_voltage(fp: Fp, curve: Seq<Num>, afr: Num)
    requires
        curve.len() >= 2,
        !afr.nan(),
        forall|i: int| 0 <= i < curve.len() ==> !(#[trigger] curve[i]).nan(),
        curve[0].at_most(afr) && afr.at_most(curve.last()) || curve.last().at_most(afr)
            && afr.at_most(curve[0]),
    ensures
        inverted(fp, curve, afr) is Some,
{
    lemma_curve_passes(curve, afr, 0, curve.len() - 1);
    lemma_first_bracket(curve, afr, choose|i: int| brackets(curve, afr, i));
}

/// A curve whose entries rise from each to the next, or fall from each to the
/// next.
pub open spec fn strict(curve: Seq<Num>) -> bool {
    ||| forall|i: int, j: int| 0 <= i < j < curve.len() ==> curve[i].below(curve[j])
    ||| forall|i: int, j: int| 0 <= i < j < curve.len() ==> curve[j].below(curve[i])
}

/// The step from entry `i` to the next can be told from a level stretch, and
/// does not overflow.
pub open spec fn steps_at(fp: Fp, curve: Seq<Num>, i: int) -> bool {
    let span = fp.sub(curve[i + 1], curve[i]);
    span.finite() && !span.unsigned().below(Num { bits: LEVEL })
}

/// The reading that a strictly rising or falling curve gives for an ADC count
/// stands for the voltage of that count. (At count 0 the two may be zeros of
/// different sign.)
pub proof fn law_a_curve_inverts_at_its_entries(fp: Fp, curve: Seq<Num>, i: int)
    requires
        fp.exact(),
        2 <= curve.len() <= MOST_COUNT,
        strict(curve),
        forall|k: int| 0 <= k < curve.len() ==> (#[trigger] curve[k]).finite(),
        forall|k: int| 0 <= k < curve.len() - 1 ==> #[trigger] steps_at(fp, curve, k),
        0 <= i < curve.len(),
    ensures
        inverted(fp, curve, curve[i]) matches Some(v) && (v == volts_at(fp, i) || i == 0
            && v.equals(volts_at(fp, 0))),
{
    let (zero, one) = (Num { bits: ZERO }, Num { bits: ONE });
    let afr = curve[i];
    let at = if i > 0 { i - 1 } else { 0 };
    assert(curve[at].finite() && curve[at + 1].finite());
    assert(brackets(curve, afr, at));
    assert forall|j: int| 0 <= j < at implies !#[trigger] brackets(curve, afr, j) by {
        let (a, b) = (curve[j], curve[j + 1]);
        assert(a.below(b) && b.below(afr) || b.below(a) && afr.below(b));
    }
    assert(is_bracket(curve, afr, at));
    lemma_bracket_is_unique(curve, afr, at);
    assert(steps_at(fp, curve, at));
    let span = fp.sub(curve[at + 1], curve[at]);
    let fraction = fraction_of(fp, curve, afr, at);
    lemma_zero_and_one();
    lemma_neutral(fp, span);
    let position = fp.add(fp.count(at), fraction);
    law_rank_orders_values(fp.count(i), zero);
    if i > 0 {
        assert(fraction == one);
        assert((i - 1) * unit() + unit() == i * unit() && i * unit() > 0) by (nonlinear_arith)
            requires
                i > 0,
                unit() > 0,
        ;
        assert(is_sum(fp.count(at), one, fp.count(i)));
        assert(position == fp.count(i));
    } else {
        lemma_neutral(fp, afr);
        let start = fp.sub(afr, afr);
        law_rank_orders_values(start, zero);
        assert(zero.value() * span.value() == start.value() * unit()) by (nonlinear_arith)
            requires
                zero.value() == 0,
                start.value() == 0,
        ;
        law_rank_orders_values(span, zero);
        assert(is_product(zero, span, start));
        law_rank_orders_values(fraction, zero);
        assert(is_sum(fp.count(0), fraction, zero));
        law_rank_orders_values(position, zero);
        lemma_nothing_is_no_volts(fp, position);
        lemma_nothing_is_no_volts(fp, fp.count(0));
    }
}

proof fn lemma_fraction(fp: Fp, curve: Seq<Num>, afr: Num, i: int)
    requires
        fp.orderly(),
        fp.exact(),
        brackets(curve, afr, i),
        curve[i].finite(),
        curve[i + 1].finite(),
        fp.sub(curve[i + 1], curve[i]).finite(),
    ensures
        (Num { bits: ZERO }).at_most(fraction_of(fp, curve, afr, i)),
        fraction_of(fp, curve, afr, i).at_most(Num { bits: ONE }),
{
    let (a, b) = (curve[i], curve[i + 1]);
    let (zero, span, part) = (Num { bits: ZERO }, fp.sub(b, a), fp.sub(afr, a));
    if !span.unsigned().below(Num { bits: LEVEL }) {
        lemma_neutral(fp, span);
        lemma_neutral(fp, a);
        lemma_difference(fp, b, a);
        if a.at_most(b) {
            lemma_differences_rise(fp, a, a, afr);
            lemma_differences_rise(fp, a, afr, b);
            lemma_quotients_rise(fp, span, zero, part);
            lemma_quotients_rise(fp, span, part, span);
        } else {
            lemma_differences_rise(fp, a, b, afr);
            lemma_differences_rise(fp, a, afr, a);
            lemma_negative_quotients_fall(fp, span, span, part);
            lemma_negative_quotients_fall(fp, span, part, zero);
        }
    }
}

/// The voltage that a reading stands for lies between the voltages of the two
/// counts whose entries bracket it, on a rising stretch of the curve and on a
/// falling one.
pub proof fn law_a_recovered_voltage_lies_between_its_counts(
    fp: Fp,
    curve: Seq<Num>,
    afr: Num,
    i: int,
)
    requires
        fp.orderly(),
        fp.exact(),
        curve.len() <= u16::MAX + 1,
        is_bracket(curve, afr, i),
        curve[i].finite(),
        curve[i + 1].finite(),
        fp.sub(curve[i + 1], curve[i]).finite(),
    ensures
        inverted(fp, curve, afr) matches Some(v) && volts_at(fp, i).at_most(v) && v.at_most(
            volts_at(fp, i + 1),
        ),
{
    let (zero, one) = (Num { bits: ZERO }, Num { bits: ONE });
    let (here, next) = (fp.count(i), fp.count(i + 1));
    let fraction = fraction_of(fp, curve, afr, i);
    let position = fp.add(here, fraction);
    lemma_bracket_is_unique(curve, afr, i);
    lemma_fraction(fp, curve, afr, i);
    lemma_zero_and_one();
    lemma_neutral(fp, here);
    assert(i * unit() + unit() == (i + 1) * unit()) by (nonlinear_arith);
    assert(is_sum(here, one, next));
    lemma_sums_rise(fp, here, zero, fraction);
    lemma_sums_rise(fp, here, fraction, one);
    lemma_scale_rises(fp, here, position, i + 1);
    lemma_scale_rises(fp, position, next, i + 1);
}

/// Samples `a .. b` hold one level: up to each of them, the readings spread no
/// wider than a run may.
pub open spec fn is_level(
    fp: Fp,
    samples: Seq<AfrSample>,
    cfg: PlateauDetectorConfig,
    a: int,
    b: int,
) -> bool {
    &&& 0 <= a < b <= samples.len()
    &&& forall|j: int| a < j < b ==> !#[trigger] leaves(fp, samples, cfg, a, j)
}

pub(crate) proof fn lemma_open_level(fp: Fp, samples: Seq<AfrSample>, cfg: PlateauDetectorConfig, n: int)
    requires
        1 <= n <= samples.len(),
    ensures
        is_level(fp, samples, cfg, level_start(fp, samples, cfg, n), n),
    decreases n,
{
    if n > 1 {
        lemma_open_level(fp, samples, cfg, n - 1);
    }
}

/// The largest and the smallest reading of a stretch are among its readings,
/// and all of these lie between them.
pub proof fn law_extremes_bound_a_stretch(samples: Seq<AfrSample>, a: int, b: int)
    requires
        0 <= a < b <= samples.len(),
        forall|j: int| a <= j < b ==> !(#[trigger] samples[j]).afr.nan(),
    ensures
        forall|j: int|
            a <= j < b ==> (#[trigger] samples[j]).afr.at_most(highest(samples, a, b)) && lowest(
                samples,
                a,
                b,
            ).at_most(samples[j].afr),
        exists|j: int| a <= j < b && (#[trigger] samples[j]).afr == highest(samples, a, b),
        exists|j: int| a <= j < b && (#[trigger] samples[j]).afr == lowest(samples, a, b),
    decreases b - a,
{
    assert(!samples[a].afr.nan() && !samples[b - 1].afr.nan());
    if b > a + 1 {
        law_extremes_bound_a_stretch(samples, a, b - 1);
    }
}

/// No two readings of a level lie farther apart than the tolerance.
pub proof fn law_a_level_stays_within_the_tolerance(
    fp: Fp,
    samples: Seq<AfrSample>,
    cfg: PlateauDetectorConfig,
    a: int,
    b: int,
    j: int,
    k: int,
)
    requires
        fp.orderly(),
        is_level(fp, samples, cfg, a, b),
        forall|i: int| a <= i < b ==> (#[trigger] samples[i]).afr.finite(),
        a <= j < b,
        a <= k < b,
        j != k,
    ensures
        !cfg.tolerance_afr.below(fp.gap(samples[j].afr, samples[k].afr)),
{
    law_extremes_bound_a_stretch(samples, a, b);
    let (x, y) = (samples[j].afr, samples[k].afr);
    let (high, low) = (highest(samples, a, b), lowest(samples, a, b));
    assert(!leaves(fp, samples, cfg, a, b - 1));
    assert(x.at_most(high) && y.at_most(high) && low.at_most(x) && low.at_most(y));
    assert(high.finite() && low.finite());
    lemma_differences_rise(fp, y, x, high);
    lemma_differences_rise(fp, x, y, high);
    lemma_differences_rise(fp, high, low, x);
    lemma_differences_rise(fp, high, low, y);
    lemma_difference(fp, x, y);
}

/// A run is a level of the trace that lasts no less than the shortest and no
/// more than the longest plateau, and whose voltage lies off both rails.
pub open spec fn is_plateau(
    fp: Fp,
    samples: Seq<AfrSample>,
    curve: Seq<Num>,
    cfg: PlateauDetectorConfig,
    run: Run,
) -> bool {
    exists|a: int, b: int|
        {
            &&& #[trigger] is_level(fp, samples, cfg, a, b)
            &&& run_of(fp, samples, curve, cfg, a, b) == Some(run)
            &&& !duration_of(fp, samples, a, b).below(cfg.min_duration_s)
            &&& !cfg.max_duration_s.below(duration_of(fp, samples, a, b))
            &&& !at_a_rail(fp, cfg, run.volts)
        }
}

/// Where the runs lie that [`closed_runs`] gives: `(a, b)` for samples
/// `a .. b`.
pub open spec fn closed_spans(
    fp: Fp,
    samples: Seq<AfrSample>,
    curve: Seq<Num>,
    cfg: PlateauDetectorConfig,
    n: int,
) -> Seq<(int, int)>
    decreases n,
{
    if n <= 1 {
        Seq::empty()
    } else {
        let before = closed_spans(fp, samples, curve, cfg, n - 1);
        let start = level_start(fp, samples, cfg, n - 1);
        if leaves(fp, samples, cfg, start, n - 1) && run_of(
            fp,
            samples,
            curve,
            cfg,
            start,
            n - 1,
        ) is Some {
            before.push((start, n - 1))
        } else {
            before
        }
    }
}

/// Where the runs of a trace lie.
pub open spec fn spans_of(
    fp: Fp,
    samples: Seq<AfrSample>,
    curve: Seq<Num>,
    cfg: PlateauDetectorConfig,
) -> Seq<(int, int)> {
    let n = samples.len() as int;
    let before = closed_spans(fp, samples, curve, cfg, n);
    let start = level_start(fp, samples, cfg, n);
    if run_of(fp, samples, curve, cfg, start, n) is Some {
        before.push((start, n))
    } else {
        before
    }
}

proof fn lemma_closed_spans(
    fp: Fp,
    samples: Seq<AfrSample>,
    curve: Seq<Num>,
    cfg: PlateauDetectorConfig,
    n: int,
)
    requires
        n <= samples.len(),
    ensures
        ({
            let spans = closed_spans(fp, samples, curve, cfg, n);
            let runs = closed_runs(fp, samples, curve, cfg, n);
            &&& spans.len() == runs.len()
            &&& forall|i: int|
                0 <= i < spans.len() ==> run_of(
                    fp,
                    samples,
                    curve,
                    cfg,
                    (#[trigger] spans[i]).0,
                    spans[i].1,
                ) == Some(runs[i]) && is_level(fp, samples, cfg, spans[i].0, spans[i].1)
            &&& forall|i: int, j: int| 0 <= i < j < spans.len() ==> spans[i].1 <= spans[j].0
            &&& forall|i: int|
                0 <= i < spans.len() ==> (#[trigger] spans[i]).1 <= level_start(
                    fp,
                    samples,
                    cfg,
                    n,
                )
        }),
    decreases n,
{
    if n > 1 {
        lemma_closed_spans(fp, samples, curve, cfg, n - 1);
        lemma_open_level(fp, samples, cfg, n - 1);
        let before = closed_spans(fp, samples, curve, cfg, n - 1);
        let after = closed_spans(fp, samples, curve, cfg, n);
        assert forall|i: int, j: int| 0 <= i < j < after.len() implies after[i].1 <= after[j].0 by {
            assert(after[i] == before[i]);
        }
        assert forall|i: int| 0 <= i < after.len() implies (#[trigger] after[i]).1 <= level_start(
            fp,
            samples,
            cfg,
            n,
        ) by {
            if i < before.len() {
                assert(after[i] == before[i]);
            }
        }
        let runs = closed_runs(fp, samples, curve, cfg, n);
        assert forall|i: int| 0 <= i < after.len() implies run_of(
            fp,
            samples,
            curve,
            cfg,
            (#[trigger] after[i]).0,
            after[i].1,
        ) == Some(runs[i]) && is_level(fp, samples, cfg, after[i].0, after[i].1) by {
            if i < before.len() {
                assert(after[i] == before[i]);
            }
        }
    }
}

/// The runs come in the order of the trace, each from its own stretch of it:
/// no two stretches overlap.
pub proof fn law_runs_follow_each_other(
    fp: Fp,
    samples: Seq<AfrSample>,
    curve: Seq<Num>,
    cfg: PlateauDetectorConfig,
)
    ensures
        ({
            let spans = spans_of(fp, samples, curve, cfg);
            let runs = runs_of(fp, samples, curve, cfg);
            &&& spans.len() == runs.len()
            &&& forall|i: int|
                0 <= i < spans.len() ==> run_of(
                    fp,
                    samples,
                    curve,
                    cfg,
                    (#[trigger] spans[i]).0,
                    spans[i].1,
                ) == Some(runs[i]) && is_level(fp, samples, cfg, spans[i].0, spans[i].1)
            &&& forall|i: int, j: int| 0 <= i < j < spans.len() ==> spans[i].1 <= spans[j].0
        }),
{
    let n = samples.len() as int;
    lemma_closed_spans(fp, samples, curve, cfg, n);
    if n >= 1 {
        lemma_open_level(fp, samples, cfg, n);
    }
    let before = closed_spans(fp, samples, curve, cfg, n);
    let spans = spans_of(fp, samples, curve, cfg);
    assert forall|i: int, j: int| 0 <= i < j < spans.len() implies spans[i].1 <= spans[j].0 by {
        assert(spans[i] == before[i]);
    }
    let runs = runs_of(fp, samples, curve, cfg);
    assert forall|i: int| 0 <= i < spans.len() implies run_of(
        fp,
        samples,
        curve,
        cfg,
        (#[trigger] spans[i]).0,
        spans[i].1,
    ) == Some(runs[i]) && is_level(fp, samples, cfg, spans[i].0, spans[i].1) by {
        if i < before.len() {
            assert(spans[i] == before[i]);
        }
    }
}

/// Every run found is a plateau: flat, of a plateau's length, and off the
/// rails. A channel pinned at an end of its scale is none.
pub proof fn law_runs_are_plateaus(
    fp: Fp,
    samples: Seq<AfrSample>,
    curve: Seq<Num>,
    cfg: PlateauDetectorConfig,
    i: int,
)
    requires
        0 <= i < runs_of(fp, samples, curve, cfg).len(),
    ensures
        is_plateau(fp, samples, curve, cfg, runs_of(fp, samples, curve, cfg)[i]),
{
    law_runs_follow_each_other(fp, samples, curve, cfg);
    let (a, b) = spans_of(fp, samples, curve, cfg)[i];
    assert(is_level(fp, samples, cfg, a, b));
}

/// The pair chosen is one of consecutive runs that rise far enough, and there
/// is one as soon as any two consecutive runs do.
pub proof fn law_the_pair_rises(fp: Fp, runs: Seq<Run>, cfg: PlateauDetectorConfig, n: int)
    requires
        n <= runs.len(),
    ensures
        best_pair(fp, runs, cfg, n) matches Some(k) ==> k + 1 < n && rises(fp, runs, cfg, k),
        best_pair(fp, runs, cfg, n) is None <==> forall|k: int|
            k + 1 < n ==> !#[trigger] rises(fp, runs, cfg, k),
    decreases n,
{
    if n >= 2 {
        law_the_pair_rises(fp, runs, cfg, n - 1);
        let k = n - 2;
        if best_pair(fp, runs, cfg, n - 1) is None {
            assert forall|j: int| j + 1 < n && j != k implies !#[trigger] rises(
                fp,
                runs,
                cfg,
                j,
            ) by {}
        }
    } else {
        assert forall|k: int| k + 1 < n implies !#[trigger] rises(fp, runs, cfg, k) by {}
    }
}

/// No rising pair lies nearer to the nominal ratio than the one chosen, and
/// none before it lies as near.
pub proof fn law_the_pair_fits_best(
    fp: Fp,
    runs: Seq<Run>,
    cfg: PlateauDetectorConfig,
    n: int,
    j: int,
)
    requires
        n <= runs.len(),
        j + 1 < n,
        rises(fp, runs, cfg, j),
        forall|k: int| 0 <= k && k + 1 < n ==> !(#[trigger] misfit(fp, runs, k)).nan(),
    ensures
        best_pair(fp, runs, cfg, n) matches Some(k) && !misfit(fp, runs, j).below(
            misfit(fp, runs, k),
        ) && (j < k ==> misfit(fp, runs, k).below(misfit(fp, runs, j))),
    decreases n,
{
    law_the_pair_rises(fp, runs, cfg, n);
    law_the_pair_rises(fp, runs, cfg, n - 1);
    assert(!misfit(fp, runs, n - 2).nan());
    assert(!misfit(fp, runs, j).nan());
    if j < n - 2 {
        law_the_pair_fits_best(fp, runs, cfg, n - 1, j);
        let p = best_pair(fp, runs, cfg, n - 1)->0;
        assert(!misfit(fp, runs, p).nan());
    }
}

/// A calibration lays two consecutive plateaus of the trace, runs `k` and
/// `k + 1`, at the AFR that the sensor sent.
pub open spec fn rests_on(
    fp: Fp,
    samples: Seq<AfrSample>,
    curve: Seq<Num>,
    cfg: PlateauDetectorConfig,
    c: PlateauCalibration,
    k: int,
) -> bool {
    let runs = runs_of(fp, samples, curve, cfg);
    &&& rises(fp, runs, cfg, k)
    &&& is_plateau(fp, samples, curve, cfg, runs[k])
    &&& is_plateau(fp, samples, curve, cfg, runs[k + 1])
    &&& c.calibration.point1 == (runs[k].volts, Num { bits: SPARTAN2_PLATEAU_1.1 })
    &&& c.calibration.point2 == (runs[k + 1].volts, Num { bits: SPARTAN2_PLATEAU_2.1 })
}

/// A calibration comes from two consecutive plateaus of the trace that rise
/// far enough, and lays each at the AFR that the sensor sent.
pub proof fn law_a_calibration_rests_on_two_plateaus(
    fp: Fp,
    samples: Seq<AfrSample>,
    curve: Seq<Num>,
    cfg: PlateauDetectorConfig,
)
    ensures
        calibrated(fp, samples, curve, cfg) matches Ok(c) ==> exists|k: int|
            rests_on(fp, samples, curve, cfg, c, k),
{
    let runs = runs_of(fp, samples, curve, cfg);
    if let Ok(c) = calibrated(fp, samples, curve, cfg) {
        law_the_pair_rises(fp, runs, cfg, runs.len() as int);
        let k = best_pair(fp, runs, cfg, runs.len() as int)->0;
        law_runs_are_plateaus(fp, samples, curve, cfg, k);
        law_runs_are_plateaus(fp, samples, curve, cfg, k + 1);
        assert(rests_on(fp, samples, curve, cfg, c, k));
    }
}

/// A trace whose steady runs never rise gives no calibration: fitting a
/// falling pair would turn the curve upside down.
pub proof fn law_falling_runs_give_no_calibration(
    fp: Fp,
    samples: Seq<AfrSample>,
    curve: Seq<Num>,
    cfg: PlateauDetectorConfig,
)
    requires
        fp.orderly(),
        (Num { bits: ZERO }).below(cfg.min_separation_volts),
        forall|k: int|
            0 <= k && k + 1 < runs_of(fp, samples, curve, cfg).len() ==> (#[trigger] runs_of(
                fp,
                samples,
                curve,
                cfg,
            )[k + 1]).volts.at_most(runs_of(fp, samples, curve, cfg)[k].volts),
    ensures
        calibrated(fp, samples, curve, cfg) is Err,
{
    let runs = runs_of(fp, samples, curve, cfg);
    assert forall|k: int| k + 1 < runs.len() implies !#[trigger] rises(fp, runs, cfg, k) by {
        if rises(fp, runs, cfg, k) {
            assert(runs[k + 1].volts.at_most(runs[k].volts));
            reveal(Fp::orderly);
            assert(!(Num { bits: ZERO }).below(fp.sub(runs[k + 1].volts, runs[k].volts)));
        }
    }
    law_the_pair_rises(fp, runs, cfg, runs.len() as int);
}

/// A trace with fewer than two steady runs gives no calibration, however
/// steady it is.
pub proof fn law_one_steady_run_gives_no_calibration(
    fp: Fp,
    samples: Seq<AfrSample>,
    curve: Seq<Num>,
    cfg: PlateauDetectorConfig,
)
    requires
        runs_of(fp, samples, curve, cfg).len() < 2,
    ensures
        calibrated(fp, samples, curve, cfg) is Err,
{
}

} // verus!
