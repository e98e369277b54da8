//! What the plateau detector makes of a trace, told by the samples alone:
//! where it cuts the trace into levels, which of these are runs, which voltage
//! a run stands for, and which two runs it calibrates from.

use super::error::ErrorView;
use super::plateau::{
    best_pair, brackets, calibrated, closed_runs, highest, inverted, is_bracket, is_level, leaves,
    law_a_level_stays_within_the_tolerance, law_extremes_bound_a_stretch, law_the_pair_rises,
    level_start, lowest, misfit, rises, run_of, runs_of, sum_of, tail_of, AfrSample,
    PlateauCalibration, PlateauDetectorConfig, Run,
};
use super::plateau::{lemma_bracket_is_unique, lemma_first_bracket, lemma_open_level};
use super::thermistor_rounding::lemma_three_steps;
use super::{lemma_adc_steps, lemma_reference_is_five, ADC_REFERENCE_VOLTS};
use crate::machine::{
    lemma_difference, lemma_near_product, lemma_near_quotient, lemma_near_scaled,
    lemma_near_unscaled, lemma_size_of_product, lemma_slope_bound, near, size, Fp,
};
use crate::num::{lemma_zero_and_one, unit, Num};
use crate::text::decimal;
use vstd::prelude::*;

verus! {

/// No two of the readings of samples `a .. b` lie farther apart than the
/// tolerance.
pub open spec fn one_level(fp: Fp, samples: Seq<AfrSample>, tolerance: Num, a: int, b: int) -> bool {
    forall|j: int, k: int|
        #![trigger samples[j], samples[k]]
        a <= j < b && a <= k < b && j != k ==> !tolerance.below(
            fp.sub(samples[j].afr, samples[k].afr).unsigned(),
        )
}

/// Sample `b` lies farther than the tolerance from one of samples `a .. b`.
pub open spec fn breaks_away(
    fp: Fp,
    samples: Seq<AfrSample>,
    tolerance: Num,
    a: int,
    b: int,
) -> bool {
    exists|j: int|
        a <= j < b && tolerance.below(fp.sub(samples[b].afr, (#[trigger] samples[j]).afr).unsigned())
}

/// The trace is cut into levels: each goes on for as long as its readings lie
/// within the tolerance of each other, and the next starts with the sample
/// that does not. `cuts` holds where each starts, and the end of the trace.
pub open spec fn cuts_levels(
    fp: Fp,
    samples: Seq<AfrSample>,
    tolerance: Num,
    cuts: Seq<int>,
) -> bool {
    &&& cuts.len() >= 2
    &&& cuts[0] == 0
    &&& cuts.last() == samples.len()
    &&& forall|i: int, j: int| 0 <= i < j < cuts.len() ==> cuts[i] < cuts[j]
    &&& forall|i: int|
        0 <= i < cuts.len() - 1 ==> one_level(fp, samples, tolerance, #[trigger] cuts[i], cuts[i + 1])
    &&& forall|i: int|
        0 <= i < cuts.len() - 2 ==> breaks_away(
            fp,
            samples,
            tolerance,
            #[trigger] cuts[i],
            cuts[i + 1],
        )
}

/// The same, whatever the readings are: what is no number neither widens a
/// level nor ends it. A level goes on for as long as its largest reading less
/// its smallest is within the tolerance.
pub open spec fn cuts_spreads(
    fp: Fp,
    samples: Seq<AfrSample>,
    tolerance: Num,
    cuts: Seq<int>,
) -> bool {
    &&& cuts.len() >= 2
    &&& cuts[0] == 0
    &&& cuts.last() == samples.len()
    &&& forall|i: int, j: int| 0 <= i < j < cuts.len() ==> cuts[i] < cuts[j]
    &&& forall|i: int, b: int|
        #![trigger highest(samples, cuts[i], b)]
        0 <= i < cuts.len() - 1 && cuts[i] + 1 < b <= cuts[i + 1] ==> !tolerance.below(
            fp.sub(highest(samples, cuts[i], b), lowest(samples, cuts[i], b)),
        )
    &&& forall|i: int|
        0 <= i < cuts.len() - 2 ==> tolerance.below(
            fp.sub(
                highest(samples, #[trigger] cuts[i], cuts[i + 1] + 1),
                lowest(samples, cuts[i], cuts[i + 1] + 1),
            ),
        )
}

/// The reading lies between the two, ends included.
pub open spec fn between(a: Num, b: Num, afr: Num) -> bool {
    a.at_most(afr) && afr.at_most(b) || b.at_most(afr) && afr.at_most(a)
}

/// Entry `i` of the curve is the first from which it passes through the
/// reading.
pub open spec fn passes_first(curve: Seq<Num>, afr: Num, i: int) -> bool {
    &&& 0 <= i < curve.len() - 1
    &&& between(curve[i], curve[i + 1], afr)
    &&& forall|j: int| 0 <= j < i ==> !between(#[trigger] curve[j], curve[j + 1], afr)
}

/// The voltage of a reading between entries `i` and `i + 1` of a curve: five
/// volts over 1023 counts, the count being `i` and how far the reading is on
/// its way to the next entry. Entries closer than 1e-12 are level.
pub open spec fn interpolated(fp: Fp, a: Num, b: Num, afr: Num, i: int) -> Num {
    let fraction = if fp.sub(b, a).unsigned().below(Num { bits: 0x3D71_9799_812D_EA11 }) {
        Num { bits: 0 }
    } else {
        fp.div(fp.sub(afr, a), fp.sub(b, a))
    };
    fp.div(
        fp.mul(fp.add(fp.count(i), fraction), Num { bits: 0x4014_0000_0000_0000 }),
        fp.count(1023),
    )
}

/// A reading stands for the voltage at which the curve first passes through
/// it, and for none where the curve never does.
pub proof fn law_a_reading_stands_for_where_the_curve_first_passes(
    fp: Fp,
    curve: Seq<Num>,
    afr: Num,
)
    requires
        fp.exact(),
    ensures
        inverted(fp, curve, afr) is Some <==> exists|i: int| passes_first(curve, afr, i),
        inverted(fp, curve, afr) is Some <==> exists|i: int|
            0 <= i < curve.len() - 1 && between(#[trigger] curve[i], curve[i + 1], afr),
        forall|i: int| #[trigger]
            passes_first(curve, afr, i) ==> inverted(fp, curve, afr) == Some(
                interpolated(fp, curve[i], curve[i + 1], afr, i),
            ),
{
    lemma_adc_steps(fp);
    assert forall|i: int| 0 <= i < curve.len() - 1 implies brackets(curve, afr, i) == between(
        #[trigger] curve[i],
        curve[i + 1],
        afr,
    ) by {}
    assert forall|i: int| passes_first(curve, afr, i) == is_bracket(curve, afr, i) by {
        if passes_first(curve, afr, i) {
            assert forall|j: int| 0 <= j < i implies !#[trigger] brackets(curve, afr, j) by {
                assert(!between(curve[j], curve[j + 1], afr));
            }
        }
        if is_bracket(curve, afr, i) {
            assert forall|j: int| 0 <= j < i implies !between(
                #[trigger] curve[j],
                curve[j + 1],
                afr,
            ) by {
                assert(!brackets(curve, afr, j));
            }
        }
    }
    assert forall|i: int| #[trigger] passes_first(curve, afr, i) implies inverted(fp, curve, afr)
        == Some(interpolated(fp, curve[i], curve[i + 1], afr, i)) by {
        assert(is_bracket(curve, afr, i));
        lemma_bracket_is_unique(curve, afr, i);
    }
    if inverted(fp, curve, afr) is Some {
        let i = choose|i: int| is_bracket(curve, afr, i);
        assert(passes_first(curve, afr, i));
        assert(between(curve[i], curve[i + 1], afr));
    }
    if exists|i: int| 0 <= i < curve.len() - 1 && between(#[trigger] curve[i], curve[i + 1], afr) {
        let i = choose|i: int|
            0 <= i < curve.len() - 1 && between(#[trigger] curve[i], curve[i + 1], afr);
        assert(brackets(curve, afr, i));
        lemma_first_bracket(curve, afr, i);
    }
}

/// The settled readings of samples `a .. b`: those of the last part of them,
/// by time.
pub open spec fn settled(
    fp: Fp,
    samples: Seq<AfrSample>,
    fraction: Num,
    a: int,
    b: int,
) -> Seq<Num> {
    let (first, last) = (samples[a].time_s, samples[b - 1].time_s);
    let from = fp.sub(last, fp.mul(fp.sub(last, first), fraction));
    samples.subrange(a, b).filter(|s: AfrSample| from.at_most(s.time_s)).map_values(
        |s: AfrSample| s.afr,
    )
}

/// The mean of some numbers.
pub open spec fn mean(fp: Fp, s: Seq<Num>) -> Num {
    fp.div(s.fold_left(Num { bits: 0 }, |sum: Num, x: Num| fp.add(sum, x)), fp.count(s.len() as int))
}

/// Samples `a .. b` make up the run: they last no less than the shortest and no
/// longer than the longest plateau, the mean of the settled readings is the
/// reading of the run, and that stands for a voltage off both rails.
pub open spec fn makes_run(
    fp: Fp,
    samples: Seq<AfrSample>,
    curve: Seq<Num>,
    cfg: PlateauDetectorConfig,
    a: int,
    b: int,
    run: Run,
) -> bool {
    let lasts = fp.sub(samples[b - 1].time_s, samples[a].time_s);
    let readings = settled(fp, samples, cfg.settle_fraction, a, b);
    &&& !lasts.below(cfg.min_duration_s)
    &&& !cfg.max_duration_s.below(lasts)
    &&& readings.len() > 0
    &&& run.start_s == samples[a].time_s
    &&& run.end_s == samples[b - 1].time_s
    &&& run.settled_afr == mean(fp, readings)
    &&& exists|i: int|
        {
            &&& #[trigger] passes_first(curve, run.settled_afr, i)
            &&& run.volts == interpolated(fp, curve[i], curve[i + 1], run.settled_afr, i)
        }
    &&& !run.volts.below(cfg.rail_margin_volts)
    &&& !fp.sub(Num { bits: 0x4014_0000_0000_0000 }, cfg.rail_margin_volts).below(run.volts)
}

proof fn lemma_settled(samples: Seq<AfrSample>, a: int, b: int, from: Num)
    requires
        0 <= a <= b <= samples.len(),
    ensures
        tail_of(samples, a, b, from) == samples.subrange(a, b).filter(
            |s: AfrSample| from.at_most(s.time_s),
        ).map_values(|s: AfrSample| s.afr),
    decreases b - a,
{
    reveal(Seq::filter);
    let late = |s: AfrSample| from.at_most(s.time_s);
    let read = |s: AfrSample| s.afr;
    let part = samples.subrange(a, b);
    if a < b {
        lemma_settled(samples, a, b - 1, from);
        assert(part.drop_last() =~= samples.subrange(a, b - 1));
        assert(part.last() == samples[b - 1]);
    }
    assert(tail_of(samples, a, b, from) =~= part.filter(late).map_values(read));
}

proof fn lemma_mean(fp: Fp, s: Seq<Num>)
    ensures
        sum_of(fp, s) == s.fold_left(Num { bits: 0 }, |sum: Num, x: Num| fp.add(sum, x)),
    decreases s.len(),
{
    if s.len() > 0 {
        lemma_mean(fp, s.drop_last());
    }
}

proof fn lemma_makes_run(
    fp: Fp,
    samples: Seq<AfrSample>,
    curve: Seq<Num>,
    cfg: PlateauDetectorConfig,
    a: int,
    b: int,
    run: Run,
)
    requires
        fp.exact(),
        0 <= a < b <= samples.len(),
    ensures
        makes_run(fp, samples, curve, cfg, a, b, run) == (run_of(fp, samples, curve, cfg, a, b)
            == Some(run)),
{
    let (first, last) = (samples[a].time_s, samples[b - 1].time_s);
    let from = fp.sub(last, fp.mul(fp.sub(last, first), cfg.settle_fraction));
    lemma_settled(samples, a, b, from);
    let readings = settled(fp, samples, cfg.settle_fraction, a, b);
    assert(readings == tail_of(samples, a, b, from));
    lemma_mean(fp, readings);
    let afr = mean(fp, readings);
    law_a_reading_stands_for_where_the_curve_first_passes(fp, curve, afr);
    if run_of(fp, samples, curve, cfg, a, b) == Some(run) {
        let i = choose|i: int| passes_first(curve, afr, i);
        assert(passes_first(curve, afr, i));
    }
}

/// The sample with which a level ends lies farther than the tolerance from one
/// of the level's.
proof fn lemma_breaks_away(
    fp: Fp,
    samples: Seq<AfrSample>,
    cfg: PlateauDetectorConfig,
    a: int,
    b: int,
)
    requires
        fp.orderly(),
        0 <= a < b < samples.len(),
        forall|i: int| a <= i <= b ==> (#[trigger] samples[i]).afr.finite(),
        b > a + 1 ==> !leaves(fp, samples, cfg, a, b - 1),
        leaves(fp, samples, cfg, a, b),
    ensures
        breaks_away(fp, samples, cfg.tolerance_afr, a, b),
{
    law_extremes_bound_a_stretch(samples, a, b);
    let (high, low) = (highest(samples, a, b), lowest(samples, a, b));
    let x = samples[b].afr;
    let j = choose|j: int| a <= j < b && (#[trigger] samples[j]).afr == high;
    let k = choose|k: int| a <= k < b && (#[trigger] samples[k]).afr == low;
    assert(samples[a].afr.at_most(high) && low.at_most(samples[a].afr));
    assert(x.finite() && samples[j].afr.finite() && samples[k].afr.finite());
    assert(highest(samples, a, b + 1) == high.larger(x));
    assert(lowest(samples, a, b + 1) == low.smaller(x));
    if high.below(x) {
        lemma_difference(fp, x, low);
        assert(cfg.tolerance_afr.below(fp.sub(samples[b].afr, samples[k].afr).unsigned()));
    } else if x.below(low) {
        lemma_difference(fp, high, x);
        assert(cfg.tolerance_afr.below(fp.sub(samples[b].afr, samples[j].afr).unsigned()));
    } else if b == a + 1 {
        lemma_difference(fp, high, low);
        assert(j == a && k == a);
        assert(cfg.tolerance_afr.below(fp.sub(high, low)));
        lemma_equal_apart(fp, x, high);
    }
}

/// Equal numbers lie no distance apart.
proof fn lemma_equal_apart(fp: Fp, a: Num, b: Num)
    requires
        fp.orderly(),
        a.finite(),
        b.finite(),
        a.equals(b),
    ensures
        !fp.sub(a, b).nan(),
        fp.sub(a, b).rank() == 0,
        fp.sub(a, a).rank() == 0,
        fp.sub(b, b).rank() == 0,
{
    reveal(Fp::orderly);
    assert(!fp.sub(a, b).nan() && !fp.sub(b, a).nan() && !fp.sub(a, a).nan() && !fp.sub(b, b).nan());
}

/// Where the levels start that the first `n` samples hold.
spec fn starts(fp: Fp, samples: Seq<AfrSample>, cfg: PlateauDetectorConfig, n: int) -> Seq<int>
    decreases n,
{
    if n <= 1 {
        seq![0]
    } else {
        let before = starts(fp, samples, cfg, n - 1);
        if leaves(fp, samples, cfg, level_start(fp, samples, cfg, n - 1), n - 1) {
            before.push(n - 1)
        } else {
            before
        }
    }
}

/// Which of the levels that the first `n` samples have left make up a run.
spec fn picks(
    fp: Fp,
    samples: Seq<AfrSample>,
    curve: Seq<Num>,
    cfg: PlateauDetectorConfig,
    n: int,
) -> Seq<int>
    decreases n,
{
    if n <= 1 {
        Seq::empty()
    } else {
        let before = picks(fp, samples, curve, cfg, n - 1);
        let start = level_start(fp, samples, cfg, n - 1);
        if leaves(fp, samples, cfg, start, n - 1) && run_of(
            fp,
            samples,
            curve,
            cfg,
            start,
            n - 1,
        ) is Some {
            before.push(starts(fp, samples, cfg, n - 1).len() - 1)
        } else {
            before
        }
    }
}

/// Every reading of the trace is finite.
pub open spec fn all_finite(samples: Seq<AfrSample>) -> bool {
    forall|i: int| 0 <= i < samples.len() ==> (#[trigger] samples[i]).afr.finite()
}

/// Samples `a .. b` hold one level, and the next one leaves it.
spec fn is_whole_level(
    fp: Fp,
    samples: Seq<AfrSample>,
    cfg: PlateauDetectorConfig,
    a: int,
    b: int,
) -> bool {
    is_level(fp, samples, cfg, a, b) && leaves(fp, samples, cfg, a, b)
}

proof fn lemma_starts(fp: Fp, samples: Seq<AfrSample>, cfg: PlateauDetectorConfig, n: int)
    requires
        1 <= n <= samples.len(),
    ensures
        ({
            let s = starts(fp, samples, cfg, n);
            &&& s.len() >= 1
            &&& s[0] == 0
            &&& s.last() == level_start(fp, samples, cfg, n)
            &&& 0 <= s.last() < n
            &&& forall|i: int, j: int| 0 <= i < j < s.len() ==> 0 <= #[trigger] s[i] < #[trigger] s[j]
            &&& forall|i: int|
                0 <= i < s.len() - 1 ==> is_whole_level(
                    fp,
                    samples,
                    cfg,
                    #[trigger] s[i],
                    s[i + 1],
                )
        }),
    decreases n,
{
    if n > 1 {
        lemma_starts(fp, samples, cfg, n - 1);
        lemma_open_level(fp, samples, cfg, n - 1);
        let before = starts(fp, samples, cfg, n - 1);
        let start = level_start(fp, samples, cfg, n - 1);
        if leaves(fp, samples, cfg, start, n - 1) {
            let s = starts(fp, samples, cfg, n);
            assert forall|i: int| 0 <= i < s.len() - 1 implies is_whole_level(
                fp,
                samples,
                cfg,
                #[trigger] s[i],
                s[i + 1],
            ) by {
                assert(s[i] == before[i]);
                if i + 1 < before.len() {
                    assert(s[i + 1] == before[i + 1]);
                }
            }
        }
    }
}

proof fn lemma_one_level(fp: Fp, samples: Seq<AfrSample>, cfg: PlateauDetectorConfig, a: int, b: int)
    requires
        fp.orderly(),
        is_level(fp, samples, cfg, a, b),
        all_finite(samples),
    ensures
        one_level(fp, samples, cfg.tolerance_afr, a, b),
{
    assert forall|j: int, k: int|
        #![trigger samples[j], samples[k]]
        a <= j < b && a <= k < b && j != k implies !cfg.tolerance_afr.below(
        fp.sub(samples[j].afr, samples[k].afr).unsigned(),
    ) by {
        law_a_level_stays_within_the_tolerance(fp, samples, cfg, a, b, j, k);
    }
}

/// The run that level `k` makes up, if any.
#[verifier::opaque]
spec fn run_at(
    fp: Fp,
    samples: Seq<AfrSample>,
    curve: Seq<Num>,
    cfg: PlateauDetectorConfig,
    s: Seq<int>,
    k: int,
) -> Option<Run> {
    run_of(fp, samples, curve, cfg, s[k], s[k + 1])
}

#[verifier::spinoff_prover]
#[verifier::rlimit(40)]
proof fn lemma_picks(
    fp: Fp,
    samples: Seq<AfrSample>,
    curve: Seq<Num>,
    cfg: PlateauDetectorConfig,
    n: int,
)
    requires
        1 <= n <= samples.len(),
    ensures
        ({
            let s = starts(fp, samples, cfg, n);
            let p = picks(fp, samples, curve, cfg, n);
            let runs = closed_runs(fp, samples, curve, cfg, n);
            &&& p.len() == runs.len()
            &&& forall|i: int, j: int| 0 <= i < j < p.len() ==> p[i] < p[j]
            &&& forall|i: int|
                0 <= i < p.len() ==> {
                    &&& 0 <= #[trigger] p[i] < s.len() - 1
                    &&& run_at(fp, samples, curve, cfg, s, p[i]) == Some(runs[i])
                }
            &&& forall|k: int|
                0 <= k < s.len() - 1 && (#[trigger] run_at(fp, samples, curve, cfg, s, k)) is Some
                    ==> p.contains(k)
        }),
    decreases n,
{
    if n > 1 {
        lemma_picks(fp, samples, curve, cfg, n - 1);
        lemma_starts(fp, samples, cfg, n - 1);
        let (s, before) = (starts(fp, samples, cfg, n), starts(fp, samples, cfg, n - 1));
        let (p, q) = (picks(fp, samples, curve, cfg, n), picks(fp, samples, curve, cfg, n - 1));
        let runs = closed_runs(fp, samples, curve, cfg, n);
        let start = level_start(fp, samples, cfg, n - 1);
        if leaves(fp, samples, cfg, start, n - 1) {
            let last = before.len() - 1;
            assert(s[last] == start && s[last + 1] == n - 1);
            assert forall|k: int| 0 <= k < last implies #[trigger] run_at(
                fp,
                samples,
                curve,
                cfg,
                s,
                k,
            ) == run_at(fp, samples, curve, cfg, before, k) by {
                reveal(run_at);
                assert(s[k] == before[k] && s[k + 1] == before[k + 1]);
            }
            assert(run_at(fp, samples, curve, cfg, s, last) == run_of(
                fp,
                samples,
                curve,
                cfg,
                start,
                n - 1,
            )) by {
                reveal(run_at);
            }
            assert forall|i: int| 0 <= i < p.len() implies 0 <= #[trigger] p[i] < s.len() - 1
                && run_at(fp, samples, curve, cfg, s, p[i]) == Some(runs[i]) by {
                if i < q.len() {
                    assert(p[i] == q[i]);
                }
            }
            assert forall|i: int, j: int| 0 <= i < j < p.len() implies p[i] < p[j] by {
                assert(p[i] == q[i]);
                if j < q.len() {
                    assert(p[j] == q[j]);
                }
            }
            assert forall|k: int|
                0 <= k < s.len() - 1 && (#[trigger] run_at(fp, samples, curve, cfg, s, k)) is Some
                implies p.contains(k) by {
                if k < last {
                    assert(run_at(fp, samples, curve, cfg, before, k) is Some);
                    assert(q.contains(k));
                    let i = choose|i: int| 0 <= i < q.len() && q[i] == k;
                    assert(p[i] == k);
                } else {
                    assert(p[p.len() - 1] == k);
                }
            }
        }
    }
}

/// The cuts at which whole levels end.
proof fn lemma_cuts(
    fp: Fp,
    samples: Seq<AfrSample>,
    cfg: PlateauDetectorConfig,
    cuts: Seq<int>,
    s: Seq<int>,
)
    requires
        fp.orderly(),
        s.len() >= 1,
        s[0] == 0,
        0 <= s.last() < samples.len(),
        forall|i: int, j: int| 0 <= i < j < s.len() ==> 0 <= #[trigger] s[i] < #[trigger] s[j],
        forall|i: int|
            0 <= i < s.len() - 1 ==> is_whole_level(fp, samples, cfg, #[trigger] s[i], s[i + 1]),
        is_level(fp, samples, cfg, s.last(), samples.len() as int),
        cuts == s.push(samples.len() as int),
    ensures
        cuts_spreads(fp, samples, cfg.tolerance_afr, cuts),
        all_finite(samples) ==> cuts_levels(fp, samples, cfg.tolerance_afr, cuts),
{
    let last = s.len() - 1;
    assert forall|i: int| 0 <= i < cuts.len() - 1 implies is_level(
        fp,
        samples,
        cfg,
        #[trigger] cuts[i],
        cuts[i + 1],
    ) && (i < cuts.len() - 2 ==> leaves(fp, samples, cfg, cuts[i], cuts[i + 1])) by {
        assert(cuts[i] == s[i]);
        if i < last {
            assert(cuts[i + 1] == s[i + 1]);
        }
    }
    assert forall|i: int, b: int|
        #![trigger highest(samples, cuts[i], b)]
        0 <= i < cuts.len() - 1 && cuts[i] + 1 < b <= cuts[i + 1] implies !cfg.tolerance_afr.below(
        fp.sub(highest(samples, cuts[i], b), lowest(samples, cuts[i], b)),
    ) by {
        assert(is_level(fp, samples, cfg, cuts[i], cuts[i + 1]));
        assert(!leaves(fp, samples, cfg, cuts[i], b - 1));
    }
    if all_finite(samples) {
        assert forall|i: int| 0 <= i < cuts.len() - 1 implies one_level(
            fp,
            samples,
            cfg.tolerance_afr,
            #[trigger] cuts[i],
            cuts[i + 1],
        ) && (i < cuts.len() - 2 ==> breaks_away(
            fp,
            samples,
            cfg.tolerance_afr,
            cuts[i],
            cuts[i + 1],
        )) by {
            let (a, b) = (cuts[i], cuts[i + 1]);
            assert(is_level(fp, samples, cfg, a, b));
            lemma_one_level(fp, samples, cfg, a, b);
            if i < cuts.len() - 2 {
                if b > a + 1 {
                    assert(!leaves(fp, samples, cfg, a, b - 1));
                }
                assert(b < samples.len());
                lemma_breaks_away(fp, samples, cfg, a, b);
            }
        }
    }
}

/// `runs` are what the levels make up, in the order of the trace: `which` holds
/// the levels that make one up, and no other does.
pub open spec fn are_the_runs(
    fp: Fp,
    samples: Seq<AfrSample>,
    curve: Seq<Num>,
    cfg: PlateauDetectorConfig,
    cuts: Seq<int>,
    which: Seq<int>,
    runs: Seq<Run>,
) -> bool {
    &&& which.len() == runs.len()
    &&& forall|i: int, j: int| 0 <= i < j < which.len() ==> which[i] < which[j]
    &&& forall|i: int|
        0 <= i < which.len() ==> {
            &&& 0 <= #[trigger] which[i] < cuts.len() - 1
            &&& makes_run(fp, samples, curve, cfg, cuts[which[i]], cuts[which[i] + 1], runs[i])
        }
    &&& forall|k: int, run: Run|
        0 <= k < cuts.len() - 1 && #[trigger] makes_run(
            fp,
            samples,
            curve,
            cfg,
            cuts[k],
            cuts[k + 1],
            run,
        ) ==> which.contains(k)
}

/// The runs of a trace are found by cutting it into levels, each as long as its
/// readings lie within the tolerance of each other, and keeping, in order, the
/// levels that make up a run. Readings that are no numbers are passed over.
#[verifier::spinoff_prover]
#[verifier::rlimit(40)]
pub proof fn law_runs_are_levels_of_the_trace(
    fp: Fp,
    samples: Seq<AfrSample>,
    curve: Seq<Num>,
    cfg: PlateauDetectorConfig,
)
    requires
        fp.orderly(),
        fp.exact(),
        samples.len() >= 1,
    ensures
        exists|cuts: Seq<int>, which: Seq<int>| #[trigger]
            are_the_runs(
                fp,
                samples,
                curve,
                cfg,
                cuts,
                which,
                runs_of(fp, samples, curve, cfg),
            ) && cuts_spreads(fp, samples, cfg.tolerance_afr, cuts) && (all_finite(samples)
                ==> cuts_levels(fp, samples, cfg.tolerance_afr, cuts)),
{
    let n = samples.len() as int;
    let (s, p) = (starts(fp, samples, cfg, n), picks(fp, samples, curve, cfg, n));
    let start = level_start(fp, samples, cfg, n);
    lemma_starts(fp, samples, cfg, n);
    lemma_picks(fp, samples, curve, cfg, n);
    lemma_open_level(fp, samples, cfg, n);
    let cuts = s.push(n);
    let last = s.len() - 1;
    let some = run_of(fp, samples, curve, cfg, start, n) is Some;
    let which = if some {
        p.push(last)
    } else {
        p
    };
    let runs = runs_of(fp, samples, curve, cfg);
    assert(cuts[last] == start && cuts[last + 1] == n);
    lemma_cuts(fp, samples, cfg, cuts, s);
    assert forall|i: int| 0 <= i < which.len() implies 0 <= #[trigger] which[i] < cuts.len() - 1
        && makes_run(fp, samples, curve, cfg, cuts[which[i]], cuts[which[i] + 1], runs[i]) by {
        let k = which[i];
        if i < p.len() {
            assert(p[i] == k);
            assert(cuts[k] == s[k] && cuts[k + 1] == s[k + 1]);
            reveal(run_at);
        }
        assert(0 <= cuts[k] < cuts[k + 1] <= n);
        lemma_makes_run(fp, samples, curve, cfg, cuts[k], cuts[k + 1], runs[i]);
    }
    assert forall|k: int, run: Run|
        0 <= k < cuts.len() - 1 && #[trigger] makes_run(
            fp,
            samples,
            curve,
            cfg,
            cuts[k],
            cuts[k + 1],
            run,
        ) implies which.contains(k) by {
        assert(0 <= cuts[k] < cuts[k + 1] <= n);
        lemma_makes_run(fp, samples, curve, cfg, cuts[k], cuts[k + 1], run);
        if k < last {
            assert(cuts[k] == s[k] && cuts[k + 1] == s[k + 1]);
            assert(run_at(fp, samples, curve, cfg, s, k) is Some) by {
                reveal(run_at);
            }
            assert(p.contains(k));
            let i = choose|i: int| 0 <= i < p.len() && p[i] == k;
            assert(which[i] == k);
        } else {
            assert(which[which.len() - 1] == k);
        }
    }
    assert(are_the_runs(fp, samples, curve, cfg, cuts, which, runs));
}

proof fn lemma_best_pair(fp: Fp, runs: Seq<Run>, cfg: PlateauDetectorConfig, n: int, j: int)
    requires
        n <= runs.len(),
        j + 1 < n,
        rises(fp, runs, cfg, j),
        forall|k: int| #[trigger] rises(fp, runs, cfg, k) ==> !misfit(fp, runs, k).nan(),
    ensures
        best_pair(fp, runs, cfg, n) matches Some(k) && !misfit(fp, runs, j).below(
            misfit(fp, runs, k),
        ) && (j < k ==> misfit(fp, runs, k).below(misfit(fp, runs, j))),
    decreases n,
{
    law_the_pair_rises(fp, runs, cfg, n);
    law_the_pair_rises(fp, runs, cfg, n - 1);
    if j < n - 2 {
        lemma_best_pair(fp, runs, cfg, n - 1, j);
        let p = best_pair(fp, runs, cfg, n - 1)->0;
        assert(rises(fp, runs, cfg, p));
    }
}

/// Among the first runs, the pair chosen gives way to the next one alone where
/// that rises far enough and is nearer to the nominal ratio, in so many words:
/// a distance that is no number is nearer than none, and none is nearer than
/// it.
pub proof fn law_a_pair_gives_way_to_a_nearer_one(
    fp: Fp,
    runs: Seq<Run>,
    cfg: PlateauDetectorConfig,
    n: int,
)
    requires
        1 <= n < runs.len(),
    ensures
        ({
            let nominal = fp.div(
                Num { bits: 0x400A_A9FB_E76C_8B44 },
                Num { bits: 0x3FFA_A7EF_9DB2_2D0E },
            );
            let rising = cfg.min_separation_volts.at_most(
                fp.sub(runs[n].volts, runs[n - 1].volts),
            );
            let next = fp.sub(fp.div(runs[n].volts, runs[n - 1].volts), nominal).unsigned();
            best_pair(fp, runs, cfg, n + 1) == match best_pair(fp, runs, cfg, n) {
                None => if rising {
                    Some(n - 1)
                } else {
                    None
                },
                Some(k) => if rising && next.below(
                    fp.sub(fp.div(runs[k + 1].volts, runs[k].volts), nominal).unsigned(),
                ) {
                    Some(n - 1)
                } else {
                    Some(k)
                },
            }
        }),
        best_pair(fp, runs, cfg, 1) is None,
{
}

/// Runs `k` and `k + 1` of the trace are the pair that a calibration comes
/// from: their voltages rise by the separation or more, and `v2 / v1` lies no
/// farther from 3.333 / 1.666 than that of any other two consecutive runs whose
/// voltages do; of those as near, it is the first.
pub open spec fn is_nearest_pair(
    fp: Fp,
    runs: Seq<Run>,
    separation: Num,
    k: int,
) -> bool {
    let nominal = fp.div(
        Num { bits: 0x400A_A9FB_E76C_8B44 },
        Num { bits: 0x3FFA_A7EF_9DB2_2D0E },
    );
    &&& 0 <= k < runs.len() - 1
    &&& separation.at_most(fp.sub(runs[k + 1].volts, runs[k].volts))
    &&& forall|j: int|
        0 <= j < runs.len() - 1 && separation.at_most(
            fp.sub(runs[j + 1].volts, (#[trigger] runs[j]).volts),
        ) ==> {
            let chosen = fp.sub(fp.div(runs[k + 1].volts, runs[k].volts), nominal).unsigned();
            let other = fp.sub(fp.div(runs[j + 1].volts, runs[j].volts), nominal).unsigned();
            chosen.at_most(other) && (j < k ==> chosen.below(other))
        }
}

/// What a calibration made of the pair.
pub open spec fn comes_from(fp: Fp, c: PlateauCalibration, p1: Run, p2: Run) -> bool {
    let offset1 = fp.sub(p1.volts, Num { bits: 0x3FFA_A7EF_9DB2_2D0E });
    let offset2 = fp.sub(p2.volts, Num { bits: 0x400A_A9FB_E76C_8B44 });
    &&& c.calibration.point1 == (p1.volts, Num { bits: 0x402A_A7EF_9DB2_2D0E })
    &&& c.calibration.point2 == (p2.volts, Num { bits: 0x4030_AA7E_F9DB_22D1 })
    &&& c.observed_afr == (p1.settled_afr, p2.settled_afr)
    &&& c.observed_volts == (p1.volts, p2.volts)
    &&& c.windows == ((p1.start_s, p1.end_s), (p2.start_s, p2.end_s))
    &&& c.ground_offset_volts == fp.div(
        fp.add(offset1, offset2),
        Num { bits: 0x4000_0000_0000_0000 },
    )
    &&& c.offset_consistency_volts == fp.sub(offset1, offset2).unsigned()
}

/// The distance of `v2 / v1` from 3.333 / 1.666 is a number, for every two
/// consecutive runs that rise far enough.
pub open spec fn ratios_compare(fp: Fp, runs: Seq<Run>, separation: Num) -> bool {
    forall|j: int|
        0 <= j < runs.len() - 1 && separation.at_most(
            fp.sub(runs[j + 1].volts, (#[trigger] runs[j]).volts),
        ) ==> !fp.sub(
            fp.div(runs[j + 1].volts, runs[j].volts),
            fp.div(Num { bits: 0x400A_A9FB_E76C_8B44 }, Num { bits: 0x3FFA_A7EF_9DB2_2D0E }),
        ).nan()
}

/// A trace of two samples or more is calibrated from those two consecutive
/// runs, rising far enough, whose voltages come nearest to the nominal ratio of
/// 3.333 to 1.666. Without such runs there is no calibration, and the message
/// tells how many runs there were; where the two lie at one voltage, the line
/// through them is refused.
#[verifier::spinoff_prover]
#[verifier::rlimit(40)]
pub proof fn law_a_trace_is_calibrated_from_the_nearest_pair(
    fp: Fp,
    samples: Seq<AfrSample>,
    curve: Seq<Num>,
    cfg: PlateauDetectorConfig,
)
    requires
        samples.len() >= 2,
        ratios_compare(fp, runs_of(fp, samples, curve, cfg), cfg.min_separation_volts),
    ensures
        ({
            let runs = runs_of(fp, samples, curve, cfg);
            let found = calibrated(fp, samples, curve, cfg);
            let pairs = exists|j: int|
                0 <= j < runs.len() - 1 && cfg.min_separation_volts.at_most(
                    fp.sub(runs[j + 1].volts, (#[trigger] runs[j]).volts),
                );
            &&& pairs ==> exists|k: int|
                {
                    &&& #[trigger] is_nearest_pair(fp, runs, cfg.min_separation_volts, k)
                    &&& if fp.sub(runs[k].volts, runs[k + 1].volts).unsigned().below(
                        Num { bits: 0x3E11_2E0B_E826_D695 },
                    ) {
                        found == Err::<PlateauCalibration, ErrorView>(
                            ErrorView::DegenerateInputs(
                                "the two calibration points must be at different voltages (both were "@
                                    + fp.fixed(runs[k].volts, 3) + " V)"@,
                            ),
                        )
                    } else {
                        found matches Ok(c) && comes_from(fp, c, runs[k], runs[k + 1])
                    }
                }
            &&& !pairs ==> found == Err::<PlateauCalibration, ErrorView>(
                ErrorView::DegenerateInputs(
                    "no pair of rising sensor startup plateaus found in "@ + fp.fixed(
                        fp.sub(samples.last().time_s, samples[0].time_s),
                        1,
                    ) + " s of AFR data ("@ + decimal(runs.len() as int)
                        + " steady run(s) detected). Capture from key-on, with logging already running."@,
                ),
            )
        }),
{
    let runs = runs_of(fp, samples, curve, cfg);
    let (n, separation) = (runs.len() as int, cfg.min_separation_volts);
    law_the_pair_rises(fp, runs, cfg, n);
    assert forall|k: int| #[trigger] rises(fp, runs, cfg, k) implies !misfit(fp, runs, k).nan() by {
        assert(runs[k].volts == runs[k].volts);
    }
    let pairs = exists|j: int|
        0 <= j < runs.len() - 1 && separation.at_most(
            fp.sub(runs[j + 1].volts, (#[trigger] runs[j]).volts),
        );
    if pairs {
        let first = choose|j: int|
            0 <= j < runs.len() - 1 && separation.at_most(
                fp.sub(runs[j + 1].volts, (#[trigger] runs[j]).volts),
            );
        assert(rises(fp, runs, cfg, first));
        lemma_best_pair(fp, runs, cfg, n, first);
        let k = best_pair(fp, runs, cfg, n)->0;
        assert(!misfit(fp, runs, k).nan());
        assert forall|j: int|
            0 <= j < runs.len() - 1 && separation.at_most(
                fp.sub(runs[j + 1].volts, (#[trigger] runs[j]).volts),
            ) implies misfit(fp, runs, k).at_most(misfit(fp, runs, j)) && (j < k ==> misfit(
            fp,
            runs,
            k,
        ).below(misfit(fp, runs, j))) by {
            assert(rises(fp, runs, cfg, j));
            lemma_best_pair(fp, runs, cfg, n, j);
        }
        assert(is_nearest_pair(fp, runs, separation, k));
    } else {
        assert forall|k: int| k + 1 < n implies !#[trigger] rises(fp, runs, cfg, k) by {
            if rises(fp, runs, cfg, k) {
                assert(separation.at_most(fp.sub(runs[k + 1].volts, runs[k].volts)));
            }
        }
    }
}

/// A calibration is told by its line, by what was read where the sensor sent
/// 13.328 and 16.666 AFR, and by the offset.
pub proof fn law_a_calibration_is_told_by_its_plateaus(fp: Fp, c: PlateauCalibration)
    ensures
        c.text_of(fp) == c.calibration.text_of(fp)
            + " — auto-calibrated from sensor startup plateaus (read "@ + fp.fixed(
            c.observed_afr.0,
            2,
        ) + "/"@ + fp.fixed(c.observed_afr.1, 2) + " AFR where the sensor sent "@ + fp.fixed(
            Num { bits: 0x402A_A7EF_9DB2_2D0E },
            3,
        ) + "/"@ + fp.fixed(Num { bits: 0x4030_AA7E_F9DB_22D1 }, 3) + " AFR; ground offset "@
            + fp.signed(c.ground_offset_volts, 3) + " V)"@,
{
}

/// A trace of fewer than two samples gives no calibration, and one without
/// samples has no runs.
pub proof fn law_a_calibration_needs_a_trace(
    fp: Fp,
    samples: Seq<AfrSample>,
    curve: Seq<Num>,
    cfg: PlateauDetectorConfig,
)
    requires
        samples.len() < 2,
    ensures
        calibrated(fp, samples, curve, cfg) == Err::<PlateauCalibration, ErrorView>(
            ErrorView::DegenerateInputs("need a captured AFR trace to auto-calibrate from"@),
        ),
        samples.len() == 0 ==> runs_of(fp, samples, curve, cfg).len() == 0,
{
}

/// How the roundings of an interpolated voltage add up.
#[verifier::spinoff_prover]
#[verifier::rlimit(40)]
proof fn lemma_interpolation(
    u: int,
    i: int,
    span: int,
    part: int,
    fraction: int,
    position: int,
    product: int,
    volts: int,
)
    requires
        u > 0,
        i >= 0,
        0x10_0000_0000_0000 * size(fraction * span - part * u) <= 4 * (size(part) * u),
        near(i * u + fraction, position),
        near(5 * position, product),
        near(product, 1023 * volts),
    ensures
        0x1_0000_0000_0000 * size(1023 * volts * span - 5 * u * (i * span + part)) <= 5 * u * (i
            * size(span) + size(part)),
{
    lemma_near_scaled(i * u + fraction, position, 5 * span);
    lemma_near_scaled(5 * position, product, span);
    lemma_near_scaled(product, 1023 * volts, span);
    let (x1, x2, x3, x4) = (
        (5 * span) * (i * u + fraction),
        (5 * span) * position,
        span * product,
        span * (1023 * volts),
    );
    assert(span * (5 * position) == x2) by (nonlinear_arith)
        requires
            x2 == (5 * span) * position,
    ;
    lemma_three_steps(x1, x2, x3, x4);
    assert(1023 * volts * span == x4) by (nonlinear_arith)
        requires
            x4 == span * (1023 * volts),
    ;
    let (is, iss, d) = (i * span * u, i * size(span) * u, part * u);
    assert(x1 == 5 * is + 5 * (fraction * span)) by (nonlinear_arith)
        requires
            x1 == (5 * span) * (i * u + fraction),
            is == i * span * u,
    ;
    assert(5 * u * (i * span + part) == 5 * is + 5 * d && 5 * u * (i * size(span) + size(part)) == 5
        * iss + 5 * (size(part) * u)) by (nonlinear_arith)
        requires
            is == i * span * u,
            iss == i * size(span) * u,
            d == part * u,
    ;
    lemma_size_of_product(part, u);
    lemma_size_of_product(i * u, span);
    assert(size(is) == iss) by (nonlinear_arith)
        requires
            is == i * span * u,
            iss == i * size(span) * u,
            size((i * u) * span) == size(i * u) * size(span),
            i >= 0,
            u > 0,
    {
        assert(i * u >= 0);
        assert((i * u) * span == i * span * u);
        assert((i * u) * size(span) == i * size(span) * u);
    }
}

/// The voltage of a reading lies on the straight line between the two entries:
/// 1023 counts are five volts, and the count is `i` and as much of the next as
/// the reading is on its way from entry `a` to entry `b`, up to rounding.
#[verifier::spinoff_prover]
#[verifier::rlimit(40)]
pub proof fn law_a_voltage_is_interpolated(
    fp: Fp,
    curve: Seq<Num>,
    afr: Num,
    i: int,
)
    requires
        fp.exact(),
        fp.close(),
        curve.len() <= 0x20_0000_0000_0000,
        passes_first(curve, afr, i),
        afr.finite(),
        curve[i].finite(),
        curve[i + 1].finite(),
        ({
            let (part, span) = (fp.sub(afr, curve[i]), fp.sub(curve[i + 1], curve[i]));
            let position = fp.add(fp.count(i), fp.div(part, span));
            let five = Num { bits: 0x4014_0000_0000_0000 };
            &&& !span.unsigned().below(Num { bits: 0x3D71_9799_812D_EA11 })
            &&& fp.holds_quotient(part, span)
            &&& position.finite()
            &&& fp.holds_product(position, five)
            &&& fp.holds_quotient(fp.mul(position, five), fp.count(1023))
        }),
    ensures
        ({
            let (part, span) = (
                afr.value() - curve[i].value(),
                curve[i + 1].value() - curve[i].value(),
            );
            &&& inverted(fp, curve, afr) matches Some(v)
            &&& v.finite()
            &&& 0x1_0000_0000_0000 * size(
                1023 * v.value() * span - 5 * unit() * (i * span + part),
            ) <= 5 * unit() * (i * size(span) + size(part))
        }),
{
    let (part, span) = (fp.sub(afr, curve[i]), fp.sub(curve[i + 1], curve[i]));
    let fraction = fp.div(part, span);
    let position = fp.add(fp.count(i), fraction);
    let five = Num { bits: ADC_REFERENCE_VOLTS };
    let product = fp.mul(position, five);
    let v = fp.div(product, fp.count(1023));
    let u = unit();
    law_a_reading_stands_for_where_the_curve_first_passes(fp, curve, afr);
    assert(inverted(fp, curve, afr) == Some(v));
    lemma_zero_and_one();
    lemma_reference_is_five();
    lemma_near_quotient(fp, part, span);
    lemma_near_product(fp, position, five);
    lemma_near_quotient(fp, product, fp.count(1023));
    let (d, s) = (afr.value() - curve[i].value(), curve[i + 1].value() - curve[i].value());
    lemma_slope_bound(u, d, s, part.value(), span.value(), fraction.value());
    let (p, q, w) = (position.value(), product.value(), v.value());
    assert(p * (5 * u) == (5 * p) * u && w * (1023 * u) == (1023 * w) * u) by (nonlinear_arith);
    lemma_near_unscaled(5 * p, q, u);
    lemma_near_unscaled(q, 1023 * w, u);
    lemma_interpolation(u, i, s, d, fraction.value(), p, q, w);
}

/// The largest and the smallest reading of a stretch pass over what is no
/// number: each is a reading of the stretch, bounds all that are numbers, and
/// is itself none only where no reading is.
pub proof fn law_extremes_pass_over_what_is_no_number(samples: Seq<AfrSample>, a: int, b: int)
    requires
        0 <= a < b <= samples.len(),
    ensures
        forall|j: int|
            a <= j < b && !(#[trigger] samples[j]).afr.nan() ==> samples[j].afr.at_most(
                highest(samples, a, b),
            ) && lowest(samples, a, b).at_most(samples[j].afr),
        exists|j: int| a <= j < b && (#[trigger] samples[j]).afr == highest(samples, a, b),
        exists|j: int| a <= j < b && (#[trigger] samples[j]).afr == lowest(samples, a, b),
    decreases b - a,
{
    if b > a + 1 {
        law_extremes_pass_over_what_is_no_number(samples, a, b - 1);
        let (high, low) = (highest(samples, a, b - 1), lowest(samples, a, b - 1));
        assert(highest(samples, a, b) == high || highest(samples, a, b) == samples[b - 1].afr);
        assert(lowest(samples, a, b) == low || lowest(samples, a, b) == samples[b - 1].afr);
    } else {
        assert(highest(samples, a, b) == samples[a].afr);
        assert(lowest(samples, a, b) == samples[a].afr);
    }
}

} // verus!
