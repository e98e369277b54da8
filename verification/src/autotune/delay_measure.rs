//! AFR transport-delay extraction from an enrichment step.
//!
//! The delay test applies a fuel step at a known instant; the wideband sees it
//! only after the exhaust transport delay plus the sensor's own lag. This
//! module turns the sampled AFR trace around one step into a single measured
//! delay, or declines when the trace cannot support one.

use crate::machine::{
    is_product, is_sum, lemma_difference, lemma_differences_rise, lemma_neutral,
    lemma_products_rise, lemma_quotients_rise, lemma_sums_rise, Calc, Fp, Machine, Style, MOST_COUNT,
};
use crate::num::{lemma_zero_and_one, unit, Num, ONE, TWO, ZERO};
use vstd::arithmetic::power2::{lemma_pow2_adds, lemma_pow2_unfold, pow2};
use vstd::prelude::*;

pub use super::delay_table::{DelayCell, DelayTable, LOAD_EDGES, RPM_EDGES};

verus! {

/// One realtime sample: milliseconds (monotonic, same clock as the step
/// anchor) and the AFR reading.
#[derive(Clone, Copy, Debug)]
pub struct AfrSample {
    pub t_ms: u64,
    pub afr: Num,
}

/// A successful delay extraction for one enrichment step.
#[derive(Clone, Copy, Debug, PartialEq)]
pub struct DelayMeasurement {
    /// Milliseconds from the step anchor to the detected AFR response edge.
    pub delay_ms: Num,
    /// AFR drop actually observed at detection relative to baseline.
    pub excursion: Num,
    /// Pre-step baseline the edge was measured against.
    pub baseline_afr: Num,
}

/// Why a step produced no measurement, so that a silent no-result can be told
/// from a broken run.
#[derive(Clone, Copy, Debug, PartialEq, Eq)]
pub enum DelayRejection {
    /// Fewer pre-step samples than needed to establish a baseline.
    InsufficientBaseline,
    /// Pre-step AFR was moving too much to anchor a baseline (operator not
    /// steady, or sensor noise beyond usable).
    UnstableBaseline,
    /// No sustained excursion past the threshold inside the window (step too
    /// small for the noise, sensor dead, or a simulator whose AFR ignores
    /// fuelling).
    NoResponse,
}

impl DelayRejection {
    /// Short operator-facing label.
    pub fn label(&self) -> (r: &'static str)
        ensures
            r@ == (match self {
                DelayRejection::InsufficientBaseline => "too few baseline samples"@,
                DelayRejection::UnstableBaseline => "baseline unstable — hold steadier"@,
                DelayRejection::NoResponse => "no AFR response detected"@,
            }),
    {
        match self {
            DelayRejection::InsufficientBaseline => "too few baseline samples",
            DelayRejection::UnstableBaseline => "baseline unstable — hold steadier",
            DelayRejection::NoResponse => "no AFR response detected",
        }
    }
}

/// Minimum samples required in the pre-step window.
pub const MIN_BASELINE_SAMPLES: usize = 4;

/// 0.35: baseline scatter (median absolute deviation) above which no edge can
/// be trusted, in AFR points.
pub const MAX_BASELINE_MAD: u64 = 0x3FD6_6666_6666_6666;

/// 3.0: the excursion must exceed the larger of so many scatters and
/// [`MIN_EXCURSION_AFR`].
pub const K_MAD: u64 = 0x4008_0000_0000_0000;

/// 0.15: the smallest excursion that counts, in AFR points.
pub const MIN_EXCURSION_AFR: u64 = 0x3FC3_3333_3333_3333;

/// An edge only counts when the crossing is sustained for this many samples,
/// so a single noise spike cannot fake a response.
pub const SUSTAIN_SAMPLES: usize = 2;

/// `s` with `x` placed behind every number that `x` is not below, counted
/// from the end.
pub open spec fn placed(s: Seq<Num>, x: Num) -> Seq<Num>
    decreases s.len(),
{
    if s.len() == 0 || !x.below(s.last()) {
        s.push(x)
    } else {
        placed(s.drop_last(), x).push(s.last())
    }
}

/// `s` in ascending order; numbers of equal rank keep their order.
pub open spec fn sorted(s: Seq<Num>) -> Seq<Num>
    decreases s.len(),
{
    if s.len() == 0 {
        s
    } else {
        placed(sorted(s.drop_last()), s.last())
    }
}

/// The middle of an ascending sequence; of an even number of entries, the
/// mean of the two in the middle.
pub open spec fn middle(fp: Fp, s: Seq<Num>) -> Num {
    let half = s.len() as int / 2;
    if s.len() % 2 == 1 {
        s[half]
    } else {
        fp.div(fp.add(s[half - 1], s[half]), Num { bits: TWO })
    }
}

/// How far each number lies from `center`.
pub open spec fn deviations(fp: Fp, s: Seq<Num>, center: Num) -> Seq<Num> {
    Seq::new(s.len(), |i: int| fp.gap(s[i], center))
}

/// The AFR readings of a trace.
pub open spec fn readings(trace: Seq<AfrSample>) -> Seq<Num> {
    Seq::new(trace.len(), |i: int| trace[i].afr)
}

/// The pre-step AFR: the median reading.
pub open spec fn baseline_of(fp: Fp, pre: Seq<AfrSample>) -> Num {
    middle(fp, sorted(readings(pre)))
}

/// The scatter of the pre-step AFR: the median of its deviations from the
/// baseline.
pub open spec fn scatter_of(fp: Fp, pre: Seq<AfrSample>) -> Num {
    let base = sorted(readings(pre));
    middle(fp, sorted(deviations(fp, base, middle(fp, base))))
}

/// The AFR that a response has to fall below.
pub open spec fn trigger_of(fp: Fp, pre: Seq<AfrSample>) -> Num {
    let threshold = fp.mul(Num { bits: K_MAD }, scatter_of(fp, pre)).larger(
        Num { bits: MIN_EXCURSION_AFR },
    );
    fp.sub(baseline_of(fp, pre), threshold)
}

/// From sample `i` on, the AFR stays below the trigger for as long as an edge
/// has to last.
pub open spec fn sustained(post: Seq<AfrSample>, trigger: Num, i: int) -> bool {
    &&& 0 <= i
    &&& i + SUSTAIN_SAMPLES <= post.len()
    &&& forall|k: int| i <= k < i + SUSTAIN_SAMPLES ==> (#[trigger] post[k]).afr.below(trigger)
}

/// Sample `i` starts the first sustained crossing.
pub open spec fn is_edge(post: Seq<AfrSample>, trigger: Num, i: int) -> bool {
    &&& sustained(post, trigger, i)
    &&& forall|j: int| 0 <= j < i ==> !#[trigger] sustained(post, trigger, j)
}

/// The instant at which the AFR passed the trigger: between the last sample
/// before the edge and the edge itself, by linear interpolation; the edge's
/// own time where no sample before it can be used.
pub open spec fn crossing(fp: Fp, post: Seq<AfrSample>, edge: int, trigger: Num) -> Num {
    let e = post[edge];
    let b = post[edge - 1];
    if edge > 0 && e.afr.below(b.afr) && b.t_ms < e.t_ms {
        let fraction = fp.div(fp.sub(b.afr, trigger), fp.sub(b.afr, e.afr)).confined(
            Num { bits: ZERO },
            Num { bits: ONE },
        );
        fp.add(fp.count(b.t_ms as int), fp.mul(fp.count(e.t_ms - b.t_ms), fraction))
    } else {
        fp.count(e.t_ms as int)
    }
}

/// The measurement that an edge gives.
pub open spec fn measurement(
    fp: Fp,
    anchor_ms: int,
    post: Seq<AfrSample>,
    edge: int,
    baseline: Num,
    trigger: Num,
) -> DelayMeasurement {
    DelayMeasurement {
        delay_ms: fp.sub(crossing(fp, post, edge, trigger), fp.count(anchor_ms)).larger(
            Num { bits: ZERO },
        ),
        excursion: fp.sub(baseline, post[edge].afr),
        baseline_afr: baseline,
    }
}

/// What one enrichment step yields.
pub open spec fn delay_of(
    fp: Fp,
    anchor_ms: int,
    pre: Seq<AfrSample>,
    post: Seq<AfrSample>,
) -> Result<DelayMeasurement, DelayRejection> {
    let trigger = trigger_of(fp, pre);
    if pre.len() < MIN_BASELINE_SAMPLES {
        Err(DelayRejection::InsufficientBaseline)
    } else if (Num { bits: MAX_BASELINE_MAD }).below(scatter_of(fp, pre)) {
        Err(DelayRejection::UnstableBaseline)
    } else if exists|i: int| is_edge(post, trigger, i) {
        let edge = choose|i: int| is_edge(post, trigger, i);
        Ok(measurement(fp, anchor_ms, post, edge, baseline_of(fp, pre), trigger))
    } else {
        Err(DelayRejection::NoResponse)
    }
}

proof fn lemma_placed_is_insert(s: Seq<Num>, x: Num, at: int)
    requires
        0 <= at <= s.len(),
        at > 0 ==> !x.below(s[at - 1]),
        forall|k: int| at <= k < s.len() ==> x.below(#[trigger] s[k]),
    ensures
        placed(s, x) == s.insert(at, x),
    decreases s.len(),
{
    if at == s.len() {
        assert(s.insert(at, x) =~= s.push(x));
    } else {
        lemma_placed_is_insert(s.drop_last(), x, at);
        assert(s.insert(at, x) =~= s.drop_last().insert(at, x).push(s.last()));
    }
}

/// Sort in ascending order; a NaN counts as equal to everything.
fn sort(values: &mut Vec<Num>)
    ensures
        final(values)@ == sorted(old(values)@),
{
    let mut out: Vec<Num> = Vec::new();
    let mut i: usize = 0;
    while i < values.len()
        invariant
            i <= values.len(),
            values@ == old(values)@,
            out@ == sorted(values@.take(i as int)),
        decreases values.len() - i,
    {
        let x = values[i];
        let mut at: usize = out.len();
        while at > 0 && x.lt(out[at - 1])
            invariant
                at <= out.len(),
                forall|k: int| at <= k < out.len() ==> x.below(#[trigger] out[k]),
            decreases at,
        {
            at -= 1;
        }
        proof {
            lemma_placed_is_insert(out@, x, at as int);
            assert(values@.take(i + 1).drop_last() =~= values@.take(i as int));
        }
        out.insert(at, x);
        i += 1;
    }
    assert(values@.take(i as int) =~= values@);
    *values = out;
}

/// The median; the values are left in ascending order.
pub fn median<C: Fn(Calc) -> Num, S: Fn(Num, Style) -> String>(
    machine: &Machine<C, S>,
    values: &mut Vec<Num>,
) -> (r: Num)
    requires
        machine.total(),
        old(values).len() > 0,
    ensures
        final(values)@ == sorted(old(values)@),
        forall|fp: Fp| #[trigger]
            machine.follows(fp) ==> r == middle(fp, sorted(old(values)@)),
{
    proof {
        law_sorted_keeps_the_numbers(values@);
    }
    sort(values);
    let n: usize = values.len();
    if n % 2 == 1 {
        values[n / 2]
    } else {
        machine.div(machine.add(values[n / 2 - 1], values[n / 2]), Num { bits: TWO })
    }
}

/// Median absolute deviation: a robust scatter estimate for a noisy trace.
pub fn mad<C: Fn(Calc) -> Num, S: Fn(Num, Style) -> String>(
    machine: &Machine<C, S>,
    values: &Vec<Num>,
    med: Num,
) -> (r: Num)
    requires
        machine.total(),
        values.len() > 0,
    ensures
        forall|fp: Fp| #[trigger]
            machine.follows(fp) ==> r == middle(fp, sorted(deviations(fp, values@, med))),
{
    let mut devs: Vec<Num> = Vec::new();
    let mut i: usize = 0;
    while i < values.len()
        invariant
            machine.total(),
            i <= values.len(),
            devs.len() == i,
            forall|fp: Fp| #[trigger]
                machine.follows(fp) ==> devs@ == deviations(fp, values@, med).take(i as int),
        decreases values.len() - i,
    {
        let d = machine.gap(values[i], med);
        devs.push(d);
        i += 1;
        assert forall|fp: Fp| #[trigger] machine.follows(fp) implies devs@ == deviations(
            fp,
            values@,
            med,
        ).take(i as int) by {
            assert(devs@ =~= deviations(fp, values@, med).take(i as int));
        }
    }
    assert forall|fp: Fp| #[trigger] machine.follows(fp) implies devs@ == deviations(
        fp,
        values@,
        med,
    ) by {
        assert(devs@ =~= deviations(fp, values@, med));
    }
    median(machine, &mut devs)
}

/// The measurement for an edge at `post[edge]`.
fn measure<C: Fn(Calc) -> Num, S: Fn(Num, Style) -> String>(
    machine: &Machine<C, S>,
    anchor_ms: u64,
    post: &[AfrSample],
    edge: usize,
    baseline: Num,
    trigger: Num,
) -> (r: DelayMeasurement)
    requires
        machine.total(),
        edge < post@.len(),
    ensures
        forall|fp: Fp| #[trigger]
            machine.follows(fp) ==> r == measurement(
                fp,
                anchor_ms as int,
                post@,
                edge as int,
                baseline,
                trigger,
            ),
        (Num { bits: ZERO }).at_most(r.delay_ms),
{
    let e = post[edge];
    // The crossing happened somewhere between the last sample above the
    // trigger and this first one below it, not exactly when the sample landed.
    let crossing_ms = if edge > 0 && e.afr.lt(post[edge - 1].afr) && post[edge - 1].t_ms < e.t_ms {
        let b = post[edge - 1];
        let span = machine.count(e.t_ms - b.t_ms);
        let fraction = machine.div(machine.sub(b.afr, trigger), machine.sub(b.afr, e.afr)).clamp(
            Num { bits: ZERO },
            Num { bits: ONE },
        );
        machine.add(machine.count(b.t_ms), machine.mul(span, fraction))
    } else {
        machine.count(e.t_ms)
    };
    DelayMeasurement {
        delay_ms: machine.sub(crossing_ms, machine.count(anchor_ms)).max(Num { bits: ZERO }),
        excursion: machine.sub(baseline, e.afr),
        baseline_afr: baseline,
    }
}

/// Extract the transport delay for one enrichment step.
///
/// `anchor_ms` is the instant the enriched value finished writing to the ECU.
/// `pre` are samples strictly before the anchor (baseline window); `post` are
/// samples at or after it, in time order. Enrichment drives AFR *down*, so the
/// edge is the first sustained crossing below `baseline - threshold`.
pub fn detect_delay<C: Fn(Calc) -> Num, S: Fn(Num, Style) -> String>(
    machine: &Machine<C, S>,
    anchor_ms: u64,
    pre: &[AfrSample],
    post: &[AfrSample],
) -> (r: Result<DelayMeasurement, DelayRejection>)
    requires
        machine.total(),
    ensures
        forall|fp: Fp| #[trigger]
            machine.follows(fp) ==> r == delay_of(fp, anchor_ms as int, pre@, post@),
        pre@.len() < MIN_BASELINE_SAMPLES <==> r == Err::<DelayMeasurement, DelayRejection>(
            DelayRejection::InsufficientBaseline,
        ),
        r matches Ok(m) ==> (Num { bits: ZERO }).at_most(m.delay_ms),
{
    if pre.len() < MIN_BASELINE_SAMPLES {
        return Err(DelayRejection::InsufficientBaseline);
    }
    let mut base_vals: Vec<Num> = Vec::new();
    let mut i: usize = 0;
    while i < pre.len()
        invariant
            i <= pre.len(),
            base_vals@ == readings(pre@).take(i as int),
        decreases pre.len() - i,
    {
        base_vals.push(pre[i].afr);
        i += 1;
        assert(base_vals@ =~= readings(pre@).take(i as int));
    }
    assert(base_vals@ =~= readings(pre@));
    proof {
        law_sorted_keeps_the_numbers(base_vals@);
    }
    let baseline = median(machine, &mut base_vals);
    let scatter = mad(machine, &base_vals, baseline);
    if (Num { bits: MAX_BASELINE_MAD }).lt(scatter) {
        return Err(DelayRejection::UnstableBaseline);
    }
    let threshold = machine.mul(Num { bits: K_MAD }, scatter).max(Num { bits: MIN_EXCURSION_AFR });
    let trigger = machine.sub(baseline, threshold);
    let mut run: usize = 0;
    let mut n: usize = 0;
    while n < post.len()
        invariant
            machine.total(),
            run <= n <= post@.len(),
            run < SUSTAIN_SAMPLES,
            forall|k: int| n - run <= k < n ==> (#[trigger] post@[k]).afr.below(trigger),
            run < n ==> !post@[n - run - 1].afr.below(trigger),
            forall|j: int| 0 <= j && j + SUSTAIN_SAMPLES <= n ==> !#[trigger] sustained(
                post@,
                trigger,
                j,
            ),
            pre@.len() >= MIN_BASELINE_SAMPLES,
            forall|fp: Fp| #[trigger]
                machine.follows(fp) ==> {
                    &&& baseline == baseline_of(fp, pre@)
                    &&& trigger == trigger_of(fp, pre@)
                    &&& !(Num { bits: MAX_BASELINE_MAD }).below(scatter_of(fp, pre@))
                },
        decreases post.len() - n,
    {
        if post[n].afr.lt(trigger) {
            run += 1;
            if run >= SUSTAIN_SAMPLES {
                let edge: usize = n + 1 - run;
                proof {
                    assert(sustained(post@, trigger, edge as int));
                    assert(is_edge(post@, trigger, edge as int));
                    lemma_edge_is_unique(post@, trigger, edge as int);
                }
                return Ok(measure(machine, anchor_ms, post, edge, baseline, trigger));
            }
        } else {
            run = 0;
        }
        proof {
            assert forall|j: int| 0 <= j && j + SUSTAIN_SAMPLES <= n + 1 implies !#[trigger] sustained(
                post@,
                trigger,
                j,
            ) by {
                if j + SUSTAIN_SAMPLES == n + 1 && sustained(post@, trigger, j) {
                    assert(post@[n as int].afr.below(trigger));
                    assert(post@[n - run].afr.below(trigger));
                }
            }
        }
        n += 1;
    }
    Err(DelayRejection::NoResponse)
}

/// There is one first sustained crossing at most.
proof fn lemma_edge_is_unique(post: Seq<AfrSample>, trigger: Num, edge: int)
    requires
        is_edge(post, trigger, edge),
    ensures
        (choose|i: int| is_edge(post, trigger, i)) == edge,
{
    let other = choose|i: int| is_edge(post, trigger, i);
    assert(is_edge(post, trigger, other));
    assert(sustained(post, trigger, other) && sustained(post, trigger, edge));
}

proof fn lemma_placed_keeps(s: Seq<Num>, x: Num)
    ensures
        placed(s, x).len() == s.len() + 1,
        placed(s, x).to_multiset() == s.to_multiset().insert(x),
    decreases s.len(),
{
    broadcast use vstd::seq_lib::group_to_multiset_ensures;

    if s.len() == 0 || !x.below(s.last()) {
    } else {
        lemma_placed_keeps(s.drop_last(), x);
        assert(s =~= s.drop_last().push(s.last()));
        assert(placed(s, x).to_multiset() =~= s.to_multiset().insert(x));
    }
}

/// Sorting neither drops a number nor invents one.
pub proof fn law_sorted_keeps_the_numbers(s: Seq<Num>)
    ensures
        sorted(s).len() == s.len(),
        sorted(s).to_multiset() == s.to_multiset(),
    decreases s.len(),
{
    broadcast use vstd::seq_lib::group_to_multiset_ensures;

    if s.len() > 0 {
        law_sorted_keeps_the_numbers(s.drop_last());
        lemma_placed_keeps(sorted(s.drop_last()), s.last());
        assert(s =~= s.drop_last().push(s.last()));
    }
}

proof fn lemma_placed_keeps_order(s: Seq<Num>, x: Num)
    requires
        !x.nan(),
        forall|i: int| 0 <= i < s.len() ==> !(#[trigger] s[i]).nan(),
        forall|i: int, j: int| 0 <= i <= j < s.len() ==> s[i].at_most(s[j]),
    ensures
        placed(s, x).len() == s.len() + 1,
        forall|i: int| 0 <= i < s.len() + 1 ==> !(#[trigger] placed(s, x)[i]).nan(),
        forall|i: int, j: int|
            0 <= i <= j < s.len() + 1 ==> placed(s, x)[i].at_most(placed(s, x)[j]),
        forall|i: int|
            0 <= i < s.len() + 1 ==> (#[trigger] placed(s, x)[i]).at_most(x)
                || s.len() > 0 && placed(s, x)[i].at_most(s.last()),
    decreases s.len(),
{
    if s.len() == 0 || !x.below(s.last()) {
        assert forall|i: int, j: int| 0 <= i <= j < s.len() + 1 implies placed(s, x)[i].at_most(
            placed(s, x)[j],
        ) by {
            if j == s.len() && i < s.len() {
                assert(s[i].at_most(s.last()));
            }
        }
    } else {
        let front = s.drop_last();
        lemma_placed_keeps_order(front, x);
        let out = placed(front, x);
        assert(placed(s, x) == out.push(s.last()));
        assert forall|i: int| 0 <= i < out.len() implies (#[trigger] out[i]).at_most(s.last()) by {
            if !out[i].at_most(x) {
                assert(front.last().at_most(s.last()));
            }
        }
    }
}

/// Sorted numbers ascend, where none of them is a NaN.
pub proof fn law_sorted_ascends(s: Seq<Num>)
    requires
        forall|i: int| 0 <= i < s.len() ==> !(#[trigger] s[i]).nan(),
    ensures
        sorted(s).len() == s.len(),
        forall|i: int| 0 <= i < s.len() ==> !(#[trigger] sorted(s)[i]).nan(),
        forall|i: int, j: int| 0 <= i <= j < s.len() ==> sorted(s)[i].at_most(sorted(s)[j]),
    decreases s.len(),
{
    if s.len() > 0 {
        law_sorted_ascends(s.drop_last());
        lemma_placed_keeps_order(sorted(s.drop_last()), s.last());
    }
}

/// Orders numbers by rank, and numbers of one rank by their bits.
spec fn no_later(a: Num, b: Num) -> bool {
    a.rank() < b.rank() || a.rank() == b.rank() && a.bits <= b.bits
}

/// Where 0.0 and -0.0 are not both among the numbers, and no NaN is, the order
/// in which numbers are given does not show once they are sorted.
pub proof fn law_sorting_forgets_the_order(s: Seq<Num>, t: Seq<Num>)
    requires
        s.to_multiset() == t.to_multiset(),
        forall|i: int| 0 <= i < s.len() ==> !(#[trigger] s[i]).nan(),
        forall|i: int, j: int|
            0 <= i < s.len() && 0 <= j < s.len() && s[i].rank() == 0 && s[j].rank() == 0 ==> s[i]
                == s[j],
    ensures
        sorted(s) == sorted(t),
{
    broadcast use vstd::seq_lib::group_to_multiset_ensures;

    let leq = |a: Num, b: Num| no_later(a, b);
    assert(vstd::relations::total_ordering(leq));
    assert forall|i: int| 0 <= i < t.len() implies !(#[trigger] t[i]).nan() by {
        assert(t.to_multiset().count(t[i]) > 0);
        assert(s.contains(t[i]));
    }
    lemma_sorted_by_rank(s, s, leq);
    lemma_sorted_by_rank(s, t, leq);
    law_sorted_keeps_the_numbers(s);
    law_sorted_keeps_the_numbers(t);
    vstd::seq_lib::lemma_sorted_unique(sorted(s), sorted(t), leq);
}

proof fn lemma_sorted_by_rank(s: Seq<Num>, t: Seq<Num>, leq: spec_fn(Num, Num) -> bool)
    requires
        s.to_multiset() == t.to_multiset(),
        forall|i: int| 0 <= i < t.len() ==> !(#[trigger] t[i]).nan(),
        forall|i: int, j: int|
            0 <= i < s.len() && 0 <= j < s.len() && s[i].rank() == 0 && s[j].rank() == 0 ==> s[i]
                == s[j],
        leq == (|a: Num, b: Num| no_later(a, b)),
    ensures
        vstd::relations::sorted_by(sorted(t), leq),
{
    broadcast use vstd::seq_lib::group_to_multiset_ensures;

    law_sorted_ascends(t);
    law_sorted_keeps_the_numbers(t);
    let out = sorted(t);
    assert forall|i: int, j: int| 0 <= i < j < out.len() implies #[trigger] leq(out[i], out[j]) by {
        assert(out[i].at_most(out[j]));
        assert(out.to_multiset().count(out[i]) > 0 && out.to_multiset().count(out[j]) > 0);
        assert(s.contains(out[i]) && s.contains(out[j]));
    }
}

/// The baseline window is long enough and still enough to measure against.
pub open spec fn baseline_holds(fp: Fp, pre: Seq<AfrSample>) -> bool {
    &&& pre.len() >= MIN_BASELINE_SAMPLES
    &&& !(Num { bits: MAX_BASELINE_MAD }).below(scatter_of(fp, pre))
}

/// A measured delay is never negative, and never a NaN.
pub proof fn law_delay_is_never_negative(
    fp: Fp,
    anchor_ms: int,
    pre: Seq<AfrSample>,
    post: Seq<AfrSample>,
)
    ensures
        delay_of(fp, anchor_ms, pre, post) matches Ok(m) ==> (Num { bits: ZERO }).at_most(
            m.delay_ms,
        ),
{
}

/// Of the places where a sustained crossing starts, one is the first.
proof fn lemma_first_sustained(post: Seq<AfrSample>, trigger: Num, i: int)
    requires
        sustained(post, trigger, i),
    ensures
        exists|e: int| e <= i && is_edge(post, trigger, e),
    decreases i,
{
    if exists|j: int| 0 <= j < i && sustained(post, trigger, j) {
        let j = choose|j: int| 0 <= j < i && sustained(post, trigger, j);
        lemma_first_sustained(post, trigger, j);
        let e = choose|e: int| e <= j && is_edge(post, trigger, e);
        assert(e <= i && is_edge(post, trigger, e));
    } else {
        assert(i <= i && is_edge(post, trigger, i));
    }
}

/// Against a sound baseline, a trace is measured exactly when it holds a
/// sustained crossing.
pub proof fn law_measured_iff_sustained(
    fp: Fp,
    anchor_ms: int,
    pre: Seq<AfrSample>,
    post: Seq<AfrSample>,
)
    requires
        baseline_holds(fp, pre),
    ensures
        delay_of(fp, anchor_ms, pre, post) is Ok <==> exists|i: int|
            sustained(post, trigger_of(fp, pre), i),
{
    let trigger = trigger_of(fp, pre);
    if exists|i: int| sustained(post, trigger, i) {
        lemma_first_sustained(post, trigger, choose|i: int| sustained(post, trigger, i));
    }
    if exists|i: int| is_edge(post, trigger, i) {
        let e = choose|i: int| is_edge(post, trigger, i);
        assert(sustained(post, trigger, e));
    }
}

/// Lone spikes, however many and however deep, are not a response.
pub proof fn law_lone_spikes_are_no_response(
    fp: Fp,
    anchor_ms: int,
    pre: Seq<AfrSample>,
    post: Seq<AfrSample>,
)
    requires
        baseline_holds(fp, pre),
        forall|i: int|
            0 <= i < post.len() - 1 && (#[trigger] post[i]).afr.below(trigger_of(fp, pre))
                ==> !post[i + 1].afr.below(trigger_of(fp, pre)),
    ensures
        delay_of(fp, anchor_ms, pre, post) == Err::<DelayMeasurement, DelayRejection>(
            DelayRejection::NoResponse,
        ),
{
    let trigger = trigger_of(fp, pre);
    if exists|i: int| is_edge(post, trigger, i) {
        let e = choose|i: int| is_edge(post, trigger, i);
        assert(sustained(post, trigger, e));
        assert(post[e].afr.below(trigger) && post[e + 1].afr.below(trigger));
    }
}

/// What is measured stands, whatever samples follow.
pub proof fn law_later_samples_change_nothing(
    fp: Fp,
    anchor_ms: int,
    pre: Seq<AfrSample>,
    post: Seq<AfrSample>,
    more: Seq<AfrSample>,
)
    requires
        delay_of(fp, anchor_ms, pre, post) is Ok,
    ensures
        delay_of(fp, anchor_ms, pre, post + more) == delay_of(fp, anchor_ms, pre, post),
{
    let trigger = trigger_of(fp, pre);
    let e = choose|i: int| is_edge(post, trigger, i);
    let longer = post + more;
    assert(is_edge(post, trigger, e));
    assert forall|j: int| 0 <= j <= e implies #[trigger] sustained(longer, trigger, j)
        == sustained(post, trigger, j) by {
        if sustained(longer, trigger, j) {
            assert forall|k: int| j <= k < j + SUSTAIN_SAMPLES implies (
            #[trigger] post[k]).afr.below(trigger) by {
                assert(longer[k] == post[k]);
            }
        }
    }
    assert(is_edge(longer, trigger, e));
    lemma_edge_is_unique(longer, trigger, e);
}

/// The order of the baseline readings, and the times they were taken at, do
/// not matter: the same readings give the same result.
pub proof fn law_the_order_of_the_baseline_does_not_matter(
    fp: Fp,
    anchor_ms: int,
    pre: Seq<AfrSample>,
    other: Seq<AfrSample>,
    post: Seq<AfrSample>,
)
    requires
        readings(pre).to_multiset() == readings(other).to_multiset(),
        forall|i: int| 0 <= i < pre.len() ==> !(#[trigger] pre[i]).afr.nan(),
        forall|i: int, j: int|
            0 <= i < pre.len() && 0 <= j < pre.len() && pre[i].afr.rank() == 0
                && pre[j].afr.rank() == 0 ==> pre[i].afr == pre[j].afr,
    ensures
        delay_of(fp, anchor_ms, pre, post) == delay_of(fp, anchor_ms, other, post),
{
    law_sorting_forgets_the_order(readings(pre), readings(other));
    law_sorted_keeps_the_numbers(readings(pre));
    law_sorted_keeps_the_numbers(readings(other));
    assert(scatter_of(fp, pre) == scatter_of(fp, other));
    assert(trigger_of(fp, pre) == trigger_of(fp, other));
}

/// Two sequences of numbers that are alike, place by place.
spec fn all_alike(s: Seq<Num>, t: Seq<Num>) -> bool {
    s.len() == t.len() && forall|i: int| 0 <= i < s.len() ==> (#[trigger] s[i]).alike(t[i])
}

proof fn lemma_placed_alike(s: Seq<Num>, t: Seq<Num>, x: Num, y: Num)
    requires
        all_alike(s, t),
        x.alike(y),
    ensures
        all_alike(placed(s, x), placed(t, y)),
    decreases s.len(),
{
    if s.len() > 0 {
        assert(s[s.len() - 1].alike(t[s.len() - 1]));
        if x.below(s.last()) {
            assert forall|i: int| 0 <= i < s.len() - 1 implies (#[trigger] s.drop_last()[i]).alike(
                t.drop_last()[i],
            ) by {
                assert(s[i].alike(t[i]));
            }
            lemma_placed_alike(s.drop_last(), t.drop_last(), x, y);
        }
    }
}

proof fn lemma_sorted_alike(s: Seq<Num>, t: Seq<Num>)
    requires
        all_alike(s, t),
    ensures
        all_alike(sorted(s), sorted(t)),
    decreases s.len(),
{
    if s.len() > 0 {
        assert forall|i: int| 0 <= i < s.len() - 1 implies (#[trigger] s.drop_last()[i]).alike(
            t.drop_last()[i],
        ) by {
            assert(s[i].alike(t[i]));
        }
        lemma_sorted_alike(s.drop_last(), t.drop_last());
        assert(s[s.len() - 1].alike(t[s.len() - 1]));
        lemma_placed_alike(sorted(s.drop_last()), sorted(t.drop_last()), s.last(), t.last());
    }
}

/// Of the same numbers in ascending order, each is alike to the one in the
/// same place.
proof fn lemma_ascending_alike(s: Seq<Num>, t: Seq<Num>)
    requires
        s.to_multiset() == t.to_multiset(),
        forall|i: int, j: int| 0 <= i <= j < s.len() ==> s[i].at_most(s[j]),
        forall|i: int, j: int| 0 <= i <= j < t.len() ==> t[i].at_most(t[j]),
    ensures
        all_alike(s, t),
    decreases s.len(),
{
    broadcast use vstd::seq_lib::group_to_multiset_ensures;

    assert(s.to_multiset().len() == s.len() && t.to_multiset().len() == t.len());
    if s.len() > 0 {
        let n = s.len() - 1;
        let (x, y) = (s[n], t[n]);
        assert(s.contains(x) && t.contains(y));
        assert(s.to_multiset().count(x) > 0 && t.to_multiset().count(y) > 0);
        assert(t.contains(x) && s.contains(y));
        let k = choose|k: int| 0 <= k < t.len() && t[k] == x;
        let j = choose|j: int| 0 <= j < s.len() && s[j] == y;
        assert(t[k].at_most(t[n]) && s[j].at_most(s[n]));
        let (front, rest) = (s.drop_last(), t.remove(k));
        assert(s.remove(n) =~= front);
        assert(front.to_multiset() =~= s.to_multiset().remove(x));
        assert(rest.to_multiset() =~= t.to_multiset().remove(x));
        lemma_ascending_alike(front, rest);
        assert forall|i: int| 0 <= i < s.len() implies (#[trigger] s[i]).alike(t[i]) by {
            if i < n {
                assert(front[i].alike(rest[i]));
                if i >= k {
                    assert(t[k].at_most(t[i]) && t[i].at_most(t[i + 1]) && t[i + 1].at_most(t[n]));
                }
            }
        }
    }
}

proof fn lemma_middle_alike(fp: Fp, s: Seq<Num>, t: Seq<Num>)
    requires
        fp.fair(),
        all_alike(s, t),
        s.len() > 0,
    ensures
        middle(fp, s).alike(middle(fp, t)),
{
    let half = s.len() as int / 2;
    assert(s[half].alike(t[half]));
    if s.len() % 2 == 0 {
        assert(s[half - 1].alike(t[half - 1]));
        assert(fp.add(s[half - 1], s[half]).alike(fp.add(t[half - 1], t[half])));
    }
}

/// Two outcomes of a step are alike: the same rejection, or measurements whose
/// numbers are equal.
pub open spec fn outcomes_alike(
    a: Result<DelayMeasurement, DelayRejection>,
    b: Result<DelayMeasurement, DelayRejection>,
) -> bool {
    match (a, b) {
        (Ok(m), Ok(n)) => {
            &&& m.delay_ms.alike(n.delay_ms)
            &&& m.excursion.alike(n.excursion)
            &&& m.baseline_afr.alike(n.baseline_afr)
        },
        (Err(e), Err(f)) => e == f,
        _ => false,
    }
}

/// The order of the baseline readings, and the times they were taken at, do
/// not matter, not even where 0.0 and -0.0 are both among them: the same
/// readings give equal results.
pub proof fn law_the_order_of_the_baseline_gives_equal_results(
    fp: Fp,
    anchor_ms: int,
    pre: Seq<AfrSample>,
    other: Seq<AfrSample>,
    post: Seq<AfrSample>,
)
    requires
        fp.fair(),
        readings(pre).to_multiset() == readings(other).to_multiset(),
        forall|i: int| 0 <= i < pre.len() ==> !(#[trigger] pre[i]).afr.nan(),
    ensures
        outcomes_alike(
            delay_of(fp, anchor_ms, pre, post),
            delay_of(fp, anchor_ms, other, post),
        ),
{
    broadcast use vstd::seq_lib::group_to_multiset_ensures;

    let (s, t) = (readings(pre), readings(other));
    assert(s.to_multiset().len() == s.len() && t.to_multiset().len() == t.len());
    assert forall|i: int| 0 <= i < t.len() implies !(#[trigger] t[i]).nan() by {
        assert(t.to_multiset().count(t[i]) > 0);
        assert(s.contains(t[i]));
    }
    law_sorted_ascends(s);
    law_sorted_ascends(t);
    law_sorted_keeps_the_numbers(s);
    law_sorted_keeps_the_numbers(t);
    lemma_ascending_alike(sorted(s), sorted(t));
    if pre.len() >= MIN_BASELINE_SAMPLES {
        lemma_middle_alike(fp, sorted(s), sorted(t));
        let (c, d) = (baseline_of(fp, pre), baseline_of(fp, other));
        let (devs, others) = (deviations(fp, sorted(s), c), deviations(fp, sorted(t), d));
        assert forall|i: int| 0 <= i < devs.len() implies (#[trigger] devs[i]).alike(others[i]) by {
            assert(sorted(s)[i].alike(sorted(t)[i]));
            assert(fp.sub(sorted(s)[i], c).alike(fp.sub(sorted(t)[i], d)));
        }
        lemma_sorted_alike(devs, others);
        law_sorted_keeps_the_numbers(devs);
        lemma_middle_alike(fp, sorted(devs), sorted(others));
        let (a, b) = (scatter_of(fp, pre), scatter_of(fp, other));
        let k = Num { bits: K_MAD };
        assert(a.alike(b) && k.alike(k));
        assert(fp.mul(k, a).alike(fp.mul(k, b)));
        lemma_outcomes_alike(fp, anchor_ms, pre, other, post);
    }
}

proof fn lemma_outcomes_alike(
    fp: Fp,
    anchor_ms: int,
    pre: Seq<AfrSample>,
    other: Seq<AfrSample>,
    post: Seq<AfrSample>,
)
    requires
        fp.fair(),
        pre.len() == other.len() >= MIN_BASELINE_SAMPLES,
        baseline_of(fp, pre).alike(baseline_of(fp, other)),
        scatter_of(fp, pre).alike(scatter_of(fp, other)),
        fp.mul(Num { bits: K_MAD }, scatter_of(fp, pre)).alike(
            fp.mul(Num { bits: K_MAD }, scatter_of(fp, other)),
        ),
    ensures
        outcomes_alike(
            delay_of(fp, anchor_ms, pre, post),
            delay_of(fp, anchor_ms, other, post),
        ),
{
    let (c, d) = (baseline_of(fp, pre), baseline_of(fp, other));
    let (x, y) = (trigger_of(fp, pre), trigger_of(fp, other));
    assert(x.alike(y));
    assert forall|i: int| sustained(post, x, i) == #[trigger] sustained(post, y, i) by {}
    assert forall|i: int| is_edge(post, x, i) == #[trigger] is_edge(post, y, i) by {
        if is_edge(post, x, i) {
            assert(sustained(post, y, i));
        }
        if is_edge(post, y, i) {
            assert(sustained(post, x, i) == sustained(post, y, i));
            assert forall|j: int| 0 <= j < i implies !#[trigger] sustained(post, x, j) by {
                assert(sustained(post, x, j) == sustained(post, y, j));
            }
        }
    }
    if exists|i: int| is_edge(post, x, i) {
        let e = choose|i: int| is_edge(post, x, i);
        assert(is_edge(post, y, e));
        lemma_edge_is_unique(post, y, e);
        lemma_crossings_alike(fp, post, e, x, y);
        let anchor = fp.count(anchor_ms);
        assert(anchor.alike(anchor) && post[e].afr.alike(post[e].afr));
        assert(fp.sub(crossing(fp, post, e, x), anchor).alike(
            fp.sub(crossing(fp, post, e, y), anchor),
        ));
        assert(fp.sub(c, post[e].afr).alike(fp.sub(d, post[e].afr)));
    } else {
        assert(!exists|i: int| is_edge(post, y, i)) by {
            if exists|i: int| is_edge(post, y, i) {
                let e = choose|i: int| is_edge(post, y, i);
                assert(is_edge(post, x, e) == is_edge(post, y, e));
            }
        }
    }
}

proof fn lemma_crossings_alike(fp: Fp, post: Seq<AfrSample>, edge: int, x: Num, y: Num)
    requires
        fp.fair(),
        x.alike(y),
    ensures
        crossing(fp, post, edge, x).alike(crossing(fp, post, edge, y)),
{
    let (e, b) = (post[edge], post[edge - 1]);
    let run = fp.sub(b.afr, e.afr);
    assert(b.afr.alike(b.afr));
    let (p, q) = (fp.sub(b.afr, x), fp.sub(b.afr, y));
    assert(p.alike(q));
    assert(fp.div(p, run).alike(fp.div(q, run)));
    let (zero, one) = (Num { bits: ZERO }, Num { bits: ONE });
    let (f, g) = (fp.div(p, run).confined(zero, one), fp.div(q, run).confined(zero, one));
    assert(f.alike(g));
    let (start, span) = (fp.count(b.t_ms as int), fp.count(e.t_ms - b.t_ms));
    assert(start.alike(start) && span.alike(span));
    assert(fp.mul(span, f).alike(fp.mul(span, g)));
    assert(fp.add(start, fp.mul(span, f)).alike(fp.add(start, fp.mul(span, g))));
}

/// Where the first sample after the anchor is already past the trigger and
/// stays there, its own time is reported: there is nothing to interpolate
/// from.
pub proof fn law_crossing_on_the_first_sample(
    fp: Fp,
    anchor_ms: int,
    pre: Seq<AfrSample>,
    post: Seq<AfrSample>,
)
    requires
        baseline_holds(fp, pre),
        sustained(post, trigger_of(fp, pre), 0),
    ensures
        delay_of(fp, anchor_ms, pre, post) matches Ok(m) && m.delay_ms == fp.sub(
            fp.count(post[0].t_ms as int),
            fp.count(anchor_ms),
        ).larger(Num { bits: ZERO }),
{
    assert(is_edge(post, trigger_of(fp, pre), 0));
    lemma_edge_is_unique(post, trigger_of(fp, pre), 0);
}

/// A sample that crosses at the anchor itself gives a delay of zero.
pub proof fn law_crossing_at_the_anchor_is_no_delay(
    fp: Fp,
    anchor_ms: int,
    pre: Seq<AfrSample>,
    post: Seq<AfrSample>,
)
    requires
        fp.exact(),
        0 <= anchor_ms <= MOST_COUNT,
        baseline_holds(fp, pre),
        sustained(post, trigger_of(fp, pre), 0),
        post[0].t_ms == anchor_ms,
    ensures
        delay_of(fp, anchor_ms, pre, post) matches Ok(m) && m.delay_ms.rank() == 0
            && !m.delay_ms.nan(),
{
    law_crossing_on_the_first_sample(fp, anchor_ms, pre, post);
    lemma_neutral(fp, fp.count(anchor_ms));
}

/// An interpolated crossing lies between the sample before the edge and the
/// edge.
pub proof fn law_crossing_lies_between_the_samples(
    fp: Fp,
    post: Seq<AfrSample>,
    edge: int,
    trigger: Num,
)
    requires
        fp.orderly(),
        fp.exact(),
        0 < edge < post.len(),
        post[edge].afr.below(post[edge - 1].afr),
        post[edge - 1].t_ms < post[edge].t_ms <= MOST_COUNT,
        !fp.div(
            fp.sub(post[edge - 1].afr, trigger),
            fp.sub(post[edge - 1].afr, post[edge].afr),
        ).nan(),
    ensures
        fp.count(post[edge - 1].t_ms as int).at_most(crossing(fp, post, edge, trigger)),
        crossing(fp, post, edge, trigger).at_most(fp.count(post[edge].t_ms as int)),
{
    let (b, e) = (post[edge - 1], post[edge]);
    let (zero, one) = (Num { bits: ZERO }, Num { bits: ONE });
    let quotient = fp.div(fp.sub(b.afr, trigger), fp.sub(b.afr, e.afr));
    let fraction = quotient.confined(zero, one);
    crate::num::law_confined_lies_within(quotient, zero, one);
    let start = fp.count(b.t_ms as int);
    let span = fp.count(e.t_ms - b.t_ms);
    let end = fp.count(e.t_ms as int);
    let part = fp.mul(span, fraction);
    lemma_zero_and_one();
    lemma_neutral(fp, span);
    lemma_neutral(fp, start);
    assert(b.t_ms * unit() + (e.t_ms - b.t_ms) * unit() == e.t_ms * unit()) by (nonlinear_arith);
    assert(is_sum(start, span, end));
    lemma_products_rise(fp, span, zero, fraction);
    lemma_products_rise(fp, span, fraction, one);
    lemma_sums_rise(fp, start, zero, part);
    lemma_sums_rise(fp, start, part, span);
}

/// `s` holds the numbers in ascending order.
pub open spec fn orders(s: Seq<Num>, numbers: Seq<Num>) -> bool {
    &&& s.to_multiset() == numbers.to_multiset()
    &&& forall|i: int, j: int| 0 <= i <= j < s.len() ==> s[i].at_most(s[j])
}

/// `m` is the median of some numbers: put in ascending order, the one in the
/// middle, or half the sum of the two in the middle.
pub open spec fn is_median(fp: Fp, numbers: Seq<Num>, m: Num) -> bool {
    let half = numbers.len() as int / 2;
    exists|s: Seq<Num>| #[trigger]
        orders(s, numbers) && m == (if numbers.len() % 2 == 1 {
            s[half]
        } else {
            fp.div(fp.add(s[half - 1], s[half]), Num { bits: 0x4000_0000_0000_0000 })
        })
}

/// How far each number lies from `center`, whichever way.
pub open spec fn distances(fp: Fp, numbers: Seq<Num>, center: Num) -> Seq<Num> {
    numbers.map_values(|n: Num| fp.sub(n, center).unsigned())
}

/// What is taken for the median is the median.
pub proof fn law_the_middle_is_the_median(fp: Fp, numbers: Seq<Num>)
    requires
        numbers.len() > 0,
        forall|i: int| 0 <= i < numbers.len() ==> !(#[trigger] numbers[i]).nan(),
    ensures
        is_median(fp, numbers, middle(fp, sorted(numbers))),
{
    law_sorted_ascends(numbers);
    law_sorted_keeps_the_numbers(numbers);
    assert(orders(sorted(numbers), numbers));
}

proof fn lemma_map_multiset(s: Seq<Num>, t: Seq<Num>, f: spec_fn(Num) -> Num)
    requires
        s.to_multiset() == t.to_multiset(),
    ensures
        s.map_values(f).to_multiset() == t.map_values(f).to_multiset(),
        s.len() == t.len(),
    decreases s.len(),
{
    broadcast use vstd::seq_lib::group_to_multiset_ensures;

    assert(s.to_multiset().len() == s.len() && t.to_multiset().len() == t.len());
    if s.len() > 0 {
        let n = s.len() - 1;
        let x = s[n];
        assert(s.contains(x));
        assert(t.to_multiset().count(x) > 0);
        assert(t.contains(x));
        let k = choose|k: int| 0 <= k < t.len() && t[k] == x;
        let (front, rest) = (s.remove(n), t.remove(k));
        lemma_map_multiset(front, rest, f);
        let (p, q) = (front.map_values(f), rest.map_values(f));
        assert(s.map_values(f) =~= p.insert(n, f(x)));
        assert(t.map_values(f) =~= q.insert(k, f(x)));
        assert(p.insert(n, f(x)).to_multiset() =~= p.to_multiset().insert(f(x)));
        assert(q.insert(k, f(x)).to_multiset() =~= q.to_multiset().insert(f(x)));
    } else {
        assert(s =~= t);
    }
}

/// What is taken for the scatter of readings about a center is the median of
/// their distances from it.
pub proof fn law_the_scatter_is_the_median_distance(fp: Fp, numbers: Seq<Num>, center: Num)
    requires
        numbers.len() > 0,
        forall|i: int|
            0 <= i < numbers.len() ==> !fp.sub(#[trigger] numbers[i], center).nan(),
    ensures
        is_median(
            fp,
            distances(fp, numbers, center),
            middle(fp, sorted(deviations(fp, sorted(numbers), center))),
        ),
        is_median(
            fp,
            distances(fp, numbers, center),
            middle(fp, sorted(deviations(fp, numbers, center))),
        ),
{
    let base = sorted(numbers);
    law_sorted_keeps_the_numbers(numbers);
    let f = |n: Num| fp.sub(n, center).unsigned();
    lemma_map_multiset(base, numbers, f);
    assert(deviations(fp, base, center) =~= base.map_values(f));
    assert(deviations(fp, numbers, center) =~= numbers.map_values(f));
    lemma_no_nan_among(base, numbers, fp, center);
    lemma_median_of_multiset(fp, base.map_values(f), distances(fp, numbers, center));
    lemma_median_of_multiset(fp, numbers.map_values(f), distances(fp, numbers, center));
}

proof fn lemma_no_nan_among(base: Seq<Num>, numbers: Seq<Num>, fp: Fp, center: Num)
    requires
        base.to_multiset() == numbers.to_multiset(),
        forall|i: int|
            0 <= i < numbers.len() ==> !fp.sub(#[trigger] numbers[i], center).nan(),
    ensures
        forall|i: int| 0 <= i < base.len() ==> !fp.sub(#[trigger] base[i], center).nan(),
{
    broadcast use vstd::seq_lib::group_to_multiset_ensures;

    assert forall|i: int| 0 <= i < base.len() implies !fp.sub(#[trigger] base[i], center).nan() by {
        assert(base.contains(base[i]));
        assert(numbers.to_multiset().count(base[i]) > 0);
        assert(numbers.contains(base[i]));
    }
}

proof fn lemma_median_of_multiset(fp: Fp, s: Seq<Num>, numbers: Seq<Num>)
    requires
        s.len() > 0,
        s.to_multiset() == numbers.to_multiset(),
        forall|i: int| 0 <= i < s.len() ==> !(#[trigger] s[i]).nan(),
    ensures
        is_median(fp, numbers, middle(fp, sorted(s))),
{
    broadcast use vstd::seq_lib::group_to_multiset_ensures;

    assert(s.to_multiset().len() == s.len() && numbers.to_multiset().len() == numbers.len());
    law_sorted_ascends(s);
    law_sorted_keeps_the_numbers(s);
    assert(orders(sorted(s), numbers));
}

/// The number is finite, and no larger than 2^(1000 + j) either way.
pub open spec fn within(n: Num, j: int) -> bool {
    -(0x7E70_0000_0000_0000 + j * 0x10_0000_0000_0000) <= n.rank() <= 0x7E70_0000_0000_0000 + j
        * 0x10_0000_0000_0000
}

/// 2^(1000 + j).
spec fn bound(j: int) -> Num {
    Num { bits: (0x7E70_0000_0000_0000 + j * 0x10_0000_0000_0000) as u64 }
}

/// -2^(1000 + j).
spec fn negative_bound(j: int) -> Num {
    Num { bits: (0xFE70_0000_0000_0000 + j * 0x10_0000_0000_0000) as u64 }
}

proof fn lemma_bounds(j: int)
    requires
        0 <= j <= 6,
    ensures
        bound(j).finite(),
        negative_bound(j).finite(),
        bound(j).rank() == 0x7E70_0000_0000_0000 + j * 0x10_0000_0000_0000,
        negative_bound(j).rank() == -bound(j).rank(),
        bound(j).value() == 0x10_0000_0000_0000 * pow2((2022 + j) as nat),
        negative_bound(j).value() == -bound(j).value(),
        bound(j + 1).value() == 2 * bound(j).value(),
        bound(j + 1).finite(),
        negative_bound(j + 1).value() == -bound(j + 1).value(),
        negative_bound(j + 1).finite(),
{
    lemma_bound(j);
    lemma_bound(j + 1);
    lemma_pow2_unfold((2023 + j) as nat);
}

proof fn lemma_bound(j: int)
    requires
        0 <= j <= 7,
    ensures
        bound(j).finite(),
        negative_bound(j).finite(),
        bound(j).rank() == 0x7E70_0000_0000_0000 + j * 0x10_0000_0000_0000,
        negative_bound(j).rank() == -bound(j).rank(),
        bound(j).value() == 0x10_0000_0000_0000 * pow2((2022 + j) as nat),
        negative_bound(j).value() == -bound(j).value(),
{
    let m = bound(j).magnitude();
    assert(m == 0x7E70_0000_0000_0000 + j * 0x10_0000_0000_0000);
    assert(m / 0x10_0000_0000_0000 == 2023 + j && m % 0x10_0000_0000_0000 == 0);
    assert(negative_bound(j).magnitude() == m);
}

/// Sums and differences of numbers within a bound lie within twice the bound.
proof fn lemma_sum_within(fp: Fp, a: Num, b: Num, j: int)
    requires
        fp.orderly(),
        fp.exact(),
        0 <= j <= 6,
        within(a, j),
        within(b, j),
    ensures
        within(fp.add(a, b), j + 1),
        !fp.add(a, b).nan(),
        within(fp.sub(a, b), j + 1),
        !fp.sub(a, b).nan(),
{
    let (top, low) = (bound(j), negative_bound(j));
    lemma_bounds(j);
    lemma_bound(j + 1);
    lemma_sums_rise(fp, b, a, top);
    lemma_sums_rise(fp, top, b, top);
    lemma_sums_rise(fp, b, low, a);
    lemma_sums_rise(fp, low, low, b);
    assert(is_sum(top, top, bound(j + 1)));
    assert(is_sum(low, low, negative_bound(j + 1)));
    lemma_differences_rise(fp, b, a, top);
    lemma_differences_rise(fp, top, low, b);
    lemma_differences_rise(fp, b, low, a);
    lemma_differences_rise(fp, low, b, top);
    assert(is_sum(bound(j + 1), low, top));
    assert(is_sum(negative_bound(j + 1), top, low));
}

/// Half a number that lies within twice a bound lies within the bound.
proof fn lemma_half_within(fp: Fp, a: Num, j: int)
    requires
        fp.orderly(),
        fp.exact(),
        0 <= j <= 6,
        within(a, j + 1),
    ensures
        within(fp.div(a, Num { bits: TWO }), j),
        !fp.div(a, Num { bits: TWO }).nan(),
{
    let two = Num { bits: TWO };
    lemma_bounds(j);
    lemma_bound(j + 1);
    lemma_small_integers();
    let (top, low, u) = (bound(j), negative_bound(j), unit());
    let (v, w) = (top.value(), bound(j + 1).value());
    assert(v * (2 * u) == w * u && -v * (2 * u) == -w * u) by (nonlinear_arith)
        requires
            w == 2 * v,
    ;
    assert(is_product(top, two, bound(j + 1)));
    assert(is_product(low, two, negative_bound(j + 1)));
    lemma_quotients_rise(fp, two, a, bound(j + 1));
    lemma_quotients_rise(fp, two, negative_bound(j + 1), a);
}

/// The exact values of 2.0 and 4.0.
proof fn lemma_small_integers()
    ensures
        (Num { bits: TWO }).value() == 2 * unit(),
        (Num { bits: 0x4010_0000_0000_0000 }).value() == 4 * unit(),
        unit() > 0,
{
    lemma_zero_and_one();
    vstd::arithmetic::power2::lemma2_to64();
    vstd::arithmetic::power2::lemma2_to64_rest();
    lemma_pow2_adds(52, 1023);
    lemma_pow2_adds(52, 1024);
    lemma_pow2_adds(1, 1074);
    lemma_pow2_adds(2, 1074);
}

/// A median of numbers within a bound lies within the bound.
proof fn lemma_median_within(fp: Fp, s: Seq<Num>, j: int)
    requires
        fp.orderly(),
        fp.exact(),
        0 <= j <= 5,
        s.len() > 0,
        forall|i: int| 0 <= i < s.len() ==> within(#[trigger] s[i], j),
    ensures
        within(middle(fp, s), j),
        !middle(fp, s).nan(),
{
    let half = s.len() as int / 2;
    assert(within(s[half], j));
    if s.len() % 2 == 0 {
        assert(within(s[half - 1], j));
        lemma_sum_within(fp, s[half - 1], s[half], j);
        lemma_half_within(fp, fp.add(s[half - 1], s[half]), j);
    }
}

proof fn lemma_sorted_within(s: Seq<Num>, j: int)
    requires
        forall|i: int| 0 <= i < s.len() ==> within(#[trigger] s[i], j),
    ensures
        sorted(s).len() == s.len(),
        forall|i: int| 0 <= i < sorted(s).len() ==> within(#[trigger] sorted(s)[i], j),
{
    broadcast use vstd::seq_lib::group_to_multiset_ensures;

    law_sorted_keeps_the_numbers(s);
    assert forall|i: int| 0 <= i < sorted(s).len() implies within(#[trigger] sorted(s)[i], j) by {
        assert(sorted(s).contains(sorted(s)[i]));
        assert(s.to_multiset().count(sorted(s)[i]) > 0);
        assert(s.contains(sorted(s)[i]));
    }
}

/// The baseline, the scatter and the trigger of readings within 2^1000 are
/// finite.
proof fn lemma_baseline_within(fp: Fp, pre: Seq<AfrSample>)
    requires
        fp.orderly(),
        fp.exact(),
        pre.len() > 0,
        forall|i: int| 0 <= i < pre.len() ==> within((#[trigger] pre[i]).afr, 0),
    ensures
        within(baseline_of(fp, pre), 0),
        within(scatter_of(fp, pre), 1),
        scatter_of(fp, pre).rank() >= 0,
        forall|i: int|
            0 <= i < pre.len() ==> !fp.sub(
                #[trigger] readings(pre)[i],
                baseline_of(fp, pre),
            ).nan(),
{
    let s = readings(pre);
    assert forall|i: int| 0 <= i < s.len() implies within(#[trigger] s[i], 0) by {
        assert(within(pre[i].afr, 0));
    }
    lemma_sorted_within(s, 0);
    lemma_median_within(fp, sorted(s), 0);
    let center = baseline_of(fp, pre);
    let devs = deviations(fp, sorted(s), center);
    assert forall|i: int| 0 <= i < devs.len() implies within(#[trigger] devs[i], 1) by {
        lemma_sum_within(fp, sorted(s)[i], center, 0);
    }
    lemma_sorted_within(devs, 1);
    lemma_median_within(fp, sorted(devs), 1);
    assert forall|i: int| 0 <= i < pre.len() implies !fp.sub(#[trigger] s[i], center).nan() by {
        lemma_sum_within(fp, s[i], center, 0);
    }
    lemma_scatter_is_no_less_than_zero(fp, devs);
}

proof fn lemma_scatter_is_no_less_than_zero(fp: Fp, devs: Seq<Num>)
    requires
        fp.orderly(),
        fp.exact(),
        devs.len() > 0,
        forall|i: int| 0 <= i < devs.len() ==> within(#[trigger] devs[i], 1),
        forall|i: int| 0 <= i < devs.len() ==> (#[trigger] devs[i]).rank() >= 0,
    ensures
        middle(fp, sorted(devs)).rank() >= 0,
{
    broadcast use vstd::seq_lib::group_to_multiset_ensures;

    let (s, zero, two) = (sorted(devs), Num { bits: ZERO }, Num { bits: TWO });
    law_sorted_keeps_the_numbers(devs);
    lemma_sorted_within(devs, 1);
    let half = s.len() as int / 2;
    assert forall|i: int| 0 <= i < s.len() implies (#[trigger] s[i]).rank() >= 0 by {
        assert(s.contains(s[i]));
        assert(devs.to_multiset().count(s[i]) > 0);
        assert(devs.contains(s[i]));
    }
    if s.len() % 2 == 0 {
        let (a, b) = (s[half - 1], s[half]);
        assert(within(a, 1) && within(b, 1));
        lemma_sum_within(fp, a, b, 1);
        lemma_sums_rise(fp, a, zero, b);
        lemma_neutral(fp, a);
        lemma_quotients_rise(fp, two, zero, fp.add(a, b));
        lemma_neutral(fp, two);
    }
}

/// Readings `k` and `k + 1` both lie below the baseline by more than three
/// times the scatter, and by more than 0.15.
pub open spec fn drops(fp: Fp, post: Seq<AfrSample>, baseline: Num, scatter: Num, k: int) -> bool {
    let noise = fp.sub(baseline, fp.mul(Num { bits: 0x4008_0000_0000_0000 }, scatter));
    let least = fp.sub(baseline, Num { bits: 0x3FC3_3333_3333_3333 });
    &&& 0 <= k
    &&& k + 1 < post.len()
    &&& post[k].afr.below(noise) && post[k].afr.below(least)
    &&& post[k + 1].afr.below(noise) && post[k + 1].afr.below(least)
}

/// `line` is the lower of what three times the scatter leaves of the baseline
/// and what 0.15 leaves of it.
pub open spec fn is_line(fp: Fp, baseline: Num, scatter: Num, line: Num) -> bool {
    let noise = fp.sub(baseline, fp.mul(Num { bits: 0x4008_0000_0000_0000 }, scatter));
    let least = fp.sub(baseline, Num { bits: 0x3FC3_3333_3333_3333 });
    (line == noise || line == least) && line.at_most(noise) && line.at_most(least)
}

/// The delay to a drop that starts at reading `k`: where the reading before it
/// was taken earlier, up to the instant at which the straight line between the
/// two passes `line`; otherwise up to the reading itself. A drop before the
/// anchor is no delay.
pub open spec fn is_delay(
    fp: Fp,
    anchor_ms: int,
    post: Seq<AfrSample>,
    k: int,
    line: Num,
    delay_ms: Num,
) -> bool {
    let (e, b) = (post[k], post[k - 1]);
    let instant = if k > 0 && b.t_ms < e.t_ms {
        fp.add(
            fp.count(b.t_ms as int),
            fp.mul(
                fp.count(e.t_ms - b.t_ms),
                fp.div(fp.sub(b.afr, line), fp.sub(b.afr, e.afr)),
            ),
        )
    } else {
        fp.count(e.t_ms as int)
    };
    let delay = fp.sub(instant, fp.count(anchor_ms));
    if (Num { bits: 0 }).below(delay) {
        delay_ms == delay
    } else {
        delay_ms.rank() == 0
    }
}

/// What a step with this baseline and scatter yields.
pub open spec fn is_outcome(
    fp: Fp,
    anchor_ms: int,
    post: Seq<AfrSample>,
    baseline: Num,
    scatter: Num,
    outcome: Result<DelayMeasurement, DelayRejection>,
) -> bool {
    if (Num { bits: 0x3FD6_6666_6666_6666 }).below(scatter) {
        outcome == Err::<DelayMeasurement, DelayRejection>(DelayRejection::UnstableBaseline)
    } else if forall|k: int| !#[trigger] drops(fp, post, baseline, scatter, k) {
        outcome == Err::<DelayMeasurement, DelayRejection>(DelayRejection::NoResponse)
    } else {
        outcome matches Ok(m) && exists|k: int, line: Num|
            {
                &&& #[trigger] drops(fp, post, baseline, scatter, k)
                &&& forall|j: int| 0 <= j < k ==> !#[trigger] drops(fp, post, baseline, scatter, j)
                &&& #[trigger] is_line(fp, baseline, scatter, line)
                &&& m.baseline_afr == baseline
                &&& m.excursion == fp.sub(baseline, post[k].afr)
                &&& is_delay(fp, anchor_ms, post, k, line, m.delay_ms)
            }
    }
}

/// The baseline is the median of the readings, and the scatter the median of
/// their distances from it.
pub open spec fn are_medians(fp: Fp, pre: Seq<AfrSample>, baseline: Num, scatter: Num) -> bool {
    let afrs = pre.map_values(|s: AfrSample| s.afr);
    is_median(fp, afrs, baseline) && is_median(fp, distances(fp, afrs, baseline), scatter)
}

/// What a step yields, from its readings. With fewer than four before the
/// anchor there is no baseline; otherwise the baseline is their median, the
/// scatter the median of their distances from it, a scatter above 0.35 is too
/// much, and what is measured is the first drop of two readings in a row below
/// both three times the scatter and 0.15.
pub proof fn law_what_a_step_yields(
    fp: Fp,
    anchor_ms: int,
    pre: Seq<AfrSample>,
    post: Seq<AfrSample>,
)
    requires
        fp.orderly(),
        fp.exact(),
        forall|i: int| 0 <= i < pre.len() ==> within((#[trigger] pre[i]).afr, 0),
        forall|i: int| 0 <= i < post.len() ==> within((#[trigger] post[i]).afr, 0),
    ensures
        pre.len() < 4 ==> delay_of(fp, anchor_ms, pre, post) == Err::<
            DelayMeasurement,
            DelayRejection,
        >(DelayRejection::InsufficientBaseline),
        pre.len() >= 4 ==> exists|baseline: Num, scatter: Num|
            {
                &&& #[trigger] are_medians(fp, pre, baseline, scatter)
                &&& is_outcome(
                    fp,
                    anchor_ms,
                    post,
                    baseline,
                    scatter,
                    delay_of(fp, anchor_ms, pre, post),
                )
            },
{
    if pre.len() >= 4 {
        let s = readings(pre);
        assert(s =~= pre.map_values(|s: AfrSample| s.afr));
        let (baseline, scatter) = (baseline_of(fp, pre), scatter_of(fp, pre));
        lemma_baseline_within(fp, pre);
        assert forall|i: int| 0 <= i < s.len() implies !(#[trigger] s[i]).nan() by {
            assert(within(pre[i].afr, 0));
        }
        law_the_middle_is_the_median(fp, s);
        law_the_scatter_is_the_median_distance(fp, s, baseline);
        lemma_outcome(fp, anchor_ms, pre, post);
        assert(are_medians(fp, pre, baseline, scatter));
    }
}

proof fn lemma_trigger(fp: Fp, pre: Seq<AfrSample>)
    requires
        fp.orderly(),
        fp.exact(),
        within(baseline_of(fp, pre), 0),
        within(scatter_of(fp, pre), 1),
        scatter_of(fp, pre).rank() >= 0,
    ensures
        is_line(fp, baseline_of(fp, pre), scatter_of(fp, pre), trigger_of(fp, pre)),
        within(trigger_of(fp, pre), 4),
        !trigger_of(fp, pre).nan(),
{
    let (three, four) = (Num { bits: K_MAD }, Num { bits: 0x4010_0000_0000_0000 });
    let (base, scatter, least) = (
        baseline_of(fp, pre),
        scatter_of(fp, pre),
        Num { bits: MIN_EXCURSION_AFR },
    );
    let noise = fp.mul(three, scatter);
    lemma_bounds(1);
    lemma_bounds(2);
    lemma_bounds(3);
    lemma_small_integers();
    let (v, w, u) = (bound(1).value(), bound(3).value(), unit());
    assert(4 * u * v == w * u) by (nonlinear_arith)
        requires
            w == 4 * v,
    ;
    assert(is_product(four, bound(1), bound(3)));
    lemma_products_rise(fp, scatter, three, four);
    lemma_products_rise(fp, four, scatter, bound(1));
    lemma_products_rise(fp, three, Num { bits: ZERO }, scatter);
    lemma_neutral(fp, three);
    assert(within(noise, 3) && within(least, 3) && within(base, 3));
    lemma_sum_within(fp, base, noise, 3);
    lemma_sum_within(fp, base, least, 3);
    if noise.below(least) {
        lemma_differences_rise(fp, base, noise, least);
    } else {
        lemma_differences_rise(fp, base, least, noise);
    }
}

proof fn lemma_drops(fp: Fp, pre: Seq<AfrSample>, post: Seq<AfrSample>, k: int)
    requires
        is_line(fp, baseline_of(fp, pre), scatter_of(fp, pre), trigger_of(fp, pre)),
    ensures
        sustained(post, trigger_of(fp, pre), k) == drops(
            fp,
            post,
            baseline_of(fp, pre),
            scatter_of(fp, pre),
            k,
        ),
{
    let line = trigger_of(fp, pre);
    if sustained(post, line, k) {
        assert(post[k].afr.below(line) && post[k + 1].afr.below(line));
    }
}

proof fn lemma_outcome(fp: Fp, anchor_ms: int, pre: Seq<AfrSample>, post: Seq<AfrSample>)
    requires
        fp.orderly(),
        fp.exact(),
        pre.len() >= 4,
        within(baseline_of(fp, pre), 0),
        within(scatter_of(fp, pre), 1),
        scatter_of(fp, pre).rank() >= 0,
        forall|i: int| 0 <= i < post.len() ==> within((#[trigger] post[i]).afr, 0),
    ensures
        is_outcome(
            fp,
            anchor_ms,
            post,
            baseline_of(fp, pre),
            scatter_of(fp, pre),
            delay_of(fp, anchor_ms, pre, post),
        ),
{
    let (base, scatter, line) = (baseline_of(fp, pre), scatter_of(fp, pre), trigger_of(fp, pre));
    lemma_trigger(fp, pre);
    assert forall|k: int| sustained(post, line, k) == #[trigger] drops(
        fp,
        post,
        base,
        scatter,
        k,
    ) by {
        lemma_drops(fp, pre, post, k);
    }
    if exists|k: int| #[trigger] drops(fp, post, base, scatter, k) {
        let some = choose|k: int| #[trigger] drops(fp, post, base, scatter, k);
        lemma_drops(fp, pre, post, some);
        lemma_first_sustained(post, line, some);
        let k = choose|k: int| k <= some && is_edge(post, line, k);
        assert(is_edge(post, line, k));
        lemma_edge_is_unique(post, line, k);
        lemma_drops(fp, pre, post, k);
        assert(drops(fp, post, base, scatter, k));
        assert forall|j: int| 0 <= j < k implies !#[trigger] drops(fp, post, base, scatter, j) by {
            lemma_drops(fp, pre, post, j);
            assert(!sustained(post, line, j));
        }
        lemma_delay(fp, anchor_ms, post, k, base, line);
    } else {
        assert forall|i: int| !#[trigger] is_edge(post, line, i) by {
            if is_edge(post, line, i) {
                lemma_drops(fp, pre, post, i);
                assert(drops(fp, post, base, scatter, i));
            }
        }
    }
}

proof fn lemma_delay(
    fp: Fp,
    anchor_ms: int,
    post: Seq<AfrSample>,
    k: int,
    base: Num,
    line: Num,
)
    requires
        fp.orderly(),
        fp.exact(),
        forall|i: int| 0 <= i < post.len() ==> within((#[trigger] post[i]).afr, 0),
        within(line, 4),
        !line.nan(),
        is_edge(post, line, k),
    ensures
        is_delay(
            fp,
            anchor_ms,
            post,
            k,
            line,
            measurement(fp, anchor_ms, post, k, base, line).delay_ms,
        ),
{
    assert(sustained(post, line, k));
    assert(post[k].afr.below(line));
    if k > 0 {
        let (b, e) = (post[k - 1], post[k]);
        assert(within(b.afr, 0) && within(e.afr, 0));
        assert(!b.afr.below(line)) by {
            if b.afr.below(line) {
                assert forall|i: int| k - 1 <= i < k - 1 + SUSTAIN_SAMPLES implies (
                #[trigger] post[i]).afr.below(line) by {}
                assert(sustained(post, line, k - 1));
            }
        }
        let (part, span) = (fp.sub(b.afr, line), fp.sub(b.afr, e.afr));
        lemma_sum_within(fp, b.afr, e.afr, 4);
        lemma_sum_within(fp, b.afr, line, 4);
        lemma_differences_rise(fp, b.afr, e.afr, line);
        lemma_difference(fp, b.afr, e.afr);
        lemma_differences_rise(fp, b.afr, line, b.afr);
        lemma_neutral(fp, b.afr);
        lemma_neutral(fp, span);
        lemma_quotients_rise(fp, span, part, span);
        lemma_quotients_rise(fp, span, Num { bits: ZERO }, part);
    }
}

/// Whatever the readings are, what is measured starts with the first two
/// readings in a row below the line, and what is no number lies below nothing.
/// The line lies under the baseline by three times the scatter, or by 0.15
/// where that is more or the scatter is no number.
pub proof fn law_two_readings_in_a_row_are_a_drop(
    fp: Fp,
    anchor_ms: int,
    pre: Seq<AfrSample>,
    post: Seq<AfrSample>,
    k: int,
)
    requires
        pre.len() >= 4,
        !(Num { bits: 0x3FD6_6666_6666_6666 }).below(scatter_of(fp, pre)),
    ensures
        ({
            let noise = fp.mul(Num { bits: 0x4008_0000_0000_0000 }, scatter_of(fp, pre));
            let least = Num { bits: 0x3FC3_3333_3333_3333 };
            let line = fp.sub(
                baseline_of(fp, pre),
                if least.at_most(noise) {
                    noise
                } else {
                    least
                },
            );
            let outcome = delay_of(fp, anchor_ms, pre, post);
            &&& outcome is Err ==> outcome == Err::<DelayMeasurement, DelayRejection>(
                DelayRejection::NoResponse,
            )
            &&& outcome is Ok <==> exists|i: int|
                0 <= i < post.len() - 1 && (#[trigger] post[i]).afr.below(line) && post[i
                    + 1].afr.below(line)
            &&& 0 <= k < post.len() - 1 && post[k].afr.below(line) && post[k + 1].afr.below(line)
                && (forall|i: int|
                0 <= i < k ==> !((#[trigger] post[i]).afr.below(line) && post[i + 1].afr.below(
                    line,
                ))) ==> (outcome matches Ok(m) && m.baseline_afr == baseline_of(fp, pre)
                && m.excursion == fp.sub(baseline_of(fp, pre), post[k].afr) && m.delay_ms
                == stretch(fp, anchor_ms, post, k, line))
        }),
{
    let line = trigger_of(fp, pre);
    assert forall|i: int| #[trigger] sustained(post, line, i) == (0 <= i < post.len() - 1
        && post[i].afr.below(line) && post[i + 1].afr.below(line)) by {
        if 0 <= i < post.len() - 1 && post[i].afr.below(line) && post[i + 1].afr.below(line) {
            assert forall|j: int| i <= j < i + SUSTAIN_SAMPLES implies (
            #[trigger] post[j]).afr.below(line) by {}
        }
        if sustained(post, line, i) {
            assert(post[i].afr.below(line) && post[i + 1].afr.below(line));
        }
    }
    if exists|i: int| is_edge(post, line, i) {
        let i = choose|i: int| is_edge(post, line, i);
        assert(sustained(post, line, i));
        assert(post[i].afr.below(line) && post[i + 1].afr.below(line));
    }
    if exists|i: int|
        0 <= i < post.len() - 1 && (#[trigger] post[i]).afr.below(line) && post[i + 1].afr.below(
            line,
        ) {
        let i = choose|i: int|
            0 <= i < post.len() - 1 && (#[trigger] post[i]).afr.below(line) && post[i
                + 1].afr.below(line);
        assert(sustained(post, line, i));
        lemma_first_sustained(post, line, i);
    }
    if 0 <= k < post.len() - 1 && post[k].afr.below(line) && post[k + 1].afr.below(line) && (
    forall|i: int|
        0 <= i < k ==> !((#[trigger] post[i]).afr.below(line) && post[i + 1].afr.below(line))) {
        assert(sustained(post, line, k));
        assert forall|i: int| 0 <= i < k implies !#[trigger] sustained(post, line, i) by {
            assert(!(post[i].afr.below(line) && post[i + 1].afr.below(line)));
        }
        assert(is_edge(post, line, k));
        lemma_edge_is_unique(post, line, k);
    }
}

/// The time from the anchor to the instant at which the AFR falls through the
/// line, on its way from reading `k - 1` to reading `k`; to reading `k` where
/// there is none before it that lies above it and was taken earlier. What is
/// not above zero, or no number, is zero.
pub open spec fn stretch(fp: Fp, anchor_ms: int, post: Seq<AfrSample>, k: int, line: Num) -> Num {
    let (b, e) = (post[k - 1], post[k]);
    let (zero, one) = (Num { bits: 0 }, Num { bits: 0x3FF0_0000_0000_0000 });
    let share = fp.div(fp.sub(b.afr, line), fp.sub(b.afr, e.afr));
    let instant = if k > 0 && e.afr.below(b.afr) && b.t_ms < e.t_ms {
        fp.add(
            fp.count(b.t_ms as int),
            fp.mul(
                fp.count(e.t_ms - b.t_ms),
                if share.below(zero) {
                    zero
                } else if one.below(share) {
                    one
                } else {
                    share
                },
            ),
        )
    } else {
        fp.count(e.t_ms as int)
    };
    let delay = fp.sub(instant, fp.count(anchor_ms));
    if delay.nan() || delay.below(zero) {
        zero
    } else {
        delay
    }
}

} // verus!
