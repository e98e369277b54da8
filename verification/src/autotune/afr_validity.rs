//! Rejects wideband readings that are being *held* rather than measured.
//!
//! A wideband on a running engine always dithers: combustion is never
//! identical cycle to cycle, so the reading moves. A value that sits perfectly
//! still is the controller reporting something other than a mixture: a sensor
//! that is out of range and rails, a controller that emits fixed values while
//! it warms up and calibrates, or a dead channel.
//!
//! Blacklisting the values does not work, because they are also perfectly
//! ordinary readings. What separates them is *duration*: in the reference
//! drive real readings never held longer than 0.46 s, while the rail held for
//! tens of seconds. So the test is how long a value has stood still, not what
//! the value is.

use crate::machine::{Calc, Fp, Machine, Style};
use crate::num::Num;
use vstd::prelude::*;

verus! {

/// Why a wideband sample cannot be trusted.
#[derive(Clone, Copy, Debug, PartialEq, Eq)]
pub enum AfrInvalid {
    /// Parked on a known status value (rail, or a controller's calibration
    /// output) for longer than a real reading ever holds.
    HeldStatusValue,
    /// Any value standing perfectly still for far longer than combustion
    /// scatter allows: a frozen or disconnected channel.
    Frozen,
}

impl AfrInvalid {
    /// Short operator-facing label.
    pub fn label(&self) -> (r: &'static str)
        ensures
            r@ == (match self {
                AfrInvalid::HeldStatusValue => "wideband not measuring (held at a status value)"@,
                AfrInvalid::Frozen => "wideband reading frozen"@,
            }),
    {
        match self {
            AfrInvalid::HeldStatusValue => "wideband not measuring (held at a status value)",
            AfrInvalid::Frozen => "wideband reading frozen",
        }
    }
}

/// How long a known status value may persist before the sample is refused.
pub const STATUS_HOLD_MS: u64 = 750;

/// How long *any* unchanged value is tolerated before the channel is presumed
/// frozen. Steady idle can legitimately repeat a value for a second or two, so
/// this is deliberately well clear of that.
pub const FROZEN_HOLD_MS: u64 = 3_000;

/// 13.33 and 16.67: what a 14Point7 Spartan emits while it calibrates. The
/// rail is supplied by the caller because it depends on the channel's scaling.
pub const STATUS_VALUES: [u64; 2] = [0x402A_A8F5_C28F_5C29, 0x4030_AB85_1EB8_51EC];

/// 0.06: how near a reading has to lie to a status value to count as one.
pub const STATUS_TOLERANCE: u64 = 0x3FAE_B851_EB85_1EB8;

/// The gap between 1.0 and the next double: readings closer than this are the
/// same reading.
pub const EPSILON: u64 = 0x3CB0_0000_0000_0000;

/// A reading, and the timestamp it was first seen at.
pub type Held = Option<(Num, u64)>;

/// The reading is the one that is being held.
pub open spec fn is_same(fp: Fp, held: Held, afr: Num) -> bool {
    held matches Some(h) && fp.gap(h.0, afr).below(Num { bits: EPSILON })
}

/// The reading lies on the rail or on one of the status values.
pub open spec fn is_status(fp: Fp, afr: Num, rail_afr: Num) -> bool {
    let tolerance = Num { bits: STATUS_TOLERANCE };
    ||| !rail_afr.nan() && fp.gap(afr, rail_afr).below(tolerance)
    ||| exists|i: int|
        0 <= i < STATUS_VALUES@.len() && fp.gap(
            afr,
            Num { bits: #[trigger] STATUS_VALUES@[i] },
        ).below(tolerance)
}

/// How long a reading first seen at `since_ms` has been held at `t_ms`; a
/// clock that ran backwards counts as no time.
pub open spec fn held_for(since_ms: u64, t_ms: u64) -> int {
    if t_ms >= since_ms {
        t_ms - since_ms
    } else {
        0
    }
}

/// What is said of a reading that has been held for so long.
pub open spec fn verdict(status: bool, held_ms: int) -> Option<AfrInvalid> {
    if status && held_ms >= STATUS_HOLD_MS {
        Some(AfrInvalid::HeldStatusValue)
    } else if held_ms >= FROZEN_HOLD_MS {
        Some(AfrInvalid::Frozen)
    } else {
        None
    }
}

/// What is held after a sample.
pub open spec fn held_after(fp: Fp, held: Held, afr: Num, t_ms: u64) -> Held {
    if is_same(fp, held, afr) {
        held
    } else {
        Some((afr, t_ms))
    }
}

/// What is said of a sample.
pub open spec fn judged(fp: Fp, held: Held, afr: Num, t_ms: u64, rail_afr: Num) -> Option<
    AfrInvalid,
> {
    match held {
        Some((_, since_ms)) if is_same(fp, held, afr) => verdict(
            is_status(fp, afr, rail_afr),
            held_for(since_ms, t_ms),
        ),
        _ => None,
    }
}

/// What is held after a run of samples.
pub open spec fn held_through(fp: Fp, held: Held, samples: Seq<(Num, u64)>) -> Held
    decreases samples.len(),
{
    if samples.len() == 0 {
        held
    } else {
        held_after(
            fp,
            held_through(fp, held, samples.drop_last()),
            samples.last().0,
            samples.last().1,
        )
    }
}

/// Tracks how long the wideband has been sitting on the same reading.
#[derive(Clone, Debug)]
pub struct AfrValidity {
    held: Held,
}

impl View for AfrValidity {
    type V = Held;

    /// The current value and the timestamp it was first seen at.
    closed spec fn view(&self) -> Held {
        self.held
    }
}

impl AfrValidity {
    /// A tracker that has seen nothing.
    pub fn new() -> (r: Self)
        ensures
            r@ is None,
    {
        AfrValidity { held: None }
    }

    /// Forget the current run: call when the stream reconnects or a new
    /// session starts, so a stale reading cannot carry across the gap.
    pub fn reset(&mut self)
        ensures
            final(self)@ is None,
    {
        self.held = None;
    }

    /// Feed one sample. Returns `None` when it is usable, or the reason it
    /// must be dropped.
    ///
    /// `rail_afr` is the channel's out-of-range value; pass a NaN if the
    /// channel has none.
    pub fn check<C: Fn(Calc) -> Num, S: Fn(Num, Style) -> String>(
        &mut self,
        machine: &Machine<C, S>,
        afr: Num,
        t_ms: u64,
        rail_afr: Num,
    ) -> (r: Option<AfrInvalid>)
        requires
            machine.total(),
        ensures
            forall|fp: Fp| #[trigger]
                machine.follows(fp) ==> {
                    &&& r == judged(fp, old(self)@, afr, t_ms, rail_afr)
                    &&& final(self)@ == held_after(fp, old(self)@, afr, t_ms)
                },
            final(self)@ == old(self)@ || final(self)@ == Some((afr, t_ms)) && r is None,
            old(self)@ is None ==> final(self)@ == Some((afr, t_ms)) && r is None,
    {
        let same = match self.held {
            Some((v, _)) => machine.gap(v, afr).lt(Num { bits: EPSILON }),
            None => false,
        };
        if !same {
            self.held = Some((afr, t_ms));
            return None;
        }
        let since: u64 = match self.held {
            Some((_, t0)) => t_ms.saturating_sub(t0),
            None => 0,
        };
        let tolerance = Num { bits: STATUS_TOLERANCE };
        let mut status = !rail_afr.is_nan() && machine.gap(afr, rail_afr).lt(tolerance);
        let mut i: usize = 0;
        while i < STATUS_VALUES.len()
            invariant
                machine.total(),
                i <= STATUS_VALUES@.len(),
                tolerance == (Num { bits: STATUS_TOLERANCE }),
                forall|fp: Fp| #[trigger]
                    machine.follows(fp) ==> status == (!rail_afr.nan() && fp.gap(
                        afr,
                        rail_afr,
                    ).below(tolerance) || exists|k: int|
                        0 <= k < i && fp.gap(
                            afr,
                            Num { bits: #[trigger] STATUS_VALUES@[k] },
                        ).below(tolerance)),
            decreases STATUS_VALUES@.len() - i,
        {
            let value = Num { bits: STATUS_VALUES[i] };
            if machine.gap(afr, value).lt(tolerance) {
                status = true;
            }
            i += 1;
        }
        if status && since >= STATUS_HOLD_MS {
            return Some(AfrInvalid::HeldStatusValue);
        }
        if since >= FROZEN_HOLD_MS {
            return Some(AfrInvalid::Frozen);
        }
        None
    }
}

impl Default for AfrValidity {
    fn default() -> (r: Self)
        ensures
            r@ is None,
    {
        Self::new()
    }
}

/// A reading that moved is always usable, and starts a new run.
pub proof fn law_a_moving_reading_passes(fp: Fp, held: Held, afr: Num, t_ms: u64, rail_afr: Num)
    requires
        !is_same(fp, held, afr),
    ensures
        judged(fp, held, afr, t_ms, rail_afr) is None,
        held_after(fp, held, afr, t_ms) == Some((afr, t_ms)),
{
}

/// Nothing is refused before it has stood still for [`STATUS_HOLD_MS`],
/// whatever its value.
pub proof fn law_a_short_hold_passes(
    fp: Fp,
    afr: Num,
    since_ms: u64,
    again: Num,
    t_ms: u64,
    rail_afr: Num,
)
    requires
        held_for(since_ms, t_ms) < STATUS_HOLD_MS,
    ensures
        judged(fp, Some((afr, since_ms)), again, t_ms, rail_afr) is None,
{
}

/// A held reading is refused as a status value exactly when it lies on one and
/// has stood for [`STATUS_HOLD_MS`], and as frozen exactly when it lies on
/// none and has stood for [`FROZEN_HOLD_MS`].
pub proof fn law_a_long_hold_is_refused(
    fp: Fp,
    held: (Num, u64),
    afr: Num,
    t_ms: u64,
    rail_afr: Num,
)
    requires
        is_same(fp, Some(held), afr),
    ensures
        judged(fp, Some(held), afr, t_ms, rail_afr) == Some(AfrInvalid::HeldStatusValue) <==> (
        is_status(fp, afr, rail_afr) && held_for(held.1, t_ms) >= STATUS_HOLD_MS),
        judged(fp, Some(held), afr, t_ms, rail_afr) == Some(AfrInvalid::Frozen) <==> (!is_status(
            fp,
            afr,
            rail_afr,
        ) && held_for(held.1, t_ms) >= FROZEN_HOLD_MS),
{
}

/// While the reading stands still, the run keeps the value and the time it
/// started with: the hold is counted from the first sample, however many
/// follow.
pub proof fn law_a_run_counts_from_its_first_sample(
    fp: Fp,
    first: (Num, u64),
    samples: Seq<(Num, u64)>,
)
    requires
        forall|i: int|
            0 <= i < samples.len() ==> is_same(fp, Some(first), (#[trigger] samples[i]).0),
    ensures
        held_through(fp, Some(first), samples) == Some(first),
    decreases samples.len(),
{
    if samples.len() > 0 {
        let front = samples.drop_last();
        assert forall|i: int| 0 <= i < front.len() implies is_same(
            fp,
            Some(first),
            (#[trigger] front[i]).0,
        ) by {
            assert(front[i] == samples[i]);
        }
        law_a_run_counts_from_its_first_sample(fp, first, front);
        assert(is_same(fp, Some(first), samples[samples.len() - 1].0));
    }
}

/// After a reset the next sample is usable, whatever came before the gap.
pub proof fn law_a_reset_forgets(fp: Fp, afr: Num, t_ms: u64, rail_afr: Num)
    ensures
        judged(fp, None, afr, t_ms, rail_afr) is None,
        held_after(fp, None, afr, t_ms) == Some((afr, t_ms)),
{
}

/// A reading that stands still is judged by its distances and by how long it
/// has stood, and by nothing else.
///
/// It stands still where it lies within 2^-52 of the one held. It is refused
/// as a status value exactly when it lies within 0.06 of 13.33, of 16.67 or of
/// a rail that is not a NaN, and has stood for 750 ms; as frozen exactly when
/// it lies on none of these and has stood for 3000 ms.
pub proof fn law_a_reading_is_judged_by_its_distances(
    fp: Fp,
    held: (Num, u64),
    afr: Num,
    t_ms: u64,
    rail_afr: Num,
)
    ensures
        ({
            let tolerance = Num { bits: 0x3FAE_B851_EB85_1EB8 };
            let still = fp.sub(held.0, afr).unsigned().below(Num { bits: 0x3CB0_0000_0000_0000 });
            let first = fp.sub(afr, Num { bits: 0x402A_A8F5_C28F_5C29 }).unsigned();
            let second = fp.sub(afr, Num { bits: 0x4030_AB85_1EB8_51EC }).unsigned();
            let rail = fp.sub(afr, rail_afr).unsigned();
            let on_a_status = first.below(tolerance) || second.below(tolerance) || (!rail_afr.nan()
                && rail.below(tolerance));
            let verdict = judged(fp, Some(held), afr, t_ms, rail_afr);
            &&& verdict == Some(AfrInvalid::HeldStatusValue) <==> still && on_a_status && t_ms
                - held.1 >= 750
            &&& verdict == Some(AfrInvalid::Frozen) <==> still && !on_a_status && t_ms - held.1
                >= 3000
            &&& still ==> held_after(fp, Some(held), afr, t_ms) == Some(held)
            &&& !still ==> held_after(fp, Some(held), afr, t_ms) == Some((afr, t_ms))
        }),
{
    let tolerance = Num { bits: STATUS_TOLERANCE };
    let (x, y) = (Num { bits: STATUS_VALUES@[0] }, Num { bits: STATUS_VALUES@[1] });
    if fp.gap(afr, x).below(tolerance) || fp.gap(afr, y).below(tolerance) {
        assert(is_status(fp, afr, rail_afr));
    }
}

/// A run of samples is judged from its first one: whatever stood still since
/// then, the last is refused exactly when it is far enough from the first.
pub proof fn law_a_held_run_is_refused_in_the_end(
    fp: Fp,
    first: (Num, u64),
    samples: Seq<(Num, u64)>,
    afr: Num,
    t_ms: u64,
    rail_afr: Num,
)
    requires
        fp.sub(first.0, afr).unsigned().below(Num { bits: 0x3CB0_0000_0000_0000 }),
        forall|i: int|
            0 <= i < samples.len() ==> fp.sub(first.0, (#[trigger] samples[i]).0).unsigned().below(
                Num { bits: 0x3CB0_0000_0000_0000 },
            ),
    ensures
        t_ms - first.1 >= 3000 ==> judged(
            fp,
            held_through(fp, Some(first), samples),
            afr,
            t_ms,
            rail_afr,
        ) is Some,
        t_ms - first.1 < 750 ==> judged(
            fp,
            held_through(fp, Some(first), samples),
            afr,
            t_ms,
            rail_afr,
        ) is None,
{
    assert forall|i: int| 0 <= i < samples.len() implies is_same(
        fp,
        Some(first),
        (#[trigger] samples[i]).0,
    ) by {}
    law_a_run_counts_from_its_first_sample(fp, first, samples);
}

} // verus!
