//! Instrumentation for command stalls.
//!
//! Answers one question: when a write or burn stalls, where does the time go,
//! and how many realtime fetches are in flight at that moment. A [`Probe`]
//! times one command and says what is to be logged; an [`RtGuard`] keeps the
//! count of realtime fetches.

use std::time::{Duration, Instant};
use vstd::prelude::*;

verus! {

/// `std::time::Instant`, a point on the host's monotonic clock, as an opaque
/// type.
#[verifier::external_type_specification]
#[verifier::external_body]
pub struct ExInstant(std::time::Instant);

/// `Instant::now`: the current instant. Nothing is claimed of it, since it
/// rests on the clock alone.
pub assume_specification[ Instant::now ]() -> (r: Instant)
;

/// `Instant::elapsed`: the time that has passed since the instant. Nothing is
/// claimed of it, since it rests on the clock.
pub assume_specification[ Instant::elapsed ](t0: &Instant) -> (r: Duration)
;

/// `Duration::as_millis`: the whole milliseconds of a duration. Nothing is
/// claimed of it: all that is known of the durations here is that the clock
/// gave them.
pub assume_specification[ Duration::as_millis ](d: &Duration) -> (r: u128)
;

/// A quiet probe's command is slow when it takes longer than this.
pub const SLOW_MS: u64 = 250;

/// One line for the log.
#[derive(Clone, Copy, Debug, PartialEq, Eq)]
pub enum ProbeReport<'a> {
    /// The command starts, with so many realtime fetches in flight.
    Enter { cmd: &'static str, realtime_in_flight: usize },
    /// The command has come to a place, after so many milliseconds.
    Mark { cmd: &'static str, at: &'a str, ms: u64 },
    /// The command is done, after so many milliseconds.
    Exit { cmd: &'static str, total_ms: u64 },
}

/// Milliseconds as they are logged: the lower 64 bits.
pub open spec fn logged_ms(elapsed_ms: u128) -> u64 {
    (elapsed_ms % 0x1_0000_0000_0000_0000) as u64
}

fn to_logged_ms(elapsed_ms: u128) -> (r: u64)
    ensures
        r == logged_ms(elapsed_ms),
{
    (elapsed_ms % 0x1_0000_0000_0000_0000) as u64
}

/// What a probe logs at a mark, after so many milliseconds.
pub open spec fn marked<'a>(
    cmd: &'static str,
    quiet: bool,
    at: &'a str,
    elapsed_ms: u128,
) -> Option<ProbeReport<'a>> {
    if quiet {
        None
    } else {
        Some(ProbeReport::Mark { cmd, at, ms: logged_ms(elapsed_ms) })
    }
}

/// What a probe logs at the end, after so many milliseconds.
pub open spec fn exited(cmd: &'static str, quiet: bool, elapsed_ms: u128) -> Option<
    ProbeReport<'static>,
> {
    if !quiet || logged_ms(elapsed_ms) > SLOW_MS {
        Some(ProbeReport::Exit { cmd, total_ms: logged_ms(elapsed_ms) })
    } else {
        None
    }
}

/// What a probe logs at a mark, after so many milliseconds.
pub fn mark_report<'a>(cmd: &'static str, quiet: bool, at: &'a str, elapsed_ms: u128) -> (r: Option<
    ProbeReport<'a>,
>)
    ensures
        r == marked(cmd, quiet, at, elapsed_ms),
{
    if !quiet {
        Some(ProbeReport::Mark { cmd, at, ms: to_logged_ms(elapsed_ms) })
    } else {
        None
    }
}

/// What a probe logs at the end, after so many milliseconds.
pub fn exit_report(cmd: &'static str, quiet: bool, elapsed_ms: u128) -> (r: Option<
    ProbeReport<'static>,
>)
    ensures
        r == exited(cmd, quiet, elapsed_ms),
{
    let ms: u64 = to_logged_ms(elapsed_ms);
    if !quiet || ms > SLOW_MS {
        Some(ProbeReport::Exit { cmd, total_ms: ms })
    } else {
        None
    }
}

/// Times one command.
pub struct Probe {
    cmd: &'static str,
    t0: Instant,
    quiet: bool,
}

impl Probe {
    /// The command that is timed.
    pub closed spec fn command(self) -> &'static str {
        self.cmd
    }

    /// Quiet probes only report when slow, so that a fast path that runs many
    /// times a second does not flood the log.
    pub closed spec fn is_quiet(self) -> bool {
        self.quiet
    }

    /// When the timing started.
    pub closed spec fn started(self) -> Instant {
        self.t0
    }

    /// The clock can say that so many milliseconds have passed since the
    /// probe started.
    pub open spec fn clocks(self, elapsed_ms: u128) -> bool {
        exists|elapsed: Duration| #[trigger]
            call_ensures(Instant::elapsed, (&self.started(),), elapsed) && call_ensures(
                Duration::as_millis,
                (&elapsed,),
                elapsed_ms,
            )
    }

    /// Start timing a command, with so many realtime fetches in flight.
    pub fn new(cmd: &'static str, realtime_in_flight: usize) -> (r: (Self, ProbeReport<'static>))
        ensures
            r.0.command() == cmd,
            !r.0.is_quiet(),
            call_ensures(Instant::now, (), r.0.started()),
            r.1 == (ProbeReport::Enter { cmd, realtime_in_flight }),
    {
        let now = Instant::now;
        (Probe { cmd, t0: now(), quiet: false }, ProbeReport::Enter { cmd, realtime_in_flight })
    }

    /// Start timing a command without a word.
    pub fn quiet(cmd: &'static str) -> (r: Self)
        ensures
            r.command() == cmd,
            r.is_quiet(),
            call_ensures(Instant::now, (), r.started()),
    {
        let now = Instant::now;
        Probe { cmd, t0: now(), quiet: true }
    }

    /// The milliseconds since the probe started.
    fn elapsed_ms(&self) -> (r: u128)
        ensures
            self.clocks(r),
    {
        let elapsed = Instant::elapsed;
        let as_millis = Duration::as_millis;
        let d = elapsed(&self.t0);
        let ms: u128 = as_millis(&d);
        assert(call_ensures(Instant::elapsed, (&self.started(),), d));
        ms
    }

    /// The command has come to a place.
    pub fn mark<'a>(&self, at: &'a str) -> (r: Option<ProbeReport<'a>>)
        ensures
            exists|elapsed_ms: u128| #[trigger]
                self.clocks(elapsed_ms) && r == marked(
                    self.command(),
                    self.is_quiet(),
                    at,
                    elapsed_ms,
                ),
    {
        mark_report(self.cmd, self.quiet, at, self.elapsed_ms())
    }

    /// The command is done.
    pub fn finish(&self) -> (r: Option<ProbeReport<'static>>)
        ensures
            exists|elapsed_ms: u128| #[trigger]
                self.clocks(elapsed_ms) && r == exited(
                    self.command(),
                    self.is_quiet(),
                    elapsed_ms,
                ),
    {
        exit_report(self.cmd, self.quiet, self.elapsed_ms())
    }
}

/// A count, after one more has come in; the count wraps.
pub open spec fn entered(in_flight: usize) -> usize {
    if in_flight == usize::MAX {
        0
    } else {
        (in_flight + 1) as usize
    }
}

/// A count, after one has left; the count wraps.
pub open spec fn left(in_flight: usize) -> usize {
    if in_flight == 0 {
        usize::MAX
    } else {
        (in_flight - 1) as usize
    }
}

/// Stands for one realtime fetch in flight.
#[derive(Debug)]
pub struct RtGuard;

impl RtGuard {
    /// A fetch starts: it is counted in.
    pub fn new(in_flight: &mut usize) -> (r: Self)
        ensures
            *final(in_flight) == entered(*old(in_flight)),
    {
        *in_flight = in_flight.wrapping_add(1);
        RtGuard
    }

    /// The fetch is over: it is counted out.
    pub fn release(self, in_flight: &mut usize)
        ensures
            *final(in_flight) == left(*old(in_flight)),
    {
        *in_flight = in_flight.wrapping_sub(1);
    }
}

/// A count, after fetches have come (`true`) and gone (`false`) in some order.
pub open spec fn counted(in_flight: usize, events: Seq<bool>) -> usize
    decreases events.len(),
{
    if events.len() == 0 {
        in_flight
    } else {
        let before = counted(in_flight, events.drop_last());
        if events.last() {
            entered(before)
        } else {
            left(before)
        }
    }
}

/// How many more have come than gone.
pub open spec fn balance(events: Seq<bool>) -> int
    decreases events.len(),
{
    if events.len() == 0 {
        0
    } else {
        balance(events.drop_last()) + if events.last() {
            1int
        } else {
            -1int
        }
    }
}

/// A count that has been moved by `by`.
spec fn moved(in_flight: usize, by: int) -> usize
    decreases if by < 0 { -by } else { by },
{
    if by == 0 {
        in_flight
    } else if by > 0 {
        entered(moved(in_flight, by - 1))
    } else {
        left(moved(in_flight, by + 1))
    }
}

proof fn lemma_moved(in_flight: usize, by: int)
    requires
        0 <= in_flight + by <= usize::MAX,
    ensures
        moved(in_flight, by) == in_flight + by,
    decreases if by < 0 { -by } else { by },
{
    if by > 0 {
        lemma_moved(in_flight, by - 1);
    } else if by < 0 {
        lemma_moved(in_flight, by + 1);
    }
}

proof fn lemma_counted_is_moved(in_flight: usize, events: Seq<bool>)
    ensures
        counted(in_flight, events) == moved(in_flight, balance(events)),
    decreases events.len(),
{
    if events.len() > 0 {
        lemma_counted_is_moved(in_flight, events.drop_last());
        let by = balance(events.drop_last());
        assert(moved(in_flight, by + 1) == entered(moved(in_flight, by)));
        assert(moved(in_flight, by - 1) == left(moved(in_flight, by)));
    }
}

/// The count stays honest: in whatever order fetches come and go, it is what
/// it was at the start and one for each that has come and not gone. From 0 on,
/// it is the number of guards alive.
pub proof fn law_the_count_is_of_the_guards_alive(in_flight: usize, events: Seq<bool>)
    requires
        0 <= in_flight + balance(events) <= usize::MAX,
    ensures
        counted(in_flight, events) == in_flight + balance(events),
{
    lemma_counted_is_moved(in_flight, events);
    lemma_moved(in_flight, balance(events));
}

/// A quiet probe is silent until its command is slow; any other probe logs
/// every mark and its end.
pub proof fn law_quiet_probes_report_only_when_slow(
    cmd: &'static str,
    at: &'static str,
    elapsed_ms: u128,
)
    ensures
        marked(cmd, true, at, elapsed_ms) is None,
        marked(cmd, false, at, elapsed_ms) is Some,
        exited(cmd, true, elapsed_ms) is Some <==> logged_ms(elapsed_ms) > SLOW_MS,
        exited(cmd, false, elapsed_ms) is Some,
{
}

/// A report carries the command, the place and the milliseconds as they are,
/// for any time that 64 bits hold; a quiet probe reports its end alone, and
/// only beyond 250 ms.
pub proof fn law_reports_carry_what_they_were_given(
    cmd: &'static str,
    quiet: bool,
    at: &'static str,
    elapsed_ms: u128,
)
    requires
        elapsed_ms <= u64::MAX,
    ensures
        marked(cmd, quiet, at, elapsed_ms) == (if quiet {
            None
        } else {
            Some(ProbeReport::Mark { cmd, at, ms: elapsed_ms as u64 })
        }),
        exited(cmd, quiet, elapsed_ms) == (if quiet && elapsed_ms <= 250 {
            None
        } else {
            Some(ProbeReport::Exit { cmd, total_ms: elapsed_ms as u64 })
        }),
{
}

/// Of a longer time, the milliseconds past the last full round of 64 bits are
/// logged.
pub proof fn law_long_times_wrap(elapsed_ms: u128)
    ensures
        (elapsed_ms - logged_ms(elapsed_ms)) % 0x1_0000_0000_0000_0000 == 0,
        0 <= elapsed_ms - logged_ms(elapsed_ms),
{
}

/// Whatever the count, a fetch that leaves undoes its coming and one that comes
/// undoes a leaving; the count goes up by one where there is room.
pub proof fn law_leaving_undoes_coming(in_flight: usize)
    ensures
        left(entered(in_flight)) == in_flight,
        entered(left(in_flight)) == in_flight,
        in_flight < usize::MAX ==> entered(in_flight) == in_flight + 1,
        in_flight > 0 ==> left(in_flight) == in_flight - 1,
{
}

} // verus!
