//! Timer interrupts: the heartbeat that makes scheduling preemptive.
//!
//! RISC-V gives S-mode a read-only `time` counter and no way to program the
//! comparator directly. So the kernel asks firmware to deliver the next interrupt
//! at an absolute time. There is no periodic mode and no way to cancel, only
//! "wake me at T", which means each tick must arm the next one.
//!
//! Arming from the *previous deadline* rather than from "now" matters: if the
//! handler is delayed, computing `now + interval` would let the period drift
//! outward every time. Advancing the deadline keeps the average rate exact.

use vstd::prelude::*;
use crate::config::{TICK_MS, TIMER_FREQ};

verus! {

/// `time` units in one scheduling quantum.
pub open spec fn quantum() -> int {
    TIMER_FREQ / 1000 * TICK_MS
}

/// `time` units in one scheduling quantum.
fn interval() -> (r: u64)
    ensures
        r == quantum(),
{
    TIMER_FREQ / 1000 * TICK_MS
}

/// What the timer keeps between ticks.
#[derive(Clone, Copy, Debug, PartialEq, Eq, Structural)]
pub struct Timer {
    /// Timer ticks since boot.
    pub ticks: u64,
    /// Absolute `time` value the next interrupt is armed for.
    pub next_deadline: u64,
}

/// Arm the first timer interrupt, where `now` is the current time: the result's
/// deadline is to be asked of the firmware.
pub fn init(now: u64) -> (r: Timer)
    requires
        now + quantum() <= u64::MAX,
    ensures
        r.ticks == 0,
        r.next_deadline == now + quantum(),
{
    Timer { ticks: 0, next_deadline: now + interval() }
}

/// The deadline after `deadline`, where `now` is the current time: one quantum
/// later, or one quantum from now if that has passed already.
pub open spec fn next_deadline(deadline: int, now: int) -> int {
    if deadline + quantum() <= now {
        now + quantum()
    } else {
        deadline + quantum()
    }
}

/// Called on every timer interrupt, where `now` is the current time. Returns the
/// deadline to ask of the firmware.
///
/// The deadline advances rather than being computed from now, so a late handler
/// does not stretch the period permanently. If the kernel fell so far behind that
/// the new deadline is already in the past, it skips forward to avoid a storm of
/// back-to-back interrupts.
pub fn on_tick(timer: &mut Timer, now: u64) -> (next: u64)
    requires
        old(timer).ticks < u64::MAX,
        old(timer).next_deadline + quantum() <= u64::MAX,
        now + quantum() <= u64::MAX,
    ensures
        next == next_deadline(old(timer).next_deadline as int, now as int),
        final(timer).next_deadline == next,
        final(timer).ticks == old(timer).ticks + 1,
{
    timer.ticks = timer.ticks + 1;
    let mut next: u64 = timer.next_deadline + interval();
    if next <= now {
        next = now + interval();
    }
    timer.next_deadline = next;
    next
}

/// Ticks since boot.
pub fn ticks(timer: &Timer) -> (r: u64)
    ensures
        r == timer.ticks,
{
    timer.ticks
}

/// Milliseconds since boot, derived from the hardware counter `now` rather than
/// the tick count so it stays accurate even if interrupts were masked for a while.
pub fn uptime_ms(now: u64) -> (r: u64)
    requires
        now * 1000 <= u64::MAX,
    ensures
        r == now * 1000 / TIMER_FREQ as int,
{
    now * 1000 / TIMER_FREQ
}

/// The time at which a busy-wait of `ms` milliseconds that starts at `now` ends.
///
/// Only for device bring-up, where there is no task to put to sleep yet.
pub fn spin_delay_ms(now: u64, ms: u64) -> (target: u64)
    requires
        now + TIMER_FREQ / 1000 * ms <= u64::MAX,
    ensures
        target == now + TIMER_FREQ / 1000 * ms,
{
    now + TIMER_FREQ / 1000 * ms
}

/// The deadline after `n` ticks whose handlers ran at the times `nows`.
pub open spec fn deadline_after(first: int, nows: Seq<int>) -> int
    decreases nows.len(),
{
    if nows.len() == 0 {
        first
    } else {
        next_deadline(deadline_after(first, nows.drop_last()), nows.last())
    }
}

/// However late the handlers are, as long as each runs within a quantum of its
/// deadline the deadlines stay on the grid: the average rate is exact.
pub proof fn law_no_drift(first: int, nows: Seq<int>)
    requires
        forall|i: int|
            0 <= i < nows.len() ==> #[trigger] nows[i] < deadline_after(first, nows.take(i)) + quantum(),
    ensures
        deadline_after(first, nows) == first + nows.len() * quantum(),
    decreases nows.len(),
{
    if nows.len() > 0 {
        let k = nows.len() - 1;
        let shorter = nows.drop_last();
        assert forall|i: int| 0 <= i < shorter.len() implies #[trigger] shorter[i] < deadline_after(
            first,
            shorter.take(i),
        ) + quantum() by {
            assert(shorter.take(i) =~= nows.take(i));
            assert(nows[i] == shorter[i]);
        }
        law_no_drift(first, shorter);
        assert(nows.take(k) =~= shorter);
        assert(nows[k] == nows.last());
        assert(nows.len() * quantum() == k * quantum() + quantum()) by (nonlinear_arith)
            requires
                nows.len() == k + 1,
        ;
    }
}

/// A deadline is always in the future: no tick fires at once.
pub proof fn law_deadline_is_ahead(deadline: int, now: int)
    ensures
        next_deadline(deadline, now) > now,
        next_deadline(deadline, now) > deadline,
{
}

/// A quantum is ten milliseconds of a clock that counts ten million a second.
pub proof fn law_quantum_is_ten_milliseconds()
    ensures
        quantum() == 100_000,
        TIMER_FREQ == 10_000_000,
{
}

/// The next deadline is a quantum after the last one. Only when that is past already is it
/// a quantum from now.
pub proof fn law_deadlines_are_a_quantum_apart(deadline: int, now: int)
    ensures
        now < deadline + 100_000 ==> next_deadline(deadline, now) == deadline + 100_000,
        now >= deadline + 100_000 ==> next_deadline(deadline, now) == now + 100_000,
{
}

} // verus!
