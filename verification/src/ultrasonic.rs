//! Non-blocking driver for an HC-SR04 style ultrasonic ranger: a 10 µs
//! trigger pulse, then the width of the echo pulse, with time-outs, all
//! measured on a wrapping 32-bit microsecond clock.

use vstd::prelude::*;
use crate::hal::{ClockMicros, InputPin, OutputPin};

verus! {

/// Shortest trigger pulse, in microseconds.
pub const TRIGGER_PULSE_US: u32 = 10;

#[derive(Clone, Copy, Debug, PartialEq, Eq, Structural)]
pub enum UltrasonicError {
    Busy,
    Timeout,
}

/// Where a measurement stands; each waiting state remembers when it began.
#[derive(Clone, Copy, Debug, PartialEq, Eq, Structural)]
pub enum State {
    Idle,
    TriggerHigh { since_us: u32 },
    WaitingForEchoRise { since_us: u32 },
    WaitingForEchoFall { since_us: u32 },
}

/// Microseconds from `start` to `now` on a clock that wraps at 2^32.
pub open spec fn elapsed_spec(start: u32, now: u32) -> int {
    if now >= start {
        now - start
    } else {
        now - start + 0x1_0000_0000
    }
}

fn elapsed_us(start: u32, now: u32) -> (e: u32)
    ensures
        e == elapsed_spec(start, now),
{
    now.wrapping_sub(start)
}

/// What one poll decides: the next state, whether the trigger pin goes low
/// now, and what the caller is told.
#[derive(Clone, Copy, Debug, PartialEq, Eq)]
pub struct PollStep {
    pub state: State,
    pub release_trigger: bool,
    pub outcome: Result<Option<u32>, UltrasonicError>,
}

/// The decision of one poll at clock reading `now` with the echo line's
/// level `echo_high` (read only while an echo edge is awaited).
pub open spec fn poll_spec(
    state: State,
    now: u32,
    echo_high: bool,
    max_echo_wait_us: u32,
    max_echo_high_us: u32,
) -> PollStep {
    match state {
        State::Idle => PollStep { state: State::Idle, release_trigger: false, outcome: Ok(None) },
        State::TriggerHigh { since_us } => if elapsed_spec(since_us, now) >= TRIGGER_PULSE_US {
            PollStep {
                state: State::WaitingForEchoRise { since_us: now },
                release_trigger: true,
                outcome: Ok(None),
            }
        } else {
            PollStep { state, release_trigger: false, outcome: Ok(None) }
        },
        State::WaitingForEchoRise { since_us } => if echo_high {
            PollStep {
                state: State::WaitingForEchoFall { since_us: now },
                release_trigger: false,
                outcome: Ok(None),
            }
        } else if elapsed_spec(since_us, now) > max_echo_wait_us {
            PollStep {
                state: State::Idle,
                release_trigger: false,
                outcome: Err(UltrasonicError::Timeout),
            }
        } else {
            PollStep { state, release_trigger: false, outcome: Ok(None) }
        },
        State::WaitingForEchoFall { since_us } => if !echo_high {
            PollStep {
                state: State::Idle,
                release_trigger: false,
                outcome: Ok(Some(elapsed_spec(since_us, now) as u32)),
            }
        } else if elapsed_spec(since_us, now) > max_echo_high_us {
            PollStep {
                state: State::Idle,
                release_trigger: false,
                outcome: Err(UltrasonicError::Timeout),
            }
        } else {
            PollStep { state, release_trigger: false, outcome: Ok(None) }
        },
    }
}

/// One poll of the measurement state machine; `echo_high` is the echo
/// line's level, consulted only while an echo edge is awaited.
pub fn poll_step(
    state: State,
    now: u32,
    echo_high: bool,
    max_echo_wait_us: u32,
    max_echo_high_us: u32,
) -> (step: PollStep)
    ensures
        step == poll_spec(state, now, echo_high, max_echo_wait_us, max_echo_high_us),
{
    match state {
        State::Idle => PollStep { state: State::Idle, release_trigger: false, outcome: Ok(None) },
        State::TriggerHigh { since_us } => {
            if elapsed_us(since_us, now) >= TRIGGER_PULSE_US {
                PollStep {
                    state: State::WaitingForEchoRise { since_us: now },
                    release_trigger: true,
                    outcome: Ok(None),
                }
            } else {
                PollStep { state, release_trigger: false, outcome: Ok(None) }
            }
        },
        State::WaitingForEchoRise { since_us } => {
            if echo_high {
                PollStep {
                    state: State::WaitingForEchoFall { since_us: now },
                    release_trigger: false,
                    outcome: Ok(None),
                }
            } else if elapsed_us(since_us, now) > max_echo_wait_us {
                PollStep {
                    state: State::Idle,
                    release_trigger: false,
                    outcome: Err(UltrasonicError::Timeout),
                }
            } else {
                PollStep { state, release_trigger: false, outcome: Ok(None) }
            }
        },
        State::WaitingForEchoFall { since_us } => {
            let pulse_us = elapsed_us(since_us, now);
            if !echo_high {
                PollStep { state: State::Idle, release_trigger: false, outcome: Ok(Some(pulse_us)) }
            } else if pulse_us > max_echo_high_us {
                PollStep {
                    state: State::Idle,
                    release_trigger: false,
                    outcome: Err(UltrasonicError::Timeout),
                }
            } else {
                PollStep { state, release_trigger: false, outcome: Ok(None) }
            }
        },
    }
}

/// `now` is a value that reading `clock` can give.
pub open spec fn clock_reading<C: ClockMicros>(clock: C, now: u32) -> bool {
    call_ensures(C::now_us, (&clock,), now)
}

/// `echo_high` is what a poll in `state` takes the echo line's level to be:
/// a reading of `is_high` while the rising edge is awaited, the negation of
/// a reading of `is_low` while the falling edge is awaited; in the other
/// states the line is not read and the level does not matter.
pub open spec fn echo_reading<E: InputPin>(echo: E, state: State, echo_high: bool) -> bool {
    match state {
        State::WaitingForEchoRise { .. } => call_ensures(E::is_high, (&echo,), echo_high),
        State::WaitingForEchoFall { .. } => call_ensures(E::is_low, (&echo,), !echo_high),
        _ => true,
    }
}

/// An ultrasonic ranger on a trigger pin, an echo pin and a microsecond
/// clock; `poll` reports the echo pulse width in microseconds.
pub struct Ultrasonic<TRIG, ECHO, CLOCK> {
    trigger: TRIG,
    echo: ECHO,
    clock: CLOCK,
    state: State,
    max_echo_wait_us: u32,
    max_echo_high_us: u32,
}

impl<TRIG, ECHO, CLOCK> Ultrasonic<TRIG, ECHO, CLOCK> {
    pub closed spec fn state_spec(&self) -> State {
        self.state
    }

    pub closed spec fn parts_spec(&self) -> (TRIG, ECHO, CLOCK) {
        (self.trigger, self.echo, self.clock)
    }

    pub closed spec fn max_echo_wait_spec(&self) -> u32 {
        self.max_echo_wait_us
    }

    pub closed spec fn max_echo_high_spec(&self) -> u32 {
        self.max_echo_high_us
    }
}

impl<TRIG, ECHO, CLOCK> Ultrasonic<TRIG, ECHO, CLOCK> where
    TRIG: OutputPin,
    ECHO: InputPin,
    CLOCK: ClockMicros,
 {
    /// An idle ranger that waits up to 3 ms for the echo to start and up to
    /// 25 ms for it to end.
    pub fn new(trigger: TRIG, echo: ECHO, clock: CLOCK) -> (u: Self)
        ensures
            u.state_spec() == State::Idle,
            u.parts_spec() == (trigger, echo, clock),
            u.max_echo_wait_spec() == 3_000,
            u.max_echo_high_spec() == 25_000,
    {
        Self {
            trigger,
            echo,
            clock,
            state: State::Idle,
            max_echo_wait_us: 3_000,
            max_echo_high_us: 25_000,
        }
    }

    pub fn state(&self) -> (s: State)
        ensures
            s == self.state_spec(),
    {
        self.state
    }

    /// Raises the trigger and starts a measurement, or reports `Busy` while
    /// one is under way.
    pub fn start(&mut self) -> (r: Result<(), UltrasonicError>)
        ensures
            final(self).max_echo_wait_spec() == old(self).max_echo_wait_spec(),
            final(self).max_echo_high_spec() == old(self).max_echo_high_spec(),
            old(self).state_spec() != State::Idle ==> r == Err::<(), UltrasonicError>(
                UltrasonicError::Busy,
            ) && *final(self) == *old(self),
            old(self).state_spec() == State::Idle ==> r is Ok && exists|now: u32|
                {
                    &&& #[trigger] clock_reading(old(self).parts_spec().2, now)
                    &&& final(self).state_spec() == (State::TriggerHigh { since_us: now })
                    &&& exists|pin: &mut TRIG|
                        #[trigger] call_ensures(TRIG::set_high, (pin,), ()) && mut_ref_current(pin)
                            == old(self).parts_spec().0 && mut_ref_future(pin)
                            == final(self).parts_spec().0
                    &&& final(self).parts_spec().1 == old(self).parts_spec().1
                    &&& final(self).parts_spec().2 == old(self).parts_spec().2
                },
    {
        if self.state != State::Idle {
            return Err(UltrasonicError::Busy);
        }
        let now = self.clock.now_us();
        assert(clock_reading(old(self).parts_spec().2, now));
        self.trigger.set_high();
        self.state = State::TriggerHigh { since_us: now };
        Ok(())
    }

    /// Advances the measurement by one step: reads the clock (and the echo
    /// line while an edge is awaited), lowers the trigger once it has been
    /// high for `TRIGGER_PULSE_US`, and reports a finished pulse width or a
    /// time-out.
    pub fn poll(&mut self) -> (r: Result<Option<u32>, UltrasonicError>)
        ensures
            final(self).max_echo_wait_spec() == old(self).max_echo_wait_spec(),
            final(self).max_echo_high_spec() == old(self).max_echo_high_spec(),
            final(self).parts_spec().1 == old(self).parts_spec().1,
            final(self).parts_spec().2 == old(self).parts_spec().2,
            exists|now: u32, echo_high: bool|
                {
                    let step = #[trigger] poll_spec(
                        old(self).state_spec(),
                        now,
                        echo_high,
                        old(self).max_echo_wait_spec(),
                        old(self).max_echo_high_spec(),
                    );
                    &&& clock_reading(old(self).parts_spec().2, now)
                    &&& echo_reading(old(self).parts_spec().1, old(self).state_spec(), echo_high)
                    &&& final(self).state_spec() == step.state
                    &&& r == step.outcome
                    &&& step.release_trigger ==> exists|pin: &mut TRIG|
                        #[trigger] call_ensures(TRIG::set_low, (pin,), ()) && mut_ref_current(pin)
                            == old(self).parts_spec().0 && mut_ref_future(pin)
                            == final(self).parts_spec().0
                    &&& !step.release_trigger ==> final(self).parts_spec().0
                        == old(self).parts_spec().0
                },
    {
        let now = self.clock.now_us();
        let echo_high = match self.state {
            State::WaitingForEchoRise { .. } => self.echo.is_high(),
            State::WaitingForEchoFall { .. } => !self.echo.is_low(),
            _ => false,
        };
        let step = poll_step(self.state, now, echo_high, self.max_echo_wait_us, self.max_echo_high_us);
        assert(step == poll_spec(
            old(self).state_spec(),
            now,
            echo_high,
            old(self).max_echo_wait_spec(),
            old(self).max_echo_high_spec(),
        ));
        if step.release_trigger {
            self.trigger.set_low();
        }
        self.state = step.state;
        step.outcome
    }

    /// Hands back the pins and the clock.
    pub fn release(self) -> (parts: (TRIG, ECHO, CLOCK))
        ensures
            parts == self.parts_spec(),
    {
        (self.trigger, self.echo, self.clock)
    }
}

/// The wrapping clock difference recovers any elapsed time below 2^32.
pub proof fn lemma_elapsed_recovers(start: u32, k: int)
    requires
        0 <= k < 0x1_0000_0000,
    ensures
        elapsed_spec(start, ((start + k) % 0x1_0000_0000) as u32) == k,
{
    if start + k >= 0x1_0000_0000 {
        assert((start + k) % 0x1_0000_0000 == start + k - 0x1_0000_0000);
    } else {
        assert((start + k) % 0x1_0000_0000 == start + k);
    }
}

/// An idle ranger stays idle and reports nothing, whatever the clock and
/// the echo line show.
pub proof fn lemma_idle_is_quiet(now: u32, echo_high: bool, max_wait: u32, max_high: u32)
    ensures
        poll_spec(State::Idle, now, echo_high, max_wait, max_high) == (PollStep {
            state: State::Idle,
            release_trigger: false,
            outcome: Ok(None),
        }),
{
}

/// Every result other than "nothing yet" ends the measurement: a pulse
/// width or a time-out returns the ranger to idle.
pub proof fn lemma_outcome_ends_measurement(
    state: State,
    now: u32,
    echo_high: bool,
    max_wait: u32,
    max_high: u32,
)
    ensures
        ({
            let step = poll_spec(state, now, echo_high, max_wait, max_high);
            step.outcome != Ok::<Option<u32>, UltrasonicError>(None) ==> step.state == State::Idle
        }),
{
}

/// Waiting for the echo to rise: with the line still low, a poll within
/// `max_echo_wait_us` of the trigger's release changes nothing (the wait
/// keeps its start time) and reports nothing; past that limit it reports
/// `Timeout` and returns to idle. The pulse limit plays no part.
pub proof fn lemma_rise_wait(since_us: u32, now: u32, max_wait: u32, max_high: u32)
    ensures
        ({
            let step = poll_spec(
                State::WaitingForEchoRise { since_us },
                now,
                false,
                max_wait,
                max_high,
            );
            &&& !step.release_trigger
            &&& elapsed_spec(since_us, now) <= max_wait ==> step.state == (State::WaitingForEchoRise { since_us }) && step.outcome == Ok::<Option<u32>, UltrasonicError>(None)
            &&& elapsed_spec(since_us, now) > max_wait ==> step.state == State::Idle && step.outcome
                == Err::<Option<u32>, UltrasonicError>(UltrasonicError::Timeout)
        }),
{
}

/// The echo rising: a poll that sees the line high while waiting for it
/// starts timing the pulse at that poll's clock reading, whatever the limits.
pub proof fn lemma_rise_seen(since_us: u32, now: u32, max_wait: u32, max_high: u32)
    ensures
        ({
            let step = poll_spec(
                State::WaitingForEchoRise { since_us },
                now,
                true,
                max_wait,
                max_high,
            );
            &&& step.state == (State::WaitingForEchoFall { since_us: now })
            &&& step.outcome == Ok::<Option<u32>, UltrasonicError>(None)
            &&& !step.release_trigger
        }),
{
}

/// Timing the echo pulse: while the line stays high, a poll within
/// `max_echo_high_us` of the rise changes nothing (the pulse keeps its start
/// time) and reports nothing, and only past that limit does it report
/// `Timeout`; once the line is low the poll reports the wrapping clock time
/// since the rise. The rise-wait limit plays no part.
pub proof fn lemma_pulse_timing(since_us: u32, now: u32, echo_high: bool, max_wait: u32, max_high: u32)
    ensures
        ({
            let step = poll_spec(
                State::WaitingForEchoFall { since_us },
                now,
                echo_high,
                max_wait,
                max_high,
            );
            &&& !step.release_trigger
            &&& echo_high && elapsed_spec(since_us, now) <= max_high ==> step.state
                == (State::WaitingForEchoFall { since_us }) && step.outcome == Ok::<
                Option<u32>,
                UltrasonicError,
            >(None)
            &&& echo_high && elapsed_spec(since_us, now) > max_high ==> step.state == State::Idle
                && step.outcome == Err::<Option<u32>, UltrasonicError>(UltrasonicError::Timeout)
            &&& !echo_high ==> step.state == State::Idle && step.outcome == Ok::<
                Option<u32>,
                UltrasonicError,
            >(Some(elapsed_spec(since_us, now) as u32))
        }),
{
}

/// The result of the last of a run of polls from `state`, each poll with its
/// clock reading and echo level; with no poll, nothing happened.
pub open spec fn run_polls(state: State, polls: Seq<(u32, bool)>, max_wait: u32, max_high: u32) -> PollStep
    decreases polls.len(),
{
    if polls.len() == 0 {
        PollStep { state, release_trigger: false, outcome: Ok(None) }
    } else {
        let prev = run_polls(state, polls.drop_last(), max_wait, max_high);
        poll_spec(prev.state, polls.last().0, polls.last().1, max_wait, max_high)
    }
}

/// Any number of polls that see the echo still high within the pulse limit
/// leave the pulse timed from its rise and report nothing.
pub proof fn lemma_pulse_held(
    since_us: u32,
    polls: Seq<(u32, bool)>,
    max_wait: u32,
    max_high: u32,
)
    requires
        forall|i: int|
            0 <= i < polls.len() ==> (#[trigger] polls[i]).1 && elapsed_spec(since_us, polls[i].0)
                <= max_high,
    ensures
        run_polls(State::WaitingForEchoFall { since_us }, polls, max_wait, max_high).state
            == (State::WaitingForEchoFall { since_us }),
        run_polls(State::WaitingForEchoFall { since_us }, polls, max_wait, max_high).outcome
            == Ok::<Option<u32>, UltrasonicError>(None),
    decreases polls.len(),
{
    if polls.len() > 0 {
        let prefix = polls.drop_last();
        assert forall|i: int| 0 <= i < prefix.len() implies (#[trigger] prefix[i]).1
            && elapsed_spec(since_us, prefix[i].0) <= max_high by {
            assert(prefix[i] == polls[i]);
        }
        lemma_pulse_held(since_us, prefix, max_wait, max_high);
        let last = polls[polls.len() - 1];
        lemma_pulse_timing(since_us, last.0, last.1, max_wait, max_high);
    }
}

/// A measured width is the whole echo pulse: after the poll that sees the
/// echo rise at `rise_us`, any number of polls that find it still high
/// within the pulse limit, and a poll at `fall_us` that finds it low, the
/// ranger reports the wrapping clock time from `rise_us` to `fall_us` and
/// is idle again.
pub proof fn lemma_width_is_whole_pulse(
    since_us: u32,
    rise_us: u32,
    held: Seq<(u32, bool)>,
    fall_us: u32,
    max_wait: u32,
    max_high: u32,
)
    requires
        forall|i: int|
            0 <= i < held.len() ==> (#[trigger] held[i]).1 && elapsed_spec(rise_us, held[i].0)
                <= max_high,
    ensures
        ({
            let polls = seq![(rise_us, true)] + held + seq![(fall_us, false)];
            let last = run_polls(State::WaitingForEchoRise { since_us }, polls, max_wait, max_high);
            &&& last.outcome == Ok::<Option<u32>, UltrasonicError>(
                Some(elapsed_spec(rise_us, fall_us) as u32),
            )
            &&& last.state == State::Idle
        }),
{
    let first = seq![(rise_us, true)];
    let rise = State::WaitingForEchoRise { since_us };
    let fall = State::WaitingForEchoFall { since_us: rise_us };
    assert(first.drop_last() =~= Seq::<(u32, bool)>::empty());
    assert(first.last() == (rise_us, true));
    assert(run_polls(rise, first.drop_last(), max_wait, max_high).state == rise);
    lemma_rise_seen(since_us, rise_us, max_wait, max_high);
    assert(run_polls(rise, first, max_wait, max_high).state == fall);
    lemma_runs_compose(rise, first, held, max_wait, max_high);
    lemma_pulse_held(rise_us, held, max_wait, max_high);
    assert(run_polls(rise, first + held, max_wait, max_high).state == fall);
    let polls = first + held + seq![(fall_us, false)];
    assert(polls.drop_last() =~= first + held);
    assert(polls.last() == (fall_us, false));
    lemma_pulse_timing(rise_us, fall_us, false, max_wait, max_high);
}

/// Running two runs of polls one after the other is running their
/// concatenation.
pub proof fn lemma_runs_compose(
    state: State,
    a: Seq<(u32, bool)>,
    b: Seq<(u32, bool)>,
    max_wait: u32,
    max_high: u32,
)
    ensures
        run_polls(state, a + b, max_wait, max_high) == if b.len() == 0 {
            run_polls(state, a, max_wait, max_high)
        } else {
            run_polls(run_polls(state, a, max_wait, max_high).state, b, max_wait, max_high)
        },
    decreases b.len(),
{
    if b.len() > 0 {
        lemma_runs_compose(state, a, b.drop_last(), max_wait, max_high);
        assert((a + b).drop_last() =~= a + b.drop_last());
        if b.len() == 1 {
            assert(b.drop_last() =~= Seq::<(u32, bool)>::empty());
            assert(a + b.drop_last() =~= a);
        }
    }
}

/// Any number of polls that find the line still low within the rise-wait
/// limit leave the wait timed from the trigger's release and report nothing.
pub proof fn lemma_rise_held(
    since_us: u32,
    quiet: Seq<(u32, bool)>,
    max_wait: u32,
    max_high: u32,
)
    requires
        forall|i: int|
            0 <= i < quiet.len() ==> !(#[trigger] quiet[i]).1 && elapsed_spec(since_us, quiet[i].0)
                <= max_wait,
    ensures
        run_polls(State::WaitingForEchoRise { since_us }, quiet, max_wait, max_high).state
            == (State::WaitingForEchoRise { since_us }),
        run_polls(State::WaitingForEchoRise { since_us }, quiet, max_wait, max_high).outcome
            == Ok::<Option<u32>, UltrasonicError>(None),
    decreases quiet.len(),
{
    if quiet.len() > 0 {
        let prefix = quiet.drop_last();
        assert forall|i: int| 0 <= i < prefix.len() implies !(#[trigger] prefix[i]).1
            && elapsed_spec(since_us, prefix[i].0) <= max_wait by {
            assert(prefix[i] == quiet[i]);
        }
        lemma_rise_held(since_us, prefix, max_wait, max_high);
        let q = quiet[quiet.len() - 1];
        assert(!q.1 && elapsed_spec(since_us, q.0) <= max_wait);
        lemma_rise_wait(since_us, q.0, max_wait, max_high);
    }
}

/// A ranger that never hears an echo times out on time: after the trigger
/// is released at `since_us`, polls that find the line low within
/// `max_echo_wait_us` report nothing, and the first poll past that limit
/// reports `Timeout` and returns to idle.
pub proof fn lemma_silent_ranger_times_out(
    since_us: u32,
    quiet: Seq<(u32, bool)>,
    late_us: u32,
    max_wait: u32,
    max_high: u32,
)
    requires
        forall|i: int|
            0 <= i < quiet.len() ==> !(#[trigger] quiet[i]).1 && elapsed_spec(since_us, quiet[i].0)
                <= max_wait,
        elapsed_spec(since_us, late_us) > max_wait,
    ensures
        ({
            let last = run_polls(
                State::WaitingForEchoRise { since_us },
                quiet.push((late_us, false)),
                max_wait,
                max_high,
            );
            last.state == State::Idle && last.outcome == Err::<Option<u32>, UltrasonicError>(
                UltrasonicError::Timeout,
            )
        }),
{
    lemma_rise_held(since_us, quiet, max_wait, max_high);
    assert(quiet.push((late_us, false)).drop_last() =~= quiet);
    lemma_rise_wait(since_us, late_us, max_wait, max_high);
}

} // verus!
