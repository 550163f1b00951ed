//! The millisecond schedule of the bench demo that drives a logic-analyser
//! probe: a 1 Hz heartbeat LED, a four-phase direction pattern on the two
//! bridge inputs, and a slow software PWM whose duty ramps up and down.

use vstd::prelude::*;
use vstd::arithmetic::div_mod::{lemma_breakdown, lemma_mod_add_multiples_vanish};

verus! {

/// Software PWM period, in milliseconds (ticks).
pub const PWM_PERIOD: u16 = 50;

/// Pin levels the demo wants after one tick.
#[derive(Clone, Copy, Debug, PartialEq, Eq, Structural)]
pub struct ProbeOutputs {
    pub led_high: bool,
    pub in1_high: bool,
    pub in2_high: bool,
    pub pwm_high: bool,
}

pub struct ProbeDemo {
    pwm_phase: u16,
    duty_steps: u16,
    ramp_up: bool,
    elapsed_ms: u32,
}

pub struct ProbeDemoView {
    pub pwm_phase: u16,
    pub duty_steps: u16,
    pub ramp_up: bool,
    pub elapsed_ms: u32,
}

impl ProbeDemoView {
    /// The PWM phase stays within one period, the duty within the period,
    /// and a rising ramp has room to rise.
    pub open spec fn wf(self) -> bool {
        &&& self.pwm_phase < PWM_PERIOD
        &&& self.duty_steps <= PWM_PERIOD
        &&& self.ramp_up ==> self.duty_steps < PWM_PERIOD
    }

    /// The state one millisecond later.
    pub open spec fn next(self) -> ProbeDemoView {
        let elapsed = if self.elapsed_ms == u32::MAX {
            0u32
        } else {
            (self.elapsed_ms + 1) as u32
        };
        let phase = ((self.pwm_phase + 1) % (PWM_PERIOD as int)) as u16;
        let (duty, up) = if phase != 0 {
            (self.duty_steps, self.ramp_up)
        } else if self.ramp_up {
            ((self.duty_steps + 1) as u16, self.duty_steps + 1 < PWM_PERIOD)
        } else {
            let d = if self.duty_steps == 0 {
                0u16
            } else {
                (self.duty_steps - 1) as u16
            };
            (d, d == 0)
        };
        ProbeDemoView { pwm_phase: phase, duty_steps: duty, ramp_up: up, elapsed_ms: elapsed }
    }

    /// Pin levels after stepping to `self.next()`: the active-low LED is
    /// lit for the first half of every second; the bridge runs forward,
    /// coasts, runs in reverse and coasts for two seconds each; the probe
    /// is high for the first `duty_steps` milliseconds of each period.
    pub open spec fn outputs(self) -> ProbeOutputs {
        let n = self.next();
        let quarter = (n.elapsed_ms / 2000) % 4;
        ProbeOutputs {
            led_high: n.elapsed_ms % 1000 >= 500,
            in1_high: quarter == 0,
            in2_high: quarter == 2,
            pwm_high: n.pwm_phase < self.duty_steps,
        }
    }
}

impl View for ProbeDemo {
    type V = ProbeDemoView;

    closed spec fn view(&self) -> ProbeDemoView {
        ProbeDemoView {
            pwm_phase: self.pwm_phase,
            duty_steps: self.duty_steps,
            ramp_up: self.ramp_up,
            elapsed_ms: self.elapsed_ms,
        }
    }
}

impl ProbeDemo {
    /// The demo at power-up: all counters at zero, the duty about to rise.
    pub fn new() -> (d: Self)
        ensures
            d@.wf(),
            d@.pwm_phase == 0,
            d@.duty_steps == 0,
            d@.ramp_up,
            d@.elapsed_ms == 0,
    {
        Self { pwm_phase: 0, duty_steps: 0, ramp_up: true, elapsed_ms: 0 }
    }

    pub fn duty_steps(&self) -> (d: u16)
        ensures
            d == self@.duty_steps,
    {
        self.duty_steps
    }

    /// Advances the schedule by one millisecond and returns the pin levels
    /// to apply.
    pub fn tick(&mut self) -> (out: ProbeOutputs)
        requires
            old(self)@.wf(),
        ensures
            final(self)@ == old(self)@.next(),
            final(self)@.wf(),
            out == old(self)@.outputs(),
    {
        self.elapsed_ms = self.elapsed_ms.wrapping_add(1);

        let led_high = !(self.elapsed_ms % 1000 < 500);

        let (in1_high, in2_high) = match (self.elapsed_ms / 2000) % 4 {
            0 => (true, false),
            1 => (false, false),
            2 => (false, true),
            _ => (false, false),
        };

        self.pwm_phase = (self.pwm_phase + 1) % PWM_PERIOD;
        let pwm_high = self.pwm_phase < self.duty_steps;

        if self.pwm_phase == 0 {
            if self.ramp_up {
                self.duty_steps += 1;
                if self.duty_steps >= PWM_PERIOD {
                    self.ramp_up = false;
                }
            } else {
                self.duty_steps = self.duty_steps.saturating_sub(1);
                if self.duty_steps == 0 {
                    self.ramp_up = true;
                }
            }
        }
        ProbeOutputs { led_high, in1_high, in2_high, pwm_high }
    }
}

/// Over a whole PWM period the duty moves by exactly one step: up while
/// rising, down while falling, turning at the top and at the bottom.
pub proof fn lemma_duty_moves_once_per_period(s: ProbeDemoView)
    requires
        s.wf(),
        s.pwm_phase == PWM_PERIOD - 1,
    ensures
        s.ramp_up ==> s.next().duty_steps == s.duty_steps + 1,
        !s.ramp_up && s.duty_steps > 0 ==> s.next().duty_steps == s.duty_steps - 1,
        s.next().ramp_up == (if s.ramp_up {
            s.duty_steps + 1 < PWM_PERIOD
        } else {
            s.duty_steps <= 1
        }),
{
}

/// Within a period the duty holds still.
pub proof fn lemma_duty_steady_within_period(s: ProbeDemoView)
    requires
        s.wf(),
        s.pwm_phase < PWM_PERIOD - 1,
    ensures
        s.next().duty_steps == s.duty_steps,
        s.next().ramp_up == s.ramp_up,
        s.next().pwm_phase == s.pwm_phase + 1,
{
}

/// The bridge cycle: with `t` the elapsed time after the tick, the first
/// bridge input is high exactly in the first two seconds of every eight and
/// the second exactly in the third two seconds of every eight.
pub proof fn lemma_bridge_cycle(s: ProbeDemoView)
    requires
        s.wf(),
    ensures
        ({
            let t = s.next().elapsed_ms as int;
            &&& s.outputs().in1_high == (t % 8000 < 2000)
            &&& s.outputs().in2_high == (4000 <= t % 8000 && t % 8000 < 6000)
        }),
{
    let t = s.next().elapsed_ms as int;
    lemma_breakdown(t, 2000, 4);
    assert(0 <= (t / 2000) % 4 < 4);
    assert(0 <= t % 2000 < 2000);
}

/// The bridge pattern repeats every eight seconds: two states whose elapsed
/// times differ by 8000 ms (away from the clock's wrap) give the same bridge
/// levels.
pub proof fn lemma_bridge_period(a: ProbeDemoView, b: ProbeDemoView)
    requires
        a.wf(),
        b.wf(),
        b.elapsed_ms == a.elapsed_ms + 8000,
        b.elapsed_ms < u32::MAX,
    ensures
        a.outputs().in1_high == b.outputs().in1_high,
        a.outputs().in2_high == b.outputs().in2_high,
{
    lemma_bridge_cycle(a);
    lemma_bridge_cycle(b);
    let t = a.next().elapsed_ms as int;
    assert(b.next().elapsed_ms as int == t + 8000);
    lemma_mod_add_multiples_vanish(t, 8000);
}

} // verus!
