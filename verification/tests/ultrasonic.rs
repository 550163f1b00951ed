use micromouse::hal::{ClockMicros, InputPin, OutputPin};
use micromouse::ultrasonic::{poll_step, State, Ultrasonic, UltrasonicError, TRIGGER_PULSE_US};
use std::cell::Cell;
use std::rc::Rc;

#[derive(Clone)]
struct SharedPin(Rc<Cell<bool>>);

impl OutputPin for SharedPin {
    fn set_high(&mut self) {
        self.0.set(true);
    }

    fn set_low(&mut self) {
        self.0.set(false);
    }
}

impl InputPin for SharedPin {
    fn is_high(&self) -> bool {
        self.0.get()
    }
}

#[derive(Clone)]
struct FakeClock(Rc<Cell<u32>>);

impl ClockMicros for FakeClock {
    fn now_us(&self) -> u32 {
        self.0.get()
    }
}

#[test]
fn poll_step_idle_reports_nothing() {
    let s = poll_step(State::Idle, 123, true, 3_000, 25_000);
    assert_eq!(s.state, State::Idle);
    assert!(!s.release_trigger);
    assert_eq!(s.outcome, Ok(None));
}

#[test]
fn poll_step_releases_trigger_after_pulse() {
    let s = poll_step(State::TriggerHigh { since_us: 100 }, 109, false, 3_000, 25_000);
    assert_eq!(s.state, State::TriggerHigh { since_us: 100 });
    assert!(!s.release_trigger);
    let s = poll_step(State::TriggerHigh { since_us: 100 }, 100 + TRIGGER_PULSE_US, false, 3_000, 25_000);
    assert_eq!(s.state, State::WaitingForEchoRise { since_us: 110 });
    assert!(s.release_trigger);
    assert_eq!(s.outcome, Ok(None));
}

#[test]
fn poll_step_rise_wait_times_out() {
    let state = State::WaitingForEchoRise { since_us: 1_000 };
    assert_eq!(poll_step(state, 4_000, false, 3_000, 25_000).outcome, Ok(None));
    let s = poll_step(state, 4_001, false, 3_000, 25_000);
    assert_eq!(s.state, State::Idle);
    assert_eq!(s.outcome, Err(UltrasonicError::Timeout));
    let s = poll_step(state, 4_001, true, 3_000, 25_000);
    assert_eq!(s.state, State::WaitingForEchoFall { since_us: 4_001 });
}

#[test]
fn poll_step_measures_pulse_across_clock_wrap() {
    let state = State::WaitingForEchoFall { since_us: u32::MAX - 99 };
    let s = poll_step(state, 480, false, 3_000, 25_000);
    assert_eq!(s.state, State::Idle);
    assert_eq!(s.outcome, Ok(Some(580)));
    let s = poll_step(state, 480, true, 3_000, 25_000);
    assert_eq!(s.outcome, Ok(None));
    let s = poll_step(state, 25_000, true, 3_000, 25_000);
    assert_eq!(s.outcome, Err(UltrasonicError::Timeout));
    assert_eq!(s.state, State::Idle);
}

#[test]
fn ranger_runs_a_full_measurement() {
    let trig = Rc::new(Cell::new(false));
    let echo = Rc::new(Cell::new(false));
    let now = Rc::new(Cell::new(5_000u32));
    let mut ranger = Ultrasonic::new(
        SharedPin(trig.clone()),
        SharedPin(echo.clone()),
        FakeClock(now.clone()),
    );
    assert_eq!(ranger.poll(), Ok(None));
    assert_eq!(ranger.start(), Ok(()));
    assert!(trig.get());
    assert_eq!(ranger.start(), Err(UltrasonicError::Busy));
    now.set(5_004);
    assert_eq!(ranger.poll(), Ok(None));
    assert!(trig.get());
    now.set(5_010);
    assert_eq!(ranger.poll(), Ok(None));
    assert!(!trig.get());
    now.set(5_200);
    echo.set(true);
    assert_eq!(ranger.poll(), Ok(None));
    now.set(6_366);
    echo.set(false);
    assert_eq!(ranger.poll(), Ok(Some(1_166)));
    assert_eq!(ranger.state(), State::Idle);
    let (_t, _e, _c) = ranger.release();
}

#[test]
fn ranger_times_out_without_echo() {
    let trig = Rc::new(Cell::new(false));
    let echo = Rc::new(Cell::new(false));
    let now = Rc::new(Cell::new(0u32));
    let mut ranger = Ultrasonic::new(
        SharedPin(trig.clone()),
        SharedPin(echo.clone()),
        FakeClock(now.clone()),
    );
    ranger.start().unwrap();
    now.set(20);
    assert_eq!(ranger.poll(), Ok(None));
    now.set(3_021);
    assert_eq!(ranger.poll(), Err(UltrasonicError::Timeout));
    assert_eq!(ranger.start(), Ok(()));
}

#[test]
fn default_is_low_negates_is_high() {
    let level = Rc::new(Cell::new(true));
    let pin = SharedPin(level.clone());
    assert!(!pin.is_low());
    level.set(false);
    assert!(pin.is_low());
}

#[derive(Clone)]
struct CountingPin {
    level: Rc<Cell<bool>>,
    writes: Rc<Cell<u32>>,
}

impl OutputPin for CountingPin {
    fn set_high(&mut self) {
        self.level.set(true);
        self.writes.set(self.writes.get() + 1);
    }

    fn set_low(&mut self) {
        self.level.set(false);
        self.writes.set(self.writes.get() + 1);
    }
}

#[test]
fn idle_poll_and_busy_start_leave_trigger_alone() {
    let level = Rc::new(Cell::new(false));
    let writes = Rc::new(Cell::new(0u32));
    let now = Rc::new(Cell::new(4_294_967_290u32));
    let mut ranger = Ultrasonic::new(
        CountingPin { level: level.clone(), writes: writes.clone() },
        SharedPin(Rc::new(Cell::new(false))),
        FakeClock(now.clone()),
    );
    assert_eq!(ranger.poll(), Ok(None));
    assert_eq!(writes.get(), 0);
    assert_eq!(ranger.start(), Ok(()));
    assert_eq!(writes.get(), 1);
    assert_eq!(ranger.start(), Err(UltrasonicError::Busy));
    assert_eq!(writes.get(), 1);
    now.set(3);
    assert_eq!(ranger.poll(), Ok(None));
    assert_eq!(writes.get(), 1);
    assert!(level.get());
    now.set(4);
    assert_eq!(ranger.poll(), Ok(None));
    assert_eq!(writes.get(), 2);
    assert!(!level.get());
    assert_eq!(ranger.state(), State::WaitingForEchoRise { since_us: 4 });
}
