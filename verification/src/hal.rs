//! The hardware the drivers need, as traits that a board support layer
//! implements: digital pins, a PWM channel and a microsecond clock.

use vstd::prelude::*;

verus! {

pub trait OutputPin {
    fn set_high(&mut self);

    fn set_low(&mut self);
}

pub trait InputPin {
    fn is_high(&self) -> bool;

    /// Unless an implementation provides its own, the negation of one
    /// reading of `is_high`.
    fn is_low(&self) -> (low: bool)
        default_ensures
            exists|high: bool| #[trigger] call_ensures(Self::is_high, (self,), high) && low == !high,
    {
        !self.is_high()
    }
}

pub trait PwmPin {
    fn max_duty(&self) -> u16;

    fn set_duty(&mut self, duty: u16);
}

pub trait ClockMicros {
    fn now_us(&self) -> u32;
}

} // verus!
