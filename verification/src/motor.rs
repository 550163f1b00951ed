//! Integer side of the DC motor driver: what the driver does at zero speed
//! and how a signed duty request is limited to the configured maximum.

use vstd::prelude::*;

verus! {

/// What the H-bridge does when the commanded duty is (nearly) zero.
#[derive(Clone, Copy, Debug, PartialEq, Eq, Structural)]
pub enum ZeroBehavior {
    Coast,
    Brake,
}

/// A signed duty request limited to `-max_duty ..= max_duty`.
pub fn clamp_signed_duty(duty: i16, max_duty: u16) -> (limited: i16)
    requires
        max_duty <= 32767,
    ensures
        limited == if duty < -(max_duty as int) {
            -(max_duty as int)
        } else if duty > max_duty {
            max_duty as int
        } else {
            duty as int
        },
{
    let max = max_duty as i16;
    if duty < -max {
        -max
    } else if duty > max {
        max
    } else {
        duty
    }
}

} // verus!
