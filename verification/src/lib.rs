//! Verified core of a small differential-drive micromouse robot: maze
//! bookkeeping and flood-fill path planning, encoder tick counting, the
//! ultrasonic ranger's echo state machine, signed motor duty limits, and the
//! probe demo's blink and ramp schedule.

pub mod encoder;
pub mod hal;
pub mod motor;
pub mod probe_demo;
pub mod ultrasonic;
pub mod mapping;
pub mod maze_model;
pub mod flood;
pub mod maze_laws;
mod fixed_queue;
