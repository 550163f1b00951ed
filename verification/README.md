# micromouse

Firmware pieces for a small differential-drive micromouse on an STM32F103.

- `src/` is the verified library (Verus): the maze and its wall bits, flood
  fill and the choice of the next move, the flood-fill work list, encoder
  tick counting, the ultrasonic ranger's measurement state machine, the
  signed motor duty limit, the probe demo's millisecond schedule, and the
  pin traits the drivers are written against. `maze_model.rs` and
  `flood.rs` state what the maze operations and flood fill mean;
  `maze_laws.rs` proves how they fit together (a recorded wall reads back on
  both sides, shared walls stay consistent, flood-fill costs lead to a goal
  one step at a time).
- `app/` is the board firmware and everything computed in `f32`: PID,
  motion control, the DC motor ramp, wheel odometry and range distances,
  plus the adapters from the STM32 HAL's pins to the library's pin traits.
- `tests/` exercises the library.
