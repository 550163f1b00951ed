use micromouse::encoder::{wrapping_delta_u16, TickCounter};

#[test]
fn wrapping_u16_delta_handles_rollover() {
    assert_eq!(wrapping_delta_u16(65_530, 4), 10);
    assert_eq!(wrapping_delta_u16(4, 65_530), -10);
}

#[test]
fn wrapping_delta_without_rollover_is_plain_difference() {
    assert_eq!(wrapping_delta_u16(100, 250), 150);
    assert_eq!(wrapping_delta_u16(250, 100), -150);
    assert_eq!(wrapping_delta_u16(7, 7), 0);
}

#[test]
fn wrapping_delta_at_half_range() {
    assert_eq!(wrapping_delta_u16(0, 32_767), 32_767);
    assert_eq!(wrapping_delta_u16(0, 32_768), -32_768);
    assert_eq!(wrapping_delta_u16(32_768, 0), -32_768);
}

#[test]
fn wrapping_delta_recovers_any_small_step() {
    for previous in [0u16, 1, 1000, 32_767, 40_000, 65_535] {
        for k in [-32_768i32, -5, 0, 3, 32_767] {
            let current = (previous as i32 + k).rem_euclid(65_536) as u16;
            assert_eq!(wrapping_delta_u16(previous, current) as i32, k);
        }
    }
}

#[test]
fn tick_counter_first_reading_gives_zero() {
    let mut t = TickCounter::new();
    assert_eq!(t.update_count(500), 0);
    assert_eq!(t.total_ticks(), 0);
    assert_eq!(t.update_count(530), 30);
    assert_eq!(t.update_count(510), -20);
    assert_eq!(t.total_ticks(), 10);
}

#[test]
fn tick_counter_reset_sets_reference() {
    let mut t = TickCounter::new();
    t.reset(1_000);
    assert_eq!(t.total_ticks(), 0);
    assert_eq!(t.update_count(1_250), 250);
    t.reset(-40);
    assert_eq!(t.total_ticks(), 0);
    assert_eq!(t.update_count(-50), -10);
    assert_eq!(t.total_ticks(), -10);
}

#[test]
fn tick_counter_wrapping_counter_rolls_over() {
    let mut t = TickCounter::new();
    assert_eq!(t.update_wrapping_u16(65_530), 0);
    assert_eq!(t.update_wrapping_u16(4), 10);
    assert_eq!(t.update_wrapping_u16(65_533), -7);
    assert_eq!(t.total_ticks(), 3);
}

#[test]
fn tick_total_is_last_count_minus_baseline() {
    let mut t = TickCounter::new();
    let counts = [100, 140, 90, 300, 250];
    let mut deltas = Vec::new();
    for c in counts {
        deltas.push(t.update_count(c));
    }
    assert_eq!(deltas, vec![0, 40, -50, 210, -50]);
    assert_eq!(t.total_ticks(), 250 - 100);

    t.reset(1_000);
    for c in [1_010, 990, 1_500] {
        t.update_count(c);
    }
    assert_eq!(t.total_ticks(), 1_500 - 1_000);
}
