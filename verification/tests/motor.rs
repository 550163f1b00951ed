use micromouse::motor::{clamp_signed_duty, ZeroBehavior};

#[test]
fn signed_duty_is_limited_to_max() {
    assert_eq!(clamp_signed_duty(500, 1000), 500);
    assert_eq!(clamp_signed_duty(1500, 1000), 1000);
    assert_eq!(clamp_signed_duty(-1500, 1000), -1000);
    assert_eq!(clamp_signed_duty(-300, 1000), -300);
    assert_eq!(clamp_signed_duty(i16::MIN, 32_767), -32_767);
    assert_eq!(clamp_signed_duty(7, 0), 0);
}

#[test]
fn zero_behaviors_differ() {
    assert_ne!(ZeroBehavior::Coast, ZeroBehavior::Brake);
}
