use micromouse::probe_demo::{ProbeDemo, PWM_PERIOD};

#[test]
fn led_blinks_once_a_second() {
    let mut demo = ProbeDemo::new();
    let mut outs = Vec::new();
    for _ in 0..1000 {
        outs.push(demo.tick());
    }
    // tick n leaves elapsed = n + 1
    assert!(!outs[0].led_high);
    assert!(!outs[498].led_high);
    assert!(outs[499].led_high);
    assert!(outs[998].led_high);
    assert!(!outs[999].led_high);
}

#[test]
fn bridge_pattern_changes_every_two_seconds() {
    let mut demo = ProbeDemo::new();
    let mut outs = Vec::new();
    for _ in 0..8000 {
        outs.push(demo.tick());
    }
    let at = |ms: usize| outs[ms - 1];
    assert!(at(1).in1_high && !at(1).in2_high);
    assert!(!at(2000).in1_high && !at(2000).in2_high);
    assert!(!at(4000).in1_high && at(4000).in2_high);
    assert!(!at(6000).in1_high && !at(6000).in2_high);
    assert!(at(1999).in1_high);
}

#[test]
fn pwm_duty_ramps_up_then_down() {
    let mut demo = ProbeDemo::new();
    let period = PWM_PERIOD as usize;
    for _ in 0..period {
        demo.tick();
    }
    assert_eq!(demo.duty_steps(), 1);
    for _ in 0..period * 49 {
        demo.tick();
    }
    assert_eq!(demo.duty_steps(), 50);
    for _ in 0..period {
        demo.tick();
    }
    assert_eq!(demo.duty_steps(), 49);
    let mut highs = 0;
    for _ in 0..period {
        if demo.tick().pwm_high {
            highs += 1;
        }
    }
    assert_eq!(highs, 49);
    for _ in 0..period * 48 {
        demo.tick();
    }
    assert_eq!(demo.duty_steps(), 0);
    for _ in 0..period {
        demo.tick();
    }
    assert_eq!(demo.duty_steps(), 1);
}
