use curtain_motor::{CommandError, Direction, Fraction, Motion, MotorController, Phase, Signal};

const PREFIX: &str = "/curtains/aa:bb:cc:dd:ee:ff";

fn ready(steps_to_fully_open: i16) -> MotorController {
    let mut controller = MotorController::new(steps_to_fully_open, PREFIX);
    let mut motion = controller.home();
    motion.drain();
    controller.commit(motion);
    controller
}

fn run(controller: &mut MotorController, mut motion: Motion) -> Vec<Signal> {
    let signals = motion.drain();
    assert!(motion.is_done());
    controller.commit(motion);
    signals
}

fn pulses(signals: &[Signal]) -> usize {
    signals.iter().filter(|s| **s == Signal::StepHigh).count()
}

fn topic(path: &str) -> String {
    format!("{}{}", PREFIX, path)
}

fn fraction(text: &str) -> Fraction {
    Fraction::parse(text.as_bytes()).unwrap()
}

#[test]
fn a_new_controller_is_homing_at_zero() {
    let controller = MotorController::new(4600, PREFIX);
    assert_eq!(controller.phase(), Phase::Homing);
    assert_eq!(controller.position(), 0);
    assert_eq!(controller.steps_to_fully_open(), 4600);
}

#[test]
fn homing_runs_the_whole_travel_in_reverse() {
    let mut controller = MotorController::new(4600, PREFIX);
    let mut motion = controller.home();
    assert!(motion.is_homing());
    assert_eq!(motion.steps(), -4600);
    let signals = motion.drain();
    assert_eq!(signals[0], Signal::Turn(Direction::Reverse));
    assert_eq!(pulses(&signals), 4600);
    assert_eq!(controller.phase(), Phase::Homing);
    controller.commit(motion);
    assert_eq!(controller.phase(), Phase::Ready);
    assert_eq!(controller.position(), 0);
}

#[test]
fn homing_sets_zero_wherever_the_position_was() {
    for start in [0i16, 1, 2300, 4599, 4600] {
        let mut controller = MotorController::new(4600, PREFIX);
        let moved = controller.step(start);
        run(&mut controller, moved);
        assert_eq!(controller.position(), start);
        let homing = controller.home();
        run(&mut controller, homing);
        assert_eq!(controller.position(), 0);
        assert_eq!(controller.phase(), Phase::Ready);
    }
}

#[test]
fn a_step_moves_the_position_by_its_count() {
    let mut controller = ready(4600);
    let motion = controller.step(100);
    assert!(!motion.is_homing());
    assert_eq!(motion.steps(), 100);
    let signals = run(&mut controller, motion);
    assert_eq!(signals[0], Signal::Turn(Direction::Forward));
    assert_eq!(pulses(&signals), 100);
    assert_eq!(controller.position(), 100);
    let back = controller.step(-30);
    let signals = run(&mut controller, back);
    assert_eq!(signals[0], Signal::Turn(Direction::Reverse));
    assert_eq!(pulses(&signals), 30);
    assert_eq!(controller.position(), 70);
}

#[test]
fn the_position_does_not_move_before_the_motion_is_committed() {
    let mut controller = ready(4600);
    let mut motion = controller.step(10);
    assert_eq!(controller.position(), 0);
    while motion.next_signal().is_some() {
        assert_eq!(controller.position(), 0);
    }
    assert_eq!(controller.position(), 0);
    controller.commit(motion);
    assert_eq!(controller.position(), 10);
}

#[test]
fn a_step_of_zero_changes_nothing() {
    let mut controller = ready(4600);
    let first = controller.step(1234);
    run(&mut controller, first);
    let motion = controller.step(0);
    let signals = run(&mut controller, motion);
    assert_eq!(signals, vec![Signal::Turn(Direction::Reverse)]);
    assert_eq!(controller.position(), 1234);
}

#[test]
fn the_position_is_clamped_at_both_ends() {
    let mut controller = ready(4600);
    let motion = controller.step(-5);
    let signals = run(&mut controller, motion);
    assert_eq!(pulses(&signals), 5);
    assert_eq!(controller.position(), 0);
    let motion = controller.step(4590);
    run(&mut controller, motion);
    let motion = controller.step(20);
    let signals = run(&mut controller, motion);
    assert_eq!(pulses(&signals), 20);
    assert_eq!(controller.position(), 4600);
    let motion = controller.step(i16::MAX);
    run(&mut controller, motion);
    assert_eq!(controller.position(), 4600);
    let motion = controller.step(i16::MIN);
    run(&mut controller, motion);
    assert_eq!(controller.position(), 0);
}

#[test]
fn the_position_stays_within_the_travel_through_many_commands() {
    let mut controller = ready(100);
    let mut seed: u32 = 12345;
    for round in 0..400 {
        seed = seed.wrapping_mul(1103515245).wrapping_add(12345);
        let value = ((seed >> 16) % 301) as i16 - 150;
        let before = controller.position();
        let motion = if round % 3 == 0 {
            let text = format!("{}.{:02}", value.unsigned_abs() / 100, value.unsigned_abs() % 100);
            controller.set_position(&fraction(&text))
        } else {
            controller.step(value)
        };
        let expected = (before as i32 + motion.steps() as i32).clamp(0, 100) as i16;
        run(&mut controller, motion);
        assert!(0 <= controller.position() && controller.position() <= 100);
        assert_eq!(controller.position(), expected);
    }
}

#[test]
fn set_position_moves_by_the_difference() {
    let mut controller = ready(4600);
    let motion = controller.set_position(&fraction("0.5"));
    assert_eq!(motion.steps(), 2300);
    run(&mut controller, motion);
    assert_eq!(controller.position(), 2300);
    let motion = controller.set_position(&fraction("0.25"));
    assert_eq!(motion.steps(), -1150);
    let signals = run(&mut controller, motion);
    assert_eq!(signals[0], Signal::Turn(Direction::Reverse));
    assert_eq!(pulses(&signals), 1150);
    assert_eq!(controller.position(), 1150);
    let motion = controller.set_position(&fraction("0.25"));
    assert_eq!(motion.steps(), 0);
    run(&mut controller, motion);
    assert_eq!(controller.position(), 1150);
}

#[test]
fn set_position_reaches_the_nearest_step() {
    let mut controller = ready(4600);
    for (text, steps) in [
        ("0", 0i16),
        ("1", 4600),
        ("0.5", 2300),
        ("0.47826", 2200),
        ("0.3333", 1533),
        ("0.0001", 0),
        ("0.00011", 1),
        ("0.99999", 4600),
        ("0.9998", 4599),
    ] {
        let motion = controller.set_position(&fraction(text));
        run(&mut controller, motion);
        assert_eq!(controller.position(), steps, "{}", text);
    }
}

#[test]
fn set_position_reads_back_within_one_step() {
    let full: i64 = 4600;
    let mut controller = ready(full as i16);
    for thousandths in 0..=1000i64 {
        let text = format!("{}.{:03}", thousandths / 1000, thousandths % 1000);
        let motion = controller.set_position(&fraction(&text));
        run(&mut controller, motion);
        let read = controller.position() as i64;
        // |read / full - thousandths / 1000| <= 1 / full
        assert!((read * 1000 - thousandths * full).abs() <= 1000, "{}", text);
    }
}

#[test]
fn set_position_takes_a_target_with_an_exponent() {
    let mut controller = ready(4600);
    let motion = controller
        .dispatch(&topic("/set-position"), b"2.5e-1")
        .unwrap();
    assert_eq!(motion.steps(), 1150);
    run(&mut controller, motion);
    assert_eq!(controller.position(), 1150);
    let motion = controller
        .dispatch(&topic("/set-position"), b"1e-05")
        .unwrap();
    assert_eq!(motion.steps(), -1150);
    run(&mut controller, motion);
    assert_eq!(controller.position(), 0);
    let motion = controller.set_position(&fraction("1e300"));
    assert_eq!(motion.steps(), i16::MAX);
    run(&mut controller, motion);
    assert_eq!(controller.position(), 4600);
}

#[test]
fn a_target_outside_the_travel_ends_at_the_end() {
    let mut controller = ready(4600);
    let motion = controller.set_position(&fraction("2"));
    assert_eq!(motion.steps(), 9200);
    let signals = run(&mut controller, motion);
    assert_eq!(pulses(&signals), 9200);
    assert_eq!(controller.position(), 4600);
    let motion = controller.set_position(&fraction("-1"));
    assert_eq!(motion.steps(), -9200);
    run(&mut controller, motion);
    assert_eq!(controller.position(), 0);
}

#[test]
fn a_far_target_gives_the_longest_motion() {
    let mut controller = ready(4600);
    let motion = controller.set_position(&fraction("1000000"));
    assert_eq!(motion.steps(), i16::MAX);
    run(&mut controller, motion);
    assert_eq!(controller.position(), 4600);
    let motion = controller.set_position(&fraction("-1000000"));
    assert_eq!(motion.steps(), i16::MIN);
    run(&mut controller, motion);
    assert_eq!(controller.position(), 0);
    let motion = controller.set_position(&fraction("7.5"));
    assert_eq!(motion.steps(), i16::MAX);
    let up = controller.step(4600);
    run(&mut controller, up);
    let motion = controller.set_position(&fraction("-6.5"));
    assert_eq!(motion.steps(), i16::MIN);
    let motion = controller.set_position(&fraction("-6"));
    assert_eq!(motion.steps(), -32200);
}

#[test]
fn dispatch_step_with_a_bad_payload_changes_nothing() {
    let mut controller = ready(4600);
    let first = controller.step(500);
    run(&mut controller, first);
    let outcome = controller.dispatch(&topic("/step"), b"notanumber");
    assert_eq!(outcome.err(), Some(CommandError::Decode));
    assert_eq!(controller.position(), 500);
    assert_eq!(controller.phase(), Phase::Ready);
}

#[test]
fn dispatch_set_position_with_a_bad_payload_changes_nothing() {
    let mut controller = ready(4600);
    let first = controller.step(500);
    run(&mut controller, first);
    let outcome = controller.dispatch(&topic("/set-position"), b"half");
    assert_eq!(outcome.err(), Some(CommandError::Decode));
    let outcome = controller.dispatch(&topic("/set-position"), &[0x30, 0x2e, 0xff]);
    assert_eq!(outcome.err(), Some(CommandError::Decode));
    assert_eq!(controller.position(), 500);
}

#[test]
fn dispatch_to_an_unknown_topic_changes_nothing() {
    let mut controller = ready(4600);
    let first = controller.step(500);
    run(&mut controller, first);
    let outcome = controller.dispatch(&topic("/unknown"), b"100");
    assert_eq!(outcome.err(), Some(CommandError::UnknownTopic));
    let outcome = controller.dispatch(&topic("/position"), b"0.5");
    assert_eq!(outcome.err(), Some(CommandError::UnknownTopic));
    assert_eq!(controller.position(), 500);
}

#[test]
fn dispatch_step_gives_the_motion() {
    let mut controller = ready(4600);
    let motion = controller.dispatch(&topic("/step"), b"250").unwrap();
    assert_eq!(motion.steps(), 250);
    assert!(!motion.is_homing());
    let signals = run(&mut controller, motion);
    assert_eq!(pulses(&signals), 250);
    assert_eq!(controller.position(), 250);
}

#[test]
fn a_message_after_a_dropped_one_is_handled() {
    let mut controller = ready(4600);
    assert!(controller.dispatch(&topic("/step"), b"x").is_err());
    let motion = controller.dispatch(&topic("/step"), b"12").unwrap();
    run(&mut controller, motion);
    assert_eq!(controller.position(), 12);
}

#[test]
fn half_open_then_a_hundred_steps_back() {
    let mut controller = ready(4600);
    assert_eq!(controller.position(), 0);
    let motion = controller
        .dispatch(&topic("/set-position"), b"0.5")
        .unwrap();
    assert_eq!(motion.steps(), 2300);
    let signals = run(&mut controller, motion);
    assert_eq!(signals[0], Signal::Turn(Direction::Forward));
    assert_eq!(pulses(&signals), 2300);
    assert_eq!(signals.len(), 1 + 4 * 2300);
    assert_eq!(controller.position(), 2300);
    assert_eq!(
        controller.position() as f64 / controller.steps_to_fully_open() as f64,
        0.5
    );
    let motion = controller.dispatch(&topic("/step"), b"-100").unwrap();
    let signals = run(&mut controller, motion);
    assert_eq!(signals[0], Signal::Turn(Direction::Reverse));
    assert_eq!(pulses(&signals), 100);
    assert_eq!(controller.position(), 2200);
    let read = controller.position() as f64 / controller.steps_to_fully_open() as f64;
    assert!((read - 0.47826).abs() < 0.00001);
    assert!((read - (0.5 - 100.0 / 4600.0)).abs() < 1e-12);
}

#[test]
fn draining_gives_what_is_left() {
    let controller = ready(4600);
    let mut motion = controller.step(2);
    assert_eq!(motion.next_signal(), Some(Signal::Turn(Direction::Forward)));
    assert_eq!(motion.next_signal(), Some(Signal::StepHigh));
    assert!(!motion.is_done());
    assert_eq!(
        motion.drain(),
        vec![
            Signal::Hold(700),
            Signal::StepLow,
            Signal::Hold(700),
            Signal::StepHigh,
            Signal::Hold(700),
            Signal::StepLow,
            Signal::Hold(700),
        ]
    );
    assert!(motion.is_done());
    assert_eq!(motion.drain(), vec![]);
    assert_eq!(motion.next_signal(), None);
    assert_eq!(motion.steps(), 2);
}

#[test]
fn running_a_motion_records_the_signals_and_then_moves_the_position() {
    let mut controller = ready(4600);
    let mut lines = vec![Signal::StepLow];
    let motion = controller.step(2);
    controller.run(motion, &mut lines);
    assert_eq!(
        lines,
        vec![
            Signal::StepLow,
            Signal::Turn(Direction::Forward),
            Signal::StepHigh,
            Signal::Hold(700),
            Signal::StepLow,
            Signal::Hold(700),
            Signal::StepHigh,
            Signal::Hold(700),
            Signal::StepLow,
            Signal::Hold(700),
        ]
    );
    assert_eq!(controller.position(), 2);
    assert_eq!(controller.phase(), Phase::Ready);
}

#[test]
fn running_a_motion_that_was_begun_records_the_rest() {
    let mut controller = ready(4600);
    let mut motion = controller.step(-1);
    assert_eq!(motion.next_signal(), Some(Signal::Turn(Direction::Reverse)));
    assert_eq!(motion.next_signal(), Some(Signal::StepHigh));
    let mut lines = Vec::new();
    controller.run(motion, &mut lines);
    assert_eq!(
        lines,
        vec![Signal::Hold(700), Signal::StepLow, Signal::Hold(700)]
    );
    assert_eq!(controller.position(), 0);
}

#[test]
fn running_the_homing_motion_makes_the_controller_ready() {
    let mut controller = MotorController::new(50, PREFIX);
    let up = controller.step(20);
    let mut lines = Vec::new();
    controller.run(up, &mut lines);
    assert_eq!(controller.position(), 20);
    assert_eq!(controller.phase(), Phase::Homing);
    lines.clear();
    let homing = controller.home();
    controller.run(homing, &mut lines);
    assert_eq!(lines.len(), 1 + 4 * 50);
    assert_eq!(lines[0], Signal::Turn(Direction::Reverse));
    assert_eq!(controller.position(), 0);
    assert_eq!(controller.phase(), Phase::Ready);
}
