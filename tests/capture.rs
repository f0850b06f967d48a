use coca::event::{Axis, Button, Event, LEVEL_SCALE};
use coca::filter::{focus_name, Capture, FilterState};
use coca::key::{decode_key, KEY_VERSION};

fn level(x: f32) -> i32 {
    (x * LEVEL_SCALE as f32).round() as i32
}

#[test]
fn deadband_spacing_of_persisted_samples() {
    let p = 100_000u32;
    let values = [0, 50_000, 99_999, 100_000, 150_000, 250_001, 200_000, 150_001, -1_000_000];
    let mut filter = FilterState::new();
    let mut kept = Vec::new();
    for &v in values.iter() {
        if filter.screen(Event::AxisChanged(Axis::LeftStickX, v, 0), p) {
            kept.push(v);
        }
    }
    assert_eq!(kept, vec![0, 100_000, 250_001, 150_001, -1_000_000]);
    for pair in kept.windows(2) {
        assert!((pair[1] as i64 - pair[0] as i64).abs() >= p as i64);
    }
}

#[test]
fn skipped_samples_leave_the_baseline() {
    // slow drift in steps under the precision is never persisted
    let mut filter = FilterState::new();
    assert!(filter.screen(Event::ButtonChanged(Button::LeftTrigger2, 0, 0), 50_000));
    for step in 1..10 {
        assert!(!filter.screen(Event::ButtonChanged(Button::LeftTrigger2, step * 5_000, 0), 50_000));
    }
    assert!(filter.screen(Event::ButtonChanged(Button::LeftTrigger2, 50_000, 0), 50_000));
}

#[test]
fn controls_have_separate_baselines() {
    let mut filter = FilterState::new();
    assert!(filter.screen(Event::AxisChanged(Axis::LeftStickX, 500_000, 0), 200_000));
    assert!(filter.screen(Event::AxisChanged(Axis::LeftStickY, 510_000, 0), 200_000));
    assert!(!filter.screen(Event::AxisChanged(Axis::LeftStickX, 520_000, 0), 200_000));
    assert!(filter.screen(Event::ButtonChanged(Button::South, 520_000, 0), 200_000));
    assert!(!filter.screen(Event::ButtonChanged(Button::South, 600_000, 0), 200_000));
}

#[test]
fn zero_precision_keeps_every_sample() {
    let mut filter = FilterState::new();
    for _ in 0..3 {
        assert!(filter.screen(Event::AxisChanged(Axis::RightZ, level(0.25), 0), 0));
    }
}

#[test]
fn discrete_events_are_never_filtered() {
    let mut filter = FilterState::new();
    let events = [
        Event::ButtonPressed(Button::South, 1),
        Event::ButtonPressed(Button::South, 1),
        Event::ButtonReleased(Button::South, 1),
        Event::ButtonRepeated(Button::South, 1),
        Event::Connected,
        Event::Disconnected,
        Event::Dropped,
    ];
    for e in events.iter() {
        assert!(filter.screen(*e, u32::MAX));
    }
}

#[test]
fn capture_names_the_connected_device_and_keys_each_write() {
    let mut capture = Capture::new();
    assert_eq!(capture.device, "?");
    let app = "Skyrim".to_string();
    let first = capture
        .observe(1_000, &"Pad A".to_string(), &app, Event::ButtonPressed(Button::East, 5), 0)
        .unwrap();
    assert_eq!(first.1.pad, "?");
    let connected =
        capture.observe(2_000, &"Pad B".to_string(), &app, Event::Connected, 0).unwrap();
    assert_eq!(connected.1.pad, "Pad B");
    assert_eq!(capture.device, "Pad B");
    let later = capture
        .observe(2_000, &"Pad C".to_string(), &app, Event::AxisChanged(Axis::DPadX, 7, 0), 10)
        .unwrap();
    assert_eq!(later.1.pad, "Pad B");
    assert_eq!(later.1.app, "Skyrim");
    assert_eq!(later.1.at, 2_000);
    let k1 = decode_key(&connected.0, KEY_VERSION).unwrap();
    let k2 = decode_key(&later.0, KEY_VERSION).unwrap();
    assert_eq!((k1.timestamp, k1.nonce), (2_000, 1));
    assert_eq!((k2.timestamp, k2.nonce), (2_000, 2));
    assert!(connected.0 < later.0);
    // a filtered sample yields nothing and takes no nonce
    let none =
        capture.observe(3_000, &"Pad B".to_string(), &app, Event::AxisChanged(Axis::DPadX, 9, 0), 10);
    assert!(none.is_none());
    assert_eq!(capture.writer.nonce, 3);
}

#[test]
fn untitled_window_is_named_windows() {
    assert_eq!(focus_name(String::new()), "Windows");
    assert_eq!(focus_name("Tekken 8".to_string()), "Tekken 8");
}
