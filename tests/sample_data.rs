use coca::event::{Axis, Button, Event};
use coca::key::{decode_key, KEY_VERSION};
use coca::seed::{random_sample_row, sample_app, sample_event, sample_row};

const APPS: [&str; 5] = ["Skyrim", "Minecraft", "Hatsune Miku Project Diva 2nd Stage", "Muse Dash", "Tekken 8"];

#[test]
fn draws_pick_apps_and_events() {
    assert_eq!(sample_app(0), "Skyrim");
    assert_eq!(sample_app(6), "Minecraft");
    assert_eq!(sample_app(u32::MAX), "Skyrim");
    assert_eq!(sample_app(4), "Tekken 8");
    assert_eq!(sample_event(0), Event::AxisChanged(Axis::LeftStickY, 10_417, 0x1_0031));
    assert_eq!(sample_event(12), Event::ButtonPressed(Button::DPadDown, 0x9_0002));
    assert_eq!(sample_event(19), Event::ButtonPressed(Button::West, 0x9_0007));
}

#[test]
fn sample_rows_step_through_time() {
    let (key, record) = sample_row(1_000, 3, 100, 3, 8);
    assert_eq!(record.at, 1_300);
    assert_eq!(record.app, "Muse Dash");
    assert_eq!(record.pad, "PS5 Controller");
    assert_eq!(record.event, Event::ButtonPressed(Button::South, 0x9_0006));
    let k = decode_key(&key, KEY_VERSION).unwrap();
    assert_eq!((k.timestamp, k.nonce), (1_300, 0));
}

#[test]
fn random_rows_use_known_apps() {
    for i in 0..50u128 {
        let (key, record) = random_sample_row(5_000, i, 100);
        assert!(APPS.contains(&record.app.as_str()));
        assert_eq!(decode_key(&key, KEY_VERSION).unwrap().timestamp, 5_000 + i * 100);
    }
}
