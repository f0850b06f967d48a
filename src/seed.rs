//! Sample data: rows spread at a fixed pace over a span of time, with the
//! application and the event drawn at random.

use vstd::prelude::*;
use crate::event::{Axis, Button, Event, Record};
use crate::key::{KEY_VERSION, StorageKey, encode_key, key_bytes};

verus! {

/// Draws a value from rand's standard distribution; nothing is promised of it.
pub assume_specification<T>[ rand::random::<T> ]() -> (r: T)
    where
        rand::distributions::Standard: rand::distributions::Distribution<T>,
;

/// The application of sample data for draw `k` (taken modulo 5).
pub open spec fn sample_app_name(k: int) -> Seq<char> {
    if k == 0 {
        "Skyrim"@
    } else if k == 1 {
        "Minecraft"@
    } else if k == 2 {
        "Hatsune Miku Project Diva 2nd Stage"@
    } else if k == 3 {
        "Muse Dash"@
    } else {
        "Tekken 8"@
    }
}

/// The event of sample data for draw `k` (taken modulo 10). A device code
/// holds a usage page in its high half and a usage in its low half.
pub open spec fn sample_event_of(k: int) -> Event {
    if k == 0 {
        Event::AxisChanged(Axis::LeftStickY, 10_417, 0x1_0031)
    } else if k == 1 {
        Event::ButtonPressed(Button::Unknown, 0x9_0008)
    } else if k == 2 {
        Event::ButtonPressed(Button::DPadDown, 0x9_0002)
    } else if k == 3 {
        Event::ButtonPressed(Button::DPadLeft, 0x9_0001)
    } else if k == 4 {
        Event::ButtonPressed(Button::DPadRight, 0x9_0003)
    } else if k == 5 {
        Event::ButtonPressed(Button::DPadUp, 0x9_0000)
    } else if k == 6 {
        Event::ButtonPressed(Button::North, 0x9_0004)
    } else if k == 7 {
        Event::ButtonPressed(Button::East, 0x9_0005)
    } else if k == 8 {
        Event::ButtonPressed(Button::South, 0x9_0006)
    } else {
        Event::ButtonPressed(Button::West, 0x9_0007)
    }
}

/// The device named by sample data.
pub open spec fn sample_pad() -> Seq<char> {
    "PS5 Controller"@
}

/// The application for an application draw.
pub fn sample_app(draw: u32) -> (r: String)
    ensures
        r@ == sample_app_name(draw as int % 5),
{
    let k = draw % 5;
    let name = if k == 0 {
        "Skyrim"
    } else if k == 1 {
        "Minecraft"
    } else if k == 2 {
        "Hatsune Miku Project Diva 2nd Stage"
    } else if k == 3 {
        "Muse Dash"
    } else {
        "Tekken 8"
    };
    name.to_owned()
}

/// The event for an event draw.
pub fn sample_event(draw: usize) -> (r: Event)
    ensures
        r == sample_event_of(draw as int % 10),
{
    let k = draw % 10;
    if k == 0 {
        Event::AxisChanged(Axis::LeftStickY, 10_417, 0x1_0031)
    } else if k == 1 {
        Event::ButtonPressed(Button::Unknown, 0x9_0008)
    } else if k == 2 {
        Event::ButtonPressed(Button::DPadDown, 0x9_0002)
    } else if k == 3 {
        Event::ButtonPressed(Button::DPadLeft, 0x9_0001)
    } else if k == 4 {
        Event::ButtonPressed(Button::DPadRight, 0x9_0003)
    } else if k == 5 {
        Event::ButtonPressed(Button::DPadUp, 0x9_0000)
    } else if k == 6 {
        Event::ButtonPressed(Button::North, 0x9_0004)
    } else if k == 7 {
        Event::ButtonPressed(Button::East, 0x9_0005)
    } else if k == 8 {
        Event::ButtonPressed(Button::South, 0x9_0006)
    } else {
        Event::ButtonPressed(Button::West, 0x9_0007)
    }
}

/// Row `i` of sample data that starts at `start` and steps by `step`
/// milliseconds, for the given draws. Every row has its own instant, so all
/// keys use nonce 0.
pub fn sample_row(start: u128, i: u128, step: u128, app_draw: u32, event_draw: usize) -> (r: (
    Vec<u8>,
    Record,
))
    requires
        start + i * step <= u128::MAX,
    ensures
        r.0@ == key_bytes(
            StorageKey { version: KEY_VERSION, nonce: 0, timestamp: (start + i * step) as u128 },
        ),
        r.1.at == start + i * step,
        r.1.pad@ == sample_pad(),
        r.1.app@ == sample_app_name(app_draw as int % 5),
        r.1.event == sample_event_of(event_draw as int % 10),
{
    proof {
        assert(0 <= i * step) by (nonlinear_arith);
    }
    let at = start + i * step;
    let key = encode_key(StorageKey { version: KEY_VERSION, nonce: 0, timestamp: at });
    let pad = "PS5 Controller".to_owned();
    let record = Record { at, pad, app: sample_app(app_draw), event: sample_event(event_draw) };
    (key, record)
}

/// Row `i` of sample data with a random application and event.
pub fn random_sample_row(start: u128, i: u128, step: u128) -> (r: (Vec<u8>, Record))
    requires
        start + i * step <= u128::MAX,
    ensures
        r.0@ == key_bytes(
            StorageKey { version: KEY_VERSION, nonce: 0, timestamp: (start + i * step) as u128 },
        ),
        r.1.at == start + i * step,
        r.1.pad@ == sample_pad(),
        exists|k: int| 0 <= k < 5 && r.1.app@ == sample_app_name(k),
        exists|k: int| 0 <= k < 10 && r.1.event == sample_event_of(k),
{
    let app_draw: u32 = rand::random::<u32>();
    let event_draw: usize = rand::random::<usize>();
    let r = sample_row(start, i, step, app_draw, event_draw);
    assert(r.1.app@ == sample_app_name(app_draw as int % 5));
    assert(r.1.event == sample_event_of(event_draw as int % 10));
    r
}

} // verus!
