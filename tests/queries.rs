use coca::event::{Axis, Button, Event, Record};
use coca::key::{encode_key, StorageKey, KEY_VERSION};
use coca::query::{graph, past_time, scan_step, tally_graph, Point, QueryError, ScanStep};
use coca::timeframe::{label_at, LabelFormat, Timeframe, DAY, HOUR, MONTH, WEEK, YEAR};
use coca::usage::{app_stats, applications, bin_of, tally_applications, tally_app_stats, Row, BIN_WIDTH};

const NOW: u128 = 1_700_000_000_000;

fn key_at(t: u128, nonce: u8) -> Vec<u8> {
    encode_key(StorageKey { version: KEY_VERSION, nonce, timestamp: t })
}

fn row(t: u128, nonce: u8, app: &str, event: Event) -> Row {
    Row {
        key: key_at(t, nonce),
        record: Record { at: t, pad: "PS5 Controller".to_string(), app: app.to_string(), event },
    }
}

fn counts(points: &[Point]) -> Vec<u64> {
    points.iter().map(|p| p.count).collect()
}

#[test]
fn applications_scenario_two_apps() {
    // newest first, as a backward scan yields them
    let rows = vec![
        row(9_000, 2, "Minecraft", Event::ButtonPressed(Button::South, 0)),
        row(5_000, 1, "Skyrim", Event::AxisChanged(Axis::LeftStickX, 1, 0)),
        row(1_000, 0, "Skyrim", Event::ButtonReleased(Button::South, 0)),
    ];
    let apps = applications(&rows, 10_000, "day").unwrap();
    let mut got: Vec<(String, u64)> = apps.iter().map(|a| (a.name.clone(), a.presses)).collect();
    got.sort();
    assert_eq!(got, vec![("Minecraft".to_string(), 1), ("Skyrim".to_string(), 2)]);
    assert!(apps.iter().all(|a| a.controller == "PS5 Controller" && a.combos == 0));
}

#[test]
fn applications_stop_at_the_window() {
    let rows = vec![
        row(NOW - 10, 0, "Skyrim", Event::Connected),
        row(NOW - HOUR, 0, "Muse Dash", Event::Disconnected),
        row(NOW - DAY - 1, 0, "Tekken 8", Event::Dropped),
        // past the stop: never read, so its foreign tag does not matter
        Row {
            key: encode_key(StorageKey { version: 0, nonce: 0, timestamp: NOW }),
            record: Record { at: NOW, pad: String::new(), app: "X".to_string(), event: Event::Connected },
        },
    ];
    let apps = applications(&rows, NOW, "day").unwrap();
    let names: Vec<&str> = apps.iter().map(|a| a.name.as_str()).collect();
    assert_eq!(names, vec!["Skyrim", "Muse Dash"]);
    let week = applications(&rows, NOW, "week");
    assert_eq!(week.err(), Some(QueryError::SchemaMismatch));
}

#[test]
fn applications_report_foreign_schema() {
    let mut rows = vec![row(NOW - 5, 0, "Skyrim", Event::Connected)];
    rows.push(Row {
        key: encode_key(StorageKey { version: 2, nonce: 0, timestamp: NOW - 6 }),
        record: Record { at: NOW - 6, pad: String::new(), app: "Skyrim".to_string(), event: Event::Connected },
    });
    assert_eq!(tally_applications(&rows, 0).err(), Some(QueryError::SchemaMismatch));
    rows[1].key = vec![KEY_VERSION, 1, 2];
    assert_eq!(tally_applications(&rows, 0).err(), Some(QueryError::Malformed));
}

#[test]
fn applications_of_nothing_is_empty() {
    assert!(applications(&Vec::new(), NOW, "year").unwrap().is_empty());
}

#[test]
fn empty_day_graph_has_24_distinct_hours() {
    let points = graph(&Vec::new(), NOW, "day").unwrap();
    assert_eq!(points.len(), 24);
    assert!(points.iter().all(|p| p.count == 0));
    let mut labels: Vec<&str> = points.iter().map(|p| p.label.as_str()).collect();
    labels.sort();
    labels.dedup();
    assert_eq!(labels.len(), 24);
    assert_eq!(points[0].at, NOW - DAY);
    assert_eq!(points[23].at, NOW - DAY + 23 * HOUR);
}

#[test]
fn timeframes_select_spans_and_bucket_counts() {
    assert_eq!(graph(&Vec::new(), NOW, "week").unwrap().len(), 7);
    assert_eq!(graph(&Vec::new(), NOW, "month").unwrap().len(), 30);
    assert_eq!(graph(&Vec::new(), NOW, "year").unwrap().len(), 12);
    assert_eq!(graph(&Vec::new(), NOW, "fortnight").unwrap().len(), 24);
    assert_eq!(Timeframe::parse("week").span(), WEEK);
    assert_eq!(Timeframe::parse("month").span(), MONTH);
    assert_eq!(Timeframe::parse("year").span(), YEAR);
    assert_eq!(Timeframe::parse("Day"), Timeframe::Day);
    assert_eq!(Timeframe::parse(""), Timeframe::Day);
}

#[test]
fn graph_buckets_are_half_open_and_exhaustive() {
    let start = NOW - DAY;
    let stamps = [
        NOW + 5,                // in the future: outside every bucket
        NOW - 1,                // last bucket
        start + 3 * HOUR,       // exactly on a boundary: the later bucket
        start + 3 * HOUR - 1,   // the bucket before it
        start + 3 * HOUR - 1,   // twice
        start,                  // first instant of the window
        start - 1,              // older: the scan stops here
        start - 2,
    ];
    let keys: Vec<Vec<u8>> = stamps.iter().enumerate().map(|(i, &t)| key_at(t, i as u8)).collect();
    let points = graph(&keys, NOW, "day").unwrap();
    let c = counts(&points);
    assert_eq!(c[23], 1);
    assert_eq!(c[3], 1);
    assert_eq!(c[2], 2);
    assert_eq!(c[0], 1);
    assert_eq!(c.iter().sum::<u64>(), 5);
}

#[test]
fn graph_week_counts_by_day() {
    let keys: Vec<Vec<u8>> = vec![key_at(NOW - 1, 0), key_at(NOW - DAY - 1, 0), key_at(NOW - 6 * DAY - 1, 0)];
    let points = past_time(&keys, NOW, WEEK, 7, LabelFormat::Weekday).unwrap();
    assert_eq!(counts(&points), vec![1, 0, 0, 0, 0, 1, 1]);
}

#[test]
fn graph_errors() {
    let bad = vec![key_at(NOW - 1, 0), vec![7u8; 18]];
    assert_eq!(graph(&bad, NOW, "day").err(), Some(QueryError::SchemaMismatch));
    let short = vec![vec![KEY_VERSION; 4]];
    assert_eq!(graph(&short, NOW, "day").err(), Some(QueryError::Malformed));
    assert_eq!(graph(&Vec::new(), u128::MAX, "day").err(), Some(QueryError::TimeOutOfRange));
}

#[test]
fn graph_with_no_buckets() {
    let keys = vec![key_at(NOW - 1, 0)];
    assert!(past_time(&keys, NOW, DAY, 0, LabelFormat::HourOfDay).unwrap().is_empty());
}

#[test]
fn tally_uses_given_labels() {
    let labels = vec!["a".to_string(), "b".to_string()];
    let keys = vec![key_at(25, 0), key_at(15, 0), key_at(10, 0), key_at(9, 0)];
    let points = tally_graph(&keys, 10, 10, &labels).unwrap();
    assert_eq!(counts(&points), vec![2, 1]);
    assert_eq!(points[1].label, "b");
    assert_eq!(points[1].at, 20);
}

#[test]
fn window_start_saturates_at_zero() {
    let keys = vec![key_at(5, 0), key_at(0, 0)];
    let points = past_time(&keys, 10, 100, 2, LabelFormat::DayOfMonth).unwrap();
    assert_eq!(points[0].at, 0);
    assert_eq!(counts(&points), vec![2, 0]);
}

#[test]
fn labels_come_from_the_calendar() {
    assert_eq!(label_at(0, LabelFormat::HourOfDay).unwrap(), "12 am");
    assert_eq!(label_at(HOUR, LabelFormat::HourOfDay).unwrap(), " 1 am");
    assert_eq!(label_at(13 * HOUR, LabelFormat::HourOfDay).unwrap(), " 1 pm");
    assert_eq!(label_at(0, LabelFormat::Weekday).unwrap(), "Thu");
    assert_eq!(label_at(0, LabelFormat::DayOfMonth).unwrap(), " 1");
    assert_eq!(label_at(0, LabelFormat::Month).unwrap(), "Jan");
    assert_eq!(label_at(NOW, LabelFormat::Month).unwrap(), "Nov");
    assert!(label_at(i64::MAX as u128 + 1, LabelFormat::Month).is_none());
}

#[test]
fn histogram_bins_floor_the_level() {
    let level = |x: f32| (x * 1_000_000.0).round() as i32;
    assert_eq!(bin_of(level(0.32)), 1);
    assert_eq!(bin_of(level(-0.05)), -1);
    assert_eq!(bin_of(0), 0);
    assert_eq!(bin_of(BIN_WIDTH), 1);
    assert_eq!(bin_of(BIN_WIDTH - 1), 0);
    assert_eq!(bin_of(-BIN_WIDTH), -1);
    assert_eq!(bin_of(-BIN_WIDTH - 1), -2);
    assert_eq!(bin_of(1_000_000), 5);
    assert_eq!(bin_of(-1_000_000), -5);
    assert_eq!(bin_of(i32::MIN), -10_738);
    assert_eq!(bin_of(i32::MAX), 10_737);
}

#[test]
fn app_stats_counts_buttons_and_bins_axes() {
    let rows = vec![
        row(NOW - 1, 0, "Skyrim", Event::ButtonPressed(Button::South, 0)),
        row(NOW - 2, 0, "Skyrim", Event::AxisChanged(Axis::LeftStickX, 320_000, 0)),
        row(NOW - 3, 0, "Minecraft", Event::ButtonPressed(Button::East, 0)),
        row(NOW - 4, 0, "Skyrim", Event::ButtonPressed(Button::North, 0)),
        row(NOW - 5, 0, "Skyrim", Event::ButtonPressed(Button::South, 0)),
        row(NOW - 6, 0, "Skyrim", Event::AxisChanged(Axis::LeftStickX, -50_000, 0)),
        row(NOW - 7, 0, "Skyrim", Event::AxisChanged(Axis::LeftStickX, 390_000, 0)),
        row(NOW - 8, 0, "Skyrim", Event::AxisChanged(Axis::RightZ, 1_000_000, 0)),
        row(NOW - 9, 0, "Skyrim", Event::ButtonReleased(Button::South, 0)),
        row(NOW - DAY - 1, 0, "Skyrim", Event::ButtonPressed(Button::West, 0)),
    ];
    let stats = app_stats(&rows, NOW, "Skyrim".to_string(), "day").unwrap();
    assert_eq!(stats.name, "Skyrim");
    let presses: Vec<(Button, u64)> = stats.presses.iter().map(|b| (b.button, b.presses)).collect();
    assert_eq!(presses, vec![(Button::South, 2), (Button::North, 1)]);
    assert_eq!(stats.axes.len(), 2);
    let lx = &stats.axes[0];
    assert_eq!(lx.axis, Axis::LeftStickX);
    assert_eq!(lx.width, BIN_WIDTH);
    assert_eq!(lx.bins.len(), 2);
    assert_eq!(lx.bins.get(&1), Some(&2));
    assert_eq!(lx.bins.get(&-1), Some(&1));
    assert_eq!(stats.axes[1].axis, Axis::RightZ);
    assert_eq!(stats.axes[1].bins.get(&5), Some(&1));
    assert!(stats.combos.is_empty());
}

#[test]
fn app_stats_of_absent_app_is_empty() {
    let rows = vec![row(NOW - 1, 0, "Skyrim", Event::ButtonPressed(Button::South, 0))];
    let stats = tally_app_stats(&rows, 0, "Muse Dash".to_string()).unwrap();
    assert!(stats.presses.is_empty() && stats.axes.is_empty());
    let bad = vec![Row { key: vec![], record: Record { at: 0, pad: String::new(), app: String::new(), event: Event::Dropped } }];
    assert_eq!(tally_app_stats(&bad, 0, "Skyrim".to_string()).err(), Some(QueryError::Malformed));
}

#[test]
fn scan_step_decides_per_key() {
    assert_eq!(scan_step(&key_at(100, 0), 100), ScanStep::Take(100));
    assert_eq!(scan_step(&key_at(99, 0), 100), ScanStep::Stop);
    assert_eq!(scan_step(&[3u8; 18], 0), ScanStep::Fail(QueryError::SchemaMismatch));
    assert_eq!(scan_step(&[KEY_VERSION; 17], 0), ScanStep::Fail(QueryError::Malformed));
}
