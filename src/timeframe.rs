//! Query spans and the calendar labels of their buckets.

use vstd::prelude::*;

verus! {

pub const SECOND: u128 = 1_000;
pub const MINUTE: u128 = 60_000;
pub const HOUR: u128 = 3_600_000;
pub const DAY: u128 = 86_400_000;
pub const WEEK: u128 = 604_800_000;
pub const MONTH: u128 = 2_592_000_000;
pub const YEAR: u128 = 31_536_000_000;

/// The span a query looks back over.
#[derive(Clone, Copy, Debug, PartialEq, Eq, Structural)]
pub enum Timeframe {
    Day,
    Week,
    Month,
    Year,
}

/// How a bucket's start instant is shown.
#[derive(Clone, Copy, Debug, PartialEq, Eq, Structural)]
pub enum LabelFormat {
    /// The hour on a 12-hour clock with `am`/`pm`.
    HourOfDay,
    /// The abbreviated weekday name.
    Weekday,
    /// The day of the month.
    DayOfMonth,
    /// The abbreviated month name.
    Month,
}

/// The timeframe a name selects; an unknown name selects a day.
pub open spec fn timeframe_named(s: Seq<char>) -> Timeframe {
    if s == "week"@ {
        Timeframe::Week
    } else if s == "month"@ {
        Timeframe::Month
    } else if s == "year"@ {
        Timeframe::Year
    } else {
        Timeframe::Day
    }
}

pub open spec fn span_of(t: Timeframe) -> u128 {
    match t {
        Timeframe::Day => DAY,
        Timeframe::Week => WEEK,
        Timeframe::Month => MONTH,
        Timeframe::Year => YEAR,
    }
}

pub open spec fn buckets_of(t: Timeframe) -> usize {
    match t {
        Timeframe::Day => 24,
        Timeframe::Week => 7,
        Timeframe::Month => 30,
        Timeframe::Year => 12,
    }
}

pub open spec fn format_of(t: Timeframe) -> LabelFormat {
    match t {
        Timeframe::Day => LabelFormat::HourOfDay,
        Timeframe::Week => LabelFormat::Weekday,
        Timeframe::Month => LabelFormat::DayOfMonth,
        Timeframe::Year => LabelFormat::Month,
    }
}

/// The strftime pattern of a label format.
pub open spec fn pattern_of(f: LabelFormat) -> Seq<char> {
    match f {
        LabelFormat::HourOfDay => "%l %P"@,
        LabelFormat::Weekday => "%a"@,
        LabelFormat::DayOfMonth => "%e"@,
        LabelFormat::Month => "%b"@,
    }
}

/// What chrono makes of the UTC instant `ms` milliseconds after the Unix
/// epoch formatted with `pattern`: `None` where the instant is out of its range.
pub uninterp spec fn utc_label(ms: int, pattern: Seq<char>) -> Option<Seq<char>>;

/// Relies on chrono's `DateTime::<Utc>::from_timestamp_millis`, which gives
/// `None` out of its range, and `DateTime::format` followed by `to_string`,
/// which does not fail on the patterns of `pattern_of`. The text depends on
/// the instant and the pattern alone.
#[verifier::external_body]
fn format_utc(ms: i64, pattern: &str) -> (r: Option<String>)
    requires
        exists|f: LabelFormat| pattern@ == pattern_of(f),
    ensures
        match r {
            Some(s) => utc_label(ms as int, pattern@) == Some(s@),
            None => utc_label(ms as int, pattern@) is None,
        },
{
    match chrono::DateTime::from_timestamp_millis(ms) {
        Some(d) => Some(d.format(pattern).to_string()),
        None => None,
    }
}

/// The label of the instant `ms`: `None` where it cannot be shown as a
/// calendar date.
pub open spec fn label_of(ms: u128, f: LabelFormat) -> Option<Seq<char>> {
    if ms <= i64::MAX {
        utc_label(ms as int, pattern_of(f))
    } else {
        None
    }
}

fn same_text(a: &str, b: &str) -> (r: bool)
    ensures
        r == (a@ == b@),
{
    a.to_owned() == b.to_owned()
}

impl Timeframe {
    /// Reads `day`, `week`, `month` or `year`; anything else means a day.
    pub fn parse(name: &str) -> (r: Timeframe)
        ensures
            r == timeframe_named(name@),
    {
        if same_text(name, "week") {
            Timeframe::Week
        } else if same_text(name, "month") {
            Timeframe::Month
        } else if same_text(name, "year") {
            Timeframe::Year
        } else {
            Timeframe::Day
        }
    }

    /// The length of the span in milliseconds.
    pub fn span(self) -> (r: u128)
        ensures
            r == span_of(self),
    {
        match self {
            Timeframe::Day => DAY,
            Timeframe::Week => WEEK,
            Timeframe::Month => MONTH,
            Timeframe::Year => YEAR,
        }
    }

    /// How many buckets a graph of the span has.
    pub fn buckets(self) -> (r: usize)
        ensures
            r == buckets_of(self),
    {
        match self {
            Timeframe::Day => 24,
            Timeframe::Week => 7,
            Timeframe::Month => 30,
            Timeframe::Year => 12,
        }
    }

    /// How the buckets of a graph of the span are labelled.
    pub fn label_format(self) -> (r: LabelFormat)
        ensures
            r == format_of(self),
    {
        match self {
            Timeframe::Day => LabelFormat::HourOfDay,
            Timeframe::Week => LabelFormat::Weekday,
            Timeframe::Month => LabelFormat::DayOfMonth,
            Timeframe::Year => LabelFormat::Month,
        }
    }
}

impl LabelFormat {
    /// The strftime pattern of the format.
    pub fn pattern(self) -> (r: &'static str)
        ensures
            r@ == pattern_of(self),
    {
        match self {
            LabelFormat::HourOfDay => "%l %P",
            LabelFormat::Weekday => "%a",
            LabelFormat::DayOfMonth => "%e",
            LabelFormat::Month => "%b",
        }
    }
}

/// The label of instant `ms` in format `f`.
pub fn label_at(ms: u128, f: LabelFormat) -> (r: Option<String>)
    ensures
        match r {
            Some(s) => label_of(ms, f) == Some(s@),
            None => label_of(ms, f) is None,
        },
{
    if ms > i64::MAX as u128 {
        return None;
    }
    format_utc(ms as i64, f.pattern())
}

} // verus!
