use chrono::TimeZone;
use std::fmt::Write;
use vstd::prelude::*;
use vstd::string::StrSliceExecFns;

use crate::config::WeatherUnits;

verus! {

// ── Clock ────────────────────────────────────────────────────────────────────

/// The decimal digit `d` as a character.
pub open spec fn digit_char(d: int) -> char {
    ('0' as int + d) as char
}

/// `v` written with two decimal digits, a leading zero when below ten.
pub open spec fn two_digits(v: u32) -> Seq<char> {
    seq![digit_char(v as int / 10), digit_char(v as int % 10)]
}

/// The text of a digital clock: `HH:MM`, or `HH:MM:SS` when seconds are shown.
pub open spec fn clock_face(hour: u32, minute: u32, second: u32, show_seconds: bool) -> Seq<char> {
    if show_seconds {
        two_digits(hour) + seq![':'] + two_digits(minute) + seq![':'] + two_digits(second)
    } else {
        two_digits(hour) + seq![':'] + two_digits(minute)
    }
}

/// Formats a time of day with chrono's `NaiveTime::format`.
///
/// Trusted: the contract claims that chrono writes `%H`, `%M` and `%S` as
/// two zero-padded decimal digits (its `write_two` with `Pad::Zero`) and
/// copies `':'` as it stands, for the two formats it admits.
#[verifier::external_body]
fn format_time(hour: u32, minute: u32, second: u32, fmt: &str) -> (s: String)
    requires
        hour < 24,
        minute < 60,
        second < 60,
        fmt@ == "%H:%M:%S"@ || fmt@ == "%H:%M"@,
    ensures
        fmt@ == "%H:%M:%S"@ ==> s@ == clock_face(hour, minute, second, true),
        fmt@ == "%H:%M"@ ==> s@ == clock_face(hour, minute, second, false),
{
    chrono::NaiveTime::from_hms_opt(hour, minute, second).unwrap().format(fmt).to_string()
}

/// The text the digital clock shows for the given time of day.
pub fn clock_text(hour: u32, minute: u32, second: u32, show_seconds: bool) -> (s: String)
    requires
        hour < 24,
        minute < 60,
        second < 60,
    ensures
        s@ == clock_face(hour, minute, second, show_seconds),
{
    if show_seconds {
        format_time(hour, minute, second, "%H:%M:%S")
    } else {
        format_time(hour, minute, second, "%H:%M")
    }
}

// ── Date ─────────────────────────────────────────────────────────────────────

/// A local date and time of day, with the offset of the local time zone.
#[derive(Clone, Copy, Debug, PartialEq, Eq, Structural)]
pub struct LocalTime {
    pub year: i32,
    pub month: u32,
    pub day: u32,
    pub hour: u32,
    pub minute: u32,
    pub second: u32,
    pub nanosecond: u32,
    /// Seconds the local time is ahead of UTC.
    pub utc_offset: i32,
}

/// What chrono writes for a local date and time under a strftime format:
/// nothing when the date or the offset is invalid or the format has an
/// error.
pub uninterp spec fn strftime_local(
    year: i32,
    month: u32,
    day: u32,
    hour: u32,
    minute: u32,
    second: u32,
    nanosecond: u32,
    utc_offset: i32,
    fmt: Seq<char>,
) -> Option<Seq<char>>;

/// Formats a local date and time with chrono: `FixedOffset::east_opt`,
/// `NaiveDate::from_ymd_opt(..).and_hms_nano_opt(..)`,
/// `TimeZone::from_local_datetime(..).single()`, then `DateTime::format`
/// written into a `String`, whose error (an invalid format) gives nothing.
///
/// Trusted: the contract only names the result; it states nothing of what
/// chrono writes for each specifier.
#[verifier::external_body]
fn format_local(
    year: i32,
    month: u32,
    day: u32,
    hour: u32,
    minute: u32,
    second: u32,
    nanosecond: u32,
    utc_offset: i32,
    fmt: &str,
) -> (r: Option<String>)
    ensures
        r.deep_view() == strftime_local(year, month, day, hour, minute, second, nanosecond, utc_offset, fmt@),
{
    let offset = chrono::FixedOffset::east_opt(utc_offset)?;
    let naive = chrono::NaiveDate::from_ymd_opt(year, month, day)?.and_hms_nano_opt(hour, minute, second, nanosecond)?;
    let local = offset.from_local_datetime(&naive).single()?;
    let mut text = String::new();
    write!(text, "{}", local.format(fmt)).ok()?;
    Some(text)
}

/// The text the date widget shows for `now` under the format `fmt`; nothing
/// when the format has an error.
pub fn date_text(now: &LocalTime, fmt: &str) -> (r: Option<String>)
    ensures
        r.deep_view() == strftime_local(
            now.year, now.month, now.day, now.hour, now.minute, now.second, now.nanosecond,
            now.utc_offset, fmt@,
        ),
{
    format_local(
        now.year, now.month, now.day, now.hour, now.minute, now.second, now.nanosecond,
        now.utc_offset, fmt,
    )
}

// ── Weather ──────────────────────────────────────────────────────────────────

/// Seconds between two weather fetches.
pub open spec fn refresh_period() -> int {
    1800
}

/// When the weather widget fetches new data: on its first frame, then every
/// 30 minutes.
pub struct WeatherRefresh {
    /// Nanoseconds until the next fetch; zero or less means it is due.
    remaining: i128,
}

impl WeatherRefresh {
    #[verifier::type_invariant]
    spec fn inv(self) -> bool {
        0 <= self.remaining <= refresh_period() * 1_000_000_000
    }

    /// Nanoseconds until the next fetch.
    pub closed spec fn remaining(self) -> int {
        self.remaining as int
    }

    /// A fetch is due at once.
    pub fn new() -> (r: Self)
        ensures
            r.remaining() == 0,
    {
        Self { remaining: 0 }
    }

    /// Lets `dt` nanoseconds pass; returns whether a fetch is due now, and if
    /// so waits a whole period for the next.
    pub fn tick(&mut self, dt: u64) -> (fetch: bool)
        ensures
            fetch == (old(self).remaining() - dt <= 0),
            fetch ==> final(self).remaining() == refresh_period() * 1_000_000_000,
            !fetch ==> final(self).remaining() == old(self).remaining() - dt,
    {
        proof {
            use_type_invariant(&*self);
        }
        let left = self.remaining - dt as i128;
        if left <= 0 {
            self.remaining = 1_800_000_000_000;
            true
        } else {
            self.remaining = left;
            false
        }
    }
}

/// The symbol shown for an OpenWeatherMap icon code.
pub open spec fn icon_symbol(icon: Seq<char>) -> Seq<char> {
    let p = |a: char, b: char| icon.len() >= 2 && icon[0] == a && icon[1] == b;
    if p('0', '1') {
        "☀"@
    } else if p('0', '2') {
        "⛅"@
    } else if p('0', '3') {
        "☁"@
    } else if p('0', '4') {
        "☁"@
    } else if p('0', '9') {
        "🌧"@
    } else if p('1', '0') {
        "🌦"@
    } else if p('1', '1') {
        "⛈"@
    } else if p('1', '3') {
        "❄"@
    } else if p('5', '0') {
        "🌫"@
    } else {
        "~"@
    }
}

/// Map OWM icon codes to Unicode weather symbols
pub fn icon_char(icon: &str) -> (s: &'static str)
    ensures
        s@ == icon_symbol(icon@),
{
    let n = icon.unicode_len();
    if n < 2 {
        return "~";
    }
    let a = icon.get_char(0);
    let b = icon.get_char(1);
    if a == '0' && b == '1' {
        "☀"
    } else if a == '0' && b == '2' {
        "⛅"
    } else if a == '0' && b == '3' {
        "☁"
    } else if a == '0' && b == '4' {
        "☁"
    } else if a == '0' && b == '9' {
        "🌧"
    } else if a == '1' && b == '0' {
        "🌦"
    } else if a == '1' && b == '1' {
        "⛈"
    } else if a == '1' && b == '3' {
        "❄"
    } else if a == '5' && b == '0' {
        "🌫"
    } else {
        "~"
    }
}

/// The `units` parameter of the OpenWeatherMap query for `units`.
pub open spec fn query_text(units: WeatherUnits) -> Seq<char> {
    if units == WeatherUnits::Metric { "metric"@ } else { "imperial"@ }
}

/// The OpenWeatherMap request for the current weather at `location`.
pub open spec fn weather_request(location: Seq<char>, api_key: Seq<char>, units: WeatherUnits) -> Seq<char> {
    "https://api.openweathermap.org/data/2.5/weather?q="@ + location + "&appid="@ + api_key + "&units="@
        + query_text(units)
}

/// The URL that fetches the current weather at `location` with `api_key`,
/// in `units`; the location and key are put in as they are given.
pub fn weather_url(location: &str, api_key: &str, units: &WeatherUnits) -> (url: String)
    ensures
        url@ == weather_request(location@, api_key@, *units),
{
    let mut url = String::from_str("https://api.openweathermap.org/data/2.5/weather?q=");
    url.append(location);
    url.append("&appid=");
    url.append(api_key);
    url.append("&units=");
    url.append(units.query_name());
    url
}

impl WeatherUnits {
    /// The `units` parameter of the OpenWeatherMap query.
    pub fn query_name(&self) -> (s: &'static str)
        ensures
            s@ == query_text(*self),
    {
        match self {
            WeatherUnits::Metric => "metric",
            WeatherUnits::Imperial => "imperial",
        }
    }

    /// The temperature unit shown after the temperature.
    pub fn symbol(&self) -> (s: &'static str)
        ensures
            s@ == (if *self == WeatherUnits::Metric { "°C"@ } else { "°F"@ }),
    {
        match self {
            WeatherUnits::Metric => "°C",
            WeatherUnits::Imperial => "°F",
        }
    }
}

} // verus!
