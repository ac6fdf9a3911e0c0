use scr33ny::config::WeatherUnits;
use scr33ny::widget::{clock_text, icon_char, WeatherRefresh};

#[test]
fn clock_text_pads_two_digits() {
    assert_eq!(clock_text(9, 5, 3, true), "09:05:03");
    assert_eq!(clock_text(9, 5, 3, false), "09:05");
    assert_eq!(clock_text(23, 59, 59, true), "23:59:59");
    assert_eq!(clock_text(0, 0, 0, false), "00:00");
}

#[test]
fn icon_char_maps_codes() {
    assert_eq!(icon_char("01d"), "☀");
    assert_eq!(icon_char("02n"), "⛅");
    assert_eq!(icon_char("03d"), "☁");
    assert_eq!(icon_char("04d"), "☁");
    assert_eq!(icon_char("09d"), "🌧");
    assert_eq!(icon_char("10d"), "🌦");
    assert_eq!(icon_char("11d"), "⛈");
    assert_eq!(icon_char("13d"), "❄");
    assert_eq!(icon_char("50d"), "🌫");
    assert_eq!(icon_char("99d"), "~");
    assert_eq!(icon_char(""), "~");
    assert_eq!(icon_char("0"), "~");
}

#[test]
fn weather_refresh_first_frame_then_every_half_hour() {
    let mut r = WeatherRefresh::new();
    assert!(r.tick(0));
    let step = 100_000_000u64; // 0.1 s
    let mut fetches = 0;
    for _ in 0..18_000 {
        if r.tick(step) {
            fetches += 1;
        }
    }
    assert_eq!(fetches, 1);
    assert!(!r.tick(step));
}

#[test]
fn weather_units_names() {
    assert_eq!(WeatherUnits::Metric.query_name(), "metric");
    assert_eq!(WeatherUnits::Imperial.query_name(), "imperial");
    assert_eq!(WeatherUnits::Metric.symbol(), "°C");
    assert_eq!(WeatherUnits::Imperial.symbol(), "°F");
}

use scr33ny::widget::{date_text, LocalTime};

fn march_5_2024() -> LocalTime {
    LocalTime {
        year: 2024,
        month: 3,
        day: 5,
        hour: 14,
        minute: 7,
        second: 9,
        nanosecond: 0,
        utc_offset: 3 * 3600,
    }
}

#[test]
fn date_text_default_format() {
    assert_eq!(date_text(&march_5_2024(), "%A, %B %d").unwrap(), "Tuesday, March 05");
    assert_eq!(date_text(&march_5_2024(), "%Y-%m-%d %H:%M").unwrap(), "2024-03-05 14:07");
}

#[test]
fn date_text_invalid_format_or_date() {
    assert!(date_text(&march_5_2024(), "%Q").is_none());
    let mut bad = march_5_2024();
    bad.month = 13;
    assert!(date_text(&bad, "%d").is_none());
}

use scr33ny::widget::weather_url;

#[test]
fn weather_url_builds_query() {
    assert_eq!(
        weather_url("Berlin", "SECRET-REDACTED", &WeatherUnits::Metric),
        "https://api.openweathermap.org/data/2.5/weather?q=Berlin&appid=SECRET-REDACTED&units=metric"
    );
    assert_eq!(
        weather_url("New York", "k", &WeatherUnits::Imperial),
        "https://api.openweathermap.org/data/2.5/weather?q=New York&appid=k&units=imperial"
    );
}
