use scr33ny::config::{
    daemon_timeout, default_date_fmt, default_white, parse_hex_color, ClockStyle, DaemonConfig,
    DisplayConfig, Scale, TextAnimation, WeatherUnits,
};

#[test]
fn parse_hex_color_with_and_without_hash() {
    assert_eq!(parse_hex_color("#ff6b35"), (0xff, 0x6b, 0x35));
    assert_eq!(parse_hex_color("ff6b35"), (0xff, 0x6b, 0x35));
    assert_eq!(parse_hex_color("aaaaaa"), (0xaa, 0xaa, 0xaa));
    assert_eq!(parse_hex_color("#888888"), (0x88, 0x88, 0x88));
}

#[test]
fn parse_hex_color_upper_case_and_plus() {
    assert_eq!(parse_hex_color("#FF6B35"), (0xff, 0x6b, 0x35));
    assert_eq!(parse_hex_color("+0a0b0c"), (0x0a, 0x0b, 0x0c));
}

#[test]
fn parse_hex_color_many_hashes_and_short() {
    assert_eq!(parse_hex_color("##123456"), (0x12, 0x34, 0x56));
    assert_eq!(parse_hex_color("#fff"), (0, 0x0f, 0xff));
}

#[test]
fn parse_hex_color_invalid_is_white() {
    assert_eq!(parse_hex_color("#zzzzzz"), (255, 255, 255));
    assert_eq!(parse_hex_color(""), (255, 255, 255));
    assert_eq!(parse_hex_color("#"), (255, 255, 255));
    assert_eq!(parse_hex_color("+"), (255, 255, 255));
    assert_eq!(parse_hex_color("-ffffff"), (255, 255, 255));
    assert_eq!(parse_hex_color("#1ffffffff"), (255, 255, 255));
}

#[test]
fn parse_hex_color_reads_low_24_bits() {
    assert_eq!(parse_hex_color("#12345678"), (0x34, 0x56, 0x78));
    assert_eq!(parse_hex_color("00000000ff"), (0, 0, 0xff));
}

#[test]
fn hex_roundtrip_examples() {
    for &(r, g, b) in &[(0u8, 0u8, 0u8), (255, 255, 255), (1, 0xab, 0x7f)] {
        let s = format!("#{:02x}{:02x}{:02x}", r, g, b);
        assert_eq!(parse_hex_color(&s), (r, g, b));
    }
}

#[test]
fn defaults_match_documentation() {
    assert_eq!(default_white(), "#ffffff");
    assert_eq!(default_date_fmt(), "%A, %B %d");
    let d = DisplayConfig::default();
    assert_eq!((d.monitor, d.burn_shift, d.shift_interval, d.fps), (0, 2, 120, 30));
    let dm = DaemonConfig::default();
    assert_eq!((dm.enabled, dm.idle_timeout), (false, 300));
    assert_eq!(Scale::default(), Scale::Fit);
    assert_eq!(TextAnimation::default(), TextAnimation::Float);
    assert_eq!(ClockStyle::default(), ClockStyle::Digital);
    assert_eq!(WeatherUnits::default(), WeatherUnits::Metric);
}

#[test]
fn daemon_needs_enabling() {
    assert_eq!(daemon_timeout(&DaemonConfig::default()), None);
    assert_eq!(daemon_timeout(&DaemonConfig { enabled: true, idle_timeout: 42 }), Some(42));
}
