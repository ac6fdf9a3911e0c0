use vstd::prelude::*;
use vstd::string::StrSliceExecFns;

use crate::raster::{blue, green, lemma_channels_bits, lemma_pack_channels, red};

verus! {

// ── Screensaver ──────────────────────────────────────────────────────────────

/// How an image is fitted to the screen.
#[derive(Clone, Copy, Debug, PartialEq, Eq, Structural)]
pub enum Scale {
    Fit,
    Fill,
    Original,
}

impl Default for Scale {
    fn default() -> (s: Self)
        ensures
            s == Scale::Fit,
    {
        Scale::Fit
    }
}

/// How the text screensaver moves its text.
#[derive(Clone, Copy, Debug, PartialEq, Eq, Structural)]
pub enum TextAnimation {
    Float,
    Typewriter,
    Fade,
}

impl Default for TextAnimation {
    fn default() -> (a: Self)
        ensures
            a == TextAnimation::Float,
    {
        TextAnimation::Float
    }
}

// ── Widgets ──────────────────────────────────────────────────────────────────

#[derive(Clone, Copy, Debug, PartialEq, Eq, Structural)]
pub enum ClockStyle {
    Digital,
    Analog,
}

impl Default for ClockStyle {
    fn default() -> (s: Self)
        ensures
            s == ClockStyle::Digital,
    {
        ClockStyle::Digital
    }
}

#[derive(Clone, Copy, Debug, PartialEq, Eq, Structural)]
pub enum WeatherUnits {
    Metric,
    Imperial,
}

impl Default for WeatherUnits {
    fn default() -> (u: Self)
        ensures
            u == WeatherUnits::Metric,
    {
        WeatherUnits::Metric
    }
}

// ── Positioning ──────────────────────────────────────────────────────────────

/// A named place along one axis of the screen.
#[derive(Clone, Copy, Debug, PartialEq, Eq, Structural)]
pub enum NamedAnchor {
    Left,
    Center,
    Right,
    Top,
    Bottom,
}

// ── Display ──────────────────────────────────────────────────────────────────

#[derive(Clone, Copy, Debug, PartialEq, Eq, Structural)]
pub struct DisplayConfig {
    /// Monitor index (0 = primary)
    pub monitor: usize,
    /// Anti-burn-in pixel shift in pixels, applied every shift_interval seconds
    pub burn_shift: u32,
    pub shift_interval: u64,
    /// Target frames per second. Lower = less CPU. Blank/image need only 1–2.
    pub fps: u32,
}

impl Default for DisplayConfig {
    fn default() -> (d: Self)
        ensures
            d == (DisplayConfig { monitor: 0, burn_shift: 2, shift_interval: 120, fps: 30 }),
    {
        Self { monitor: 0, burn_shift: 2, shift_interval: 120, fps: 30 }
    }
}

// ── Daemon ───────────────────────────────────────────────────────────────────

#[derive(Clone, Copy, Debug, PartialEq, Eq, Structural)]
pub struct DaemonConfig {
    pub enabled: bool,
    /// Idle timeout in seconds before screensaver activates
    pub idle_timeout: u64,
}

impl Default for DaemonConfig {
    fn default() -> (d: Self)
        ensures
            d == (DaemonConfig { enabled: false, idle_timeout: 300 }),
    {
        Self { enabled: false, idle_timeout: 300 }
    }
}

/// The idle timeout the daemon runs with: none unless the daemon is enabled.
pub fn daemon_timeout(daemon: &DaemonConfig) -> (t: Option<u64>)
    ensures
        t == (if daemon.enabled { Some(daemon.idle_timeout) } else { None::<u64> }),
{
    if !daemon.enabled {
        return None;
    }
    Some(daemon.idle_timeout)
}

// ── Helpers ──────────────────────────────────────────────────────────────────

/// The default color of text and widgets.
pub fn default_white() -> (s: String)
    ensures
        s@ == "#ffffff"@,
{
    "#ffffff".to_string()
}

/// The default format of the date widget.
pub fn default_date_fmt() -> (s: String)
    ensures
        s@ == "%A, %B %d"@,
{
    "%A, %B %d".to_string()
}

/// `s` without its leading `'#'` characters.
pub open spec fn strip_hashes(s: Seq<char>) -> Seq<char>
    decreases s.len(),
{
    if s.len() > 0 && s[0] == '#' {
        strip_hashes(s.drop_first())
    } else {
        s
    }
}

/// Whether `ch` is a hexadecimal digit, in either case.
pub open spec fn is_hex_digit(ch: char) -> bool {
    ('0' <= ch <= '9') || ('a' <= ch <= 'f') || ('A' <= ch <= 'F')
}

/// The value of a hexadecimal digit.
pub open spec fn hex_digit_value(ch: char) -> int {
    if '0' <= ch <= '9' {
        ch as int - '0' as int
    } else if 'a' <= ch <= 'f' {
        ch as int - 'a' as int + 10
    } else {
        ch as int - 'A' as int + 10
    }
}

/// The number that the hexadecimal digits `d` write.
pub open spec fn hex_value(d: Seq<char>) -> int
    decreases d.len(),
{
    if d.len() == 0 {
        0
    } else {
        hex_value(d.drop_last()) * 16 + hex_digit_value(d.last())
    }
}

/// What `u32::from_str_radix(s, 16)` accepts: an optional `'+'`, then one or
/// more hexadecimal digits whose value fits a `u32`.
pub open spec fn parse_hex_u32(s: Seq<char>) -> Option<u32> {
    hex_digits_u32(unsigned_digits(s))
}

/// `s` without one leading `'+'`.
pub open spec fn unsigned_digits(s: Seq<char>) -> Seq<char> {
    if s.len() > 0 && s[0] == '+' {
        s.drop_first()
    } else {
        s
    }
}

/// The value of one or more hexadecimal digits, when it fits a `u32`.
pub open spec fn hex_digits_u32(d: Seq<char>) -> Option<u32> {
    if d.len() > 0 && (forall|i: int| 0 <= i < d.len() ==> is_hex_digit(#[trigger] d[i]))
        && hex_value(d) <= u32::MAX {
        Some(hex_value(d) as u32)
    } else {
        None
    }
}

/// The number a color string stands for: its hexadecimal value once the
/// leading `'#'`s are dropped, white (`0xffffff`) when that does not parse.
pub open spec fn hex_color_value(s: Seq<char>) -> u32 {
    match parse_hex_u32(strip_hashes(s)) {
        Some(n) => n,
        None => 0xffffffu32,
    }
}

/// The lowercase hexadecimal digit of `v`, from 0 to 15.
pub open spec fn hex_char(v: int) -> char {
    if v < 10 {
        ('0' as int + v) as char
    } else {
        ('a' as int + v - 10) as char
    }
}

/// The six lowercase hexadecimal digits `rrggbb` of a color.
pub open spec fn hex6(r: u8, g: u8, b: u8) -> Seq<char> {
    seq![
        hex_char(r as int / 16), hex_char(r as int % 16),
        hex_char(g as int / 16), hex_char(g as int % 16),
        hex_char(b as int / 16), hex_char(b as int % 16),
    ]
}

/// The leading `'#'` of a color is optional.
pub proof fn lemma_hash_optional(s: Seq<char>)
    ensures
        hex_color_value(seq!['#'] + s) == hex_color_value(s),
{
    assert((seq!['#'] + s).drop_first() =~= s);
}

/// Writing a color as `#rrggbb` and parsing it back gives the color.
pub proof fn lemma_hex6_roundtrip(r: u8, g: u8, b: u8)
    ensures
        red(hex_color_value(seq!['#'] + hex6(r, g, b))) == r,
        green(hex_color_value(seq!['#'] + hex6(r, g, b))) == g,
        blue(hex_color_value(seq!['#'] + hex6(r, g, b))) == b,
{
    let d = hex6(r, g, b);
    lemma_hash_optional(d);
    assert(strip_hashes(d) == d);
    assert(unsigned_digits(d) == d);
    assert forall|i: int| 0 <= i < d.len() implies is_hex_digit(#[trigger] d[i]) by {}
    assert forall|i: int| 0 <= i < d.len() implies hex_digit_value(#[trigger] d[i]) == (
        if i == 0 { r as int / 16 } else if i == 1 { r as int % 16 }
        else if i == 2 { g as int / 16 } else if i == 3 { g as int % 16 }
        else if i == 4 { b as int / 16 } else { b as int % 16 }) by {}
    let v = hex_value(d);
    reveal_with_fuel(hex_value, 7);
    assert(d.drop_last().drop_last().drop_last().drop_last().drop_last().drop_last() =~= Seq::<char>::empty());
    assert(v == r as int * 0x10000 + g as int * 0x100 + b as int);
    lemma_pack_channels(r, g, b);
}

proof fn lemma_hex_value_nonneg(d: Seq<char>)
    requires
        forall|i: int| 0 <= i < d.len() ==> is_hex_digit(#[trigger] d[i]),
    ensures
        hex_value(d) >= 0,
    decreases d.len(),
{
    if d.len() > 0 {
        lemma_hex_value_nonneg(d.drop_last());
    }
}

proof fn lemma_hex_value_grows(d: Seq<char>, k: int)
    requires
        0 <= k <= d.len(),
        forall|i: int| 0 <= i < d.len() ==> is_hex_digit(#[trigger] d[i]),
    ensures
        hex_value(d.subrange(0, k)) <= hex_value(d),
    decreases d.len(),
{
    if k == d.len() {
        assert(d.subrange(0, k) =~= d);
    } else {
        lemma_hex_value_grows(d.drop_last(), k);
        lemma_hex_value_nonneg(d.drop_last());
        assert(d.drop_last().subrange(0, k) =~= d.subrange(0, k));
    }
}

fn hex_digit(ch: char) -> (v: Option<u32>)
    ensures
        v == (if is_hex_digit(ch) { Some(hex_digit_value(ch) as u32) } else { None::<u32> }),
{
    if '0' <= ch && ch <= '9' {
        Some(ch as u32 - '0' as u32)
    } else if 'a' <= ch && ch <= 'f' {
        Some(ch as u32 - 'a' as u32 + 10)
    } else if 'A' <= ch && ch <= 'F' {
        Some(ch as u32 - 'A' as u32 + 10)
    } else {
        None
    }
}

/// Parses a color written `"#rrggbb"` or `"rrggbb"` into its channels.
/// Any number of leading `'#'` is dropped; a string that is not a
/// hexadecimal `u32` gives white. Only the low 24 bits are read.
pub fn parse_hex_color(hex: &str) -> (rgb: (u8, u8, u8))
    ensures
        rgb.0 == red(hex_color_value(hex@)),
        rgb.1 == green(hex_color_value(hex@)),
        rgb.2 == blue(hex_color_value(hex@)),
{
    let n = parse_hex(hex);
    proof {
        lemma_channels_bits(n);
    }
    (((n >> 16) & 0xff) as u8, ((n >> 8) & 0xff) as u8, (n & 0xff) as u8)
}

/// The number a color string stands for.
fn parse_hex(hex: &str) -> (n: u32)
    ensures
        n == hex_color_value(hex@),
{
    let len = hex.unicode_len();
    let ghost s = hex@;
    let mut i: usize = 0;
    assert(s.subrange(0, len as int) =~= s);
    while i < len && hex.get_char(i) == '#'
        invariant
            len == s.len(),
            s == hex@,
            0 <= i <= len,
            strip_hashes(s.subrange(i as int, len as int)) == strip_hashes(s),
        decreases len - i,
    {
        assert(s.subrange(i as int, len as int).drop_first() =~= s.subrange(i + 1, len as int));
        i = i + 1;
    }
    let ghost rest = s.subrange(i as int, len as int);
    assert(strip_hashes(rest) == rest);
    if i == len {
        return 0xffffff;
    }
    let mut j = i;
    if hex.get_char(j) == '+' {
        j = j + 1;
    }
    let ghost d = s.subrange(j as int, len as int);
    assert(d =~= unsigned_digits(rest));
    if j == len {
        return 0xffffff;
    }
    let mut v: u32 = 0;
    let mut k = j;
    while k < len
        invariant
            len == s.len(),
            s == hex@,
            i < len,
            j <= k <= len,
            d == s.subrange(j as int, len as int),
            d.len() > 0,
            hex_color_value(s) == match parse_hex_u32(s.subrange(i as int, len as int)) {
                Some(n) => n,
                None => 0xffffffu32,
            },
            parse_hex_u32(s.subrange(i as int, len as int)) == hex_digits_u32(d),
            forall|t: int| 0 <= t < k - j ==> is_hex_digit(#[trigger] d[t]),
            v == hex_value(d.subrange(0, k - j)),
        decreases len - k,
    {
        let ch = hex.get_char(k);
        assert(d[k - j] == ch);
        match hex_digit(ch) {
            None => {
                return 0xffffff;
            }
            Some(dv) => {
                assert(d.subrange(0, k - j + 1).drop_last() =~= d.subrange(0, k - j));
                if v > (u32::MAX - dv) / 16 {
                    proof {
                        if forall|t: int| 0 <= t < d.len() ==> is_hex_digit(#[trigger] d[t]) {
                            lemma_hex_value_grows(d, k - j + 1);
                        }
                    }
                    return 0xffffff;
                }
                v = v * 16 + dv;
                k = k + 1;
            }
        }
    }
    assert(d.subrange(0, d.len() as int) =~= d);
    v
}

} // verus!
