//! The non-graphical side of the overlay gauges: the texts they print, the
//! options they read from a layout, and the gauge types themselves.
use crate::text::{
    chars_of, decimal, lemma_decimal_len, push_char, push_padded, push_signed, push_zeros,
    signed_decimal, zero_pad, zeros,
};
use crate::binary64::{round_div, round_div_u128, scaled_seconds, scaled_seconds_exec, unit};
use vstd::prelude::*;

verus! {

broadcast use vstd::string::group_string_axioms;

// ---------------------------------------------------------------------------
// Lap clock text
/// `m` as an `i32` (saturating at the `i32` bounds), as `f64 as i32` does.
pub open spec fn sat_i32(m: int) -> int {
    if m < i32::MIN {
        i32::MIN as int
    } else if m > i32::MAX {
        i32::MAX as int
    } else {
        m
    }
}

/// `2^62` times a minute.
pub open spec fn minute_units() -> nat {
    60 * unit()
}

/// The whole minutes of the `f64` value `v` of `ms / 1000`, rounded down:
/// `(v / 60.0).floor() as i32`. (`v` is a multiple of its own last binary
/// digit, so the `f64` nearest `v / 60` never crosses a whole number and
/// has the same floor as the exact quotient.)
pub open spec fn lap_minutes(ms: int) -> int {
    let v = scaled_seconds(ms);
    let whole = (v / minute_units()) as int;
    sat_i32(
        if ms < 0 {
            if v % minute_units() == 0 {
                -whole
            } else {
                -whole - 1
            }
        } else {
            whole
        },
    )
}

/// The seconds left over, `v % 60.0` (its magnitude), printed to the
/// hundredth: the exact binary value rounded, an exact half to the even
/// hundredth.
pub open spec fn lap_hundredths(ms: int) -> nat {
    round_div((scaled_seconds(ms) % minute_units()) * 100, unit())
}

/// The seconds field: `c` hundredths as `s.hh`, zero-padded to five
/// characters, the sign included when `negative`.
pub open spec fn seconds_field(negative: bool, c: nat) -> Seq<char> {
    let body = decimal(c / 100) + seq!['.'] + zero_pad(decimal(c % 100), 2);
    if negative {
        seq!['-'] + zero_pad(body, 4)
    } else {
        zero_pad(body, 5)
    }
}

/// A lap time as `format!("{:02}:{:05.2}", mins, secs)` prints it for the
/// `f64` value `v` of `ms / 1000`: the whole minutes of `v`, then `v % 60`
/// (carrying the sign of a negative time) to the hundredth.
pub open spec fn lap_clock_text(ms: int) -> Seq<char> {
    signed_decimal(lap_minutes(ms), 2) + seq![':'] + seconds_field(ms < 0, lap_hundredths(ms))
}

fn push_seconds_field(s: &mut String, negative: bool, c: u64)
    requires
        c <= 6000,
    ensures
        final(s)@ == old(s)@ + seconds_field(negative, c as nat),
{
    let whole = c / 100;
    let frac = c % 100;
    let mut body = String::new();
    push_padded(&mut body, whole, 0);
    push_char(&mut body, '.');
    push_padded(&mut body, frac, 2);
    let ghost b = decimal(whole as nat) + seq!['.'] + zero_pad(decimal(frac as nat), 2);
    proof {
        assert(zero_pad(decimal(whole as nat), 0) == decimal(whole as nat));
        assert(body@ == b);
        lemma_decimal_len(whole as nat);
        lemma_decimal_len(frac as nat);
    }
    let blen = body.as_str().unicode_len();
    if negative {
        push_char(s, '-');
        if blen < 4 {
            push_zeros(s, 4 - blen);
        } else {
            assert(zeros(4 - b.len()) == Seq::<char>::empty());
        }
    } else {
        if blen < 5 {
            push_zeros(s, 5 - blen);
        } else {
            assert(zeros(5 - b.len()) == Seq::<char>::empty());
        }
    }
    crate::text::push_chars(s, &chars_of(body.as_str()));
    proof {
        if negative {
            assert(final(s)@ =~= old(s)@ + (seq!['-'] + (zeros(4 - b.len()) + b)));
        } else {
            assert(final(s)@ =~= old(s)@ + (zeros(5 - b.len()) + b));
        }
    }
}

/// Renders `ms` as `lap_clock_text` describes.
pub fn format_lap_clock(ms: i64) -> (s: String)
    ensures
        s@ == lap_clock_text(ms as int),
{
    let v = scaled_seconds_exec(ms);
    let minute: u128 = 276701161105643274240;
    proof {
        lemma_unit_value();
    }
    let whole = v / minute;
    let r = v % minute;
    assert(whole < 0x10_0000_0000_0000);
    let w = whole as i64;
    let minutes: i64 = if ms < 0 {
        if r == 0 {
            -w
        } else {
            -w - 1
        }
    } else {
        w
    };
    let mins: i64 = if minutes < -2147483648 {
        -2147483648
    } else if minutes > 2147483647 {
        2147483647
    } else {
        minutes
    };
    let c = round_div_u128(r * 100, 0x4000_0000_0000_0000);
    proof {
        lemma_hundredths_bound(r as nat);
    }
    let mut s = String::new();
    push_signed(&mut s, mins, 2);
    push_char(&mut s, ':');
    push_seconds_field(&mut s, ms < 0, c as u64);
    s
}

proof fn lemma_unit_value()
    ensures
        unit() == 0x4000_0000_0000_0000,
        minute_units() == 276701161105643274240,
{
}

/// A remainder below a minute gives at most 6000 hundredths.
proof fn lemma_hundredths_bound(r: nat)
    requires
        r < minute_units(),
    ensures
        round_div(r * 100, unit()) <= 6000,
        (r / unit()) < 60,
{
    assert((r * 100) / unit() < 6000) by (nonlinear_arith)
        requires
            r * 100 < 6000 * unit(),
            unit() > 0,
    ;
    assert(r / unit() < 60) by (nonlinear_arith)
        requires
            r < 60 * unit(),
            unit() > 0,
    ;
}

/// The lap timer's text for a sample's lap time (00:00.00 without one).
pub fn get_lap_timer_text(lap_time_ms: Option<i64>) -> (s: String)
    ensures
        s@ == lap_clock_text(
            match lap_time_ms {
                Some(t) => t as int,
                None => 0,
            },
        ),
{
    let t = match lap_time_ms {
        Some(t) => t,
        None => 0,
    };
    format_lap_clock(t)
}

/// The gap to the best lap: `+`, `-` or a space, then the whole seconds of
/// the `f64` value of `|ms| / 1000` modulo a minute (`(secs % 60.0) as i32`)
/// and the hundredths of the millisecond part (truncated), as `s.hh`.
pub open spec fn diff_text(ms: int) -> Seq<char> {
    let a = if ms < 0 {
        -ms
    } else {
        ms
    };
    seq![
        if ms > 0 {
            '+'
        } else if ms < 0 {
            '-'
        } else {
            ' '
        },
    ] + decimal((scaled_seconds(ms) % minute_units()) / unit()) + seq!['.'] + zero_pad(
        decimal(((a % 1000) / 10) as nat),
        2,
    )
}

/// The advanced lap timer: current lap time, the gap to the best lap, the
/// best lap and the latest laps.
#[derive(Debug, Clone, Copy, PartialEq, Eq)]
pub struct AdvancedLapTimer;

impl AdvancedLapTimer {
    /// The gap text shown under the running lap time.
    pub fn format_diff(ms: i64) -> (s: String)
        requires
            ms > i64::MIN,
        ensures
            s@ == diff_text(ms as int),
    {
        let abs_ms: i64 = if ms < 0 {
            -ms
        } else {
            ms
        };
        let v = scaled_seconds_exec(ms);
        proof {
            lemma_unit_value();
            lemma_hundredths_bound((v % 276701161105643274240) as nat);
        }
        let secs = (v % 276701161105643274240) / 0x4000_0000_0000_0000;
        let millis = (abs_ms % 1000) / 10;
        let mut s = String::new();
        if ms > 0 {
            push_char(&mut s, '+');
        } else if ms < 0 {
            push_char(&mut s, '-');
        } else {
            push_char(&mut s, ' ');
        }
        push_padded(&mut s, secs as u64, 0);
        push_char(&mut s, '.');
        push_padded(&mut s, millis as u64, 2);
        proof {
            assert(zero_pad(decimal(secs as nat), 0) == decimal(secs as nat));
        }
        s
    }

    /// A lap time as `mm:ss.hh`.
    pub fn format_time(ms: i64) -> (s: String)
        ensures
            s@ == lap_clock_text(ms as int),
    {
        format_lap_clock(ms)
    }

    /// The line for a finished lap in the list: `L<lap>: <lap time>`.
    pub fn lap_line(lap_number: u32, duration_ms: i64) -> (s: String)
        ensures
            s@ == seq!['L'] + decimal(lap_number as nat) + seq![':', ' '] + lap_clock_text(
                duration_ms as int,
            ),
    {
        let mut s = String::new();
        push_char(&mut s, 'L');
        push_padded(&mut s, lap_number as u64, 0);
        push_char(&mut s, ':');
        push_char(&mut s, ' ');
        let t = format_lap_clock(duration_ms);
        crate::text::push_chars(&mut s, &chars_of(t.as_str()));
        assert(zero_pad(decimal(lap_number as nat), 0) == decimal(lap_number as nat));
        s
    }

    /// The line for the best lap: `Best (L<lap>): <lap time>`.
    pub fn best_line(lap_number: u32, duration_ms: i64) -> (s: String)
        ensures
            s@ == seq!['B', 'e', 's', 't', ' ', '(', 'L'] + decimal(lap_number as nat) + seq![
                ')',
                ':',
                ' ',
            ] + lap_clock_text(duration_ms as int),
    {
        let mut s = String::new();
        push_char(&mut s, 'B');
        push_char(&mut s, 'e');
        push_char(&mut s, 's');
        push_char(&mut s, 't');
        push_char(&mut s, ' ');
        push_char(&mut s, '(');
        push_char(&mut s, 'L');
        push_padded(&mut s, lap_number as u64, 0);
        push_char(&mut s, ')');
        push_char(&mut s, ':');
        push_char(&mut s, ' ');
        let t = format_lap_clock(duration_ms);
        crate::text::push_chars(&mut s, &chars_of(t.as_str()));
        assert(zero_pad(decimal(lap_number as nat), 0) == decimal(lap_number as nat));
        s
    }

    /// The opacity of the `i`-th listed lap: older laps fade.
    pub fn lap_alpha(i: usize) -> (a: u8)
        requires
            i <= 5,
        ensures
            a == 255 - 50 * i,
    {
        255 - (i as u8) * 50
    }
}

/// A gap and its negation read the same apart from the sign.
pub proof fn law_diff_text_sign(ms: int)
    requires
        ms > 0,
    ensures
        diff_text(-ms).subrange(1, diff_text(-ms).len() as int) == diff_text(ms).subrange(
            1,
            diff_text(ms).len() as int,
        ),
        diff_text(ms)[0] == '+',
        diff_text(-ms)[0] == '-',
{
    assert(diff_text(-ms).subrange(1, diff_text(-ms).len() as int) =~= diff_text(ms).subrange(
        1,
        diff_text(ms).len() as int,
    ));
}

// ---------------------------------------------------------------------------
// Layout options
/// A value in an overlay element's option object, as far as the gauges
/// read it.
#[derive(Debug, Clone, PartialEq, Eq)]
pub enum OptionValue {
    Bool(bool),
    Text(String),
    /// Any other JSON value (number, null, array, object).
    Other,
}

/// The option object of an overlay element: its keys and values in order.
#[derive(Debug, Clone, PartialEq, Eq)]
pub struct OverlayOptions {
    pub entries: Vec<(String, OptionValue)>,
}

/// The value stored under `key`; the first entry wins.
pub open spec fn option_lookup(e: Seq<(String, OptionValue)>, key: Seq<char>) -> Option<OptionValue>
    decreases e.len(),
{
    if e.len() == 0 {
        None
    } else if e[0].0@ == key {
        Some(e[0].1)
    } else {
        option_lookup(e.drop_first(), key)
    }
}

/// The value under `key` in an element's options, if the element has
/// options at all.
pub open spec fn element_option(options: Option<OverlayOptions>, key: Seq<char>) -> Option<OptionValue> {
    match options {
        Some(o) => option_lookup(o.entries@, key),
        None => None,
    }
}

/// A flag option: its value when it is a boolean, else `false`.
pub open spec fn flag_option(options: Option<OverlayOptions>, key: Seq<char>) -> bool {
    match element_option(options, key) {
        Some(OptionValue::Bool(b)) => b,
        _ => false,
    }
}

fn chars_eq(a: &Vec<char>, b: &Vec<char>) -> (r: bool)
    ensures
        r == (a@ == b@),
{
    if a.len() != b.len() {
        return false;
    }
    let mut i: usize = 0;
    while i < a.len()
        invariant
            a@.len() == b@.len(),
            i <= a@.len(),
            forall|j: int| 0 <= j < i ==> a@[j] == b@[j],
        decreases a.len() - i,
    {
        if a[i] != b[i] {
            return false;
        }
        i = i + 1;
    }
    assert(a@ =~= b@);
    true
}

fn lookup(options: &Option<OverlayOptions>, key: &str) -> (r: Option<usize>)
    ensures
        match r {
            Some(i) => options is Some && i < options->0.entries@.len() && element_option(*options, key@)
                == Some(options->0.entries@[i as int].1),
            None => element_option(*options, key@) is None,
        },
{
    match options {
        None => None,
        Some(o) => {
            let k = chars_of(key);
            let mut i: usize = 0;
            assert(o.entries@.skip(0) == o.entries@);
            while i < o.entries.len()
                invariant
                    i <= o.entries@.len(),
                    k@ == key@,
                    *options == Some(*o),
                    option_lookup(o.entries@, key@) == option_lookup(o.entries@.skip(i as int), key@),
                decreases o.entries.len() - i,
            {
                let name = chars_of(o.entries[i].0.as_str());
                assert(o.entries@.skip(i as int)[0] == o.entries@[i as int]);
                assert(o.entries@.skip(i as int).drop_first() == o.entries@.skip(i + 1));
                if chars_eq(&name, &k) {
                    assert(o.entries@[i as int].0@ == key@);
                    assert(option_lookup(o.entries@.skip(i as int), key@) == Some(o.entries@[i as int].1));
                    assert(*options == Some(*o));
                    assert(element_option(*options, key@) == option_lookup(o.entries@, key@));
                    return Some(i);
                }
                i = i + 1;
            }
            None
        },
    }
}

fn flag(options: &Option<OverlayOptions>, key: &str) -> (b: bool)
    ensures
        b == flag_option(*options, key@),
{
    match lookup(options, key) {
        Some(i) => match options {
            Some(o) => match &o.entries[i].1 {
                OptionValue::Bool(b) => *b,
                _ => false,
            },
            None => false,
        },
        None => false,
    }
}

/// The friction-circle g-force gauge.
#[derive(Debug, Clone, Copy, PartialEq, Eq)]
pub struct GForceMeter;

impl GForceMeter {
    /// The gauge's axis options `(invert_x, invert_y, swap_axes)`, each
    /// `false` unless the options hold it as a boolean.
    pub fn extract_options(options: &Option<OverlayOptions>) -> (r: (bool, bool, bool))
        ensures
            r == (
                flag_option(*options, "invert_x"@),
                flag_option(*options, "invert_y"@),
                flag_option(*options, "swap_axes"@),
            ),
    {
        (flag(options, "invert_x"), flag(options, "invert_y"), flag(options, "swap_axes"))
    }
}

// ---------------------------------------------------------------------------
// Engine speed gauge
/// How the engine-speed gauge is drawn.
#[derive(Debug, Clone, Copy, PartialEq, Eq)]
pub enum RpmStyle {
    Bar,
    Dial,
    Leds,
}

/// ASCII lower case of `c`.
pub open spec fn ascii_lower(c: char) -> char {
    if 'A' <= c && c <= 'Z' {
        ((c as u32) + 32) as char
    } else {
        c
    }
}

/// `s` lower-cased is the lower-case ASCII word `w`. (No character but
/// the ASCII letter itself and its capital lower-cases into an ASCII
/// letter other than `k`, so this is `s.to_lowercase() == w` for the words
/// used here.)
pub open spec fn lower_eq(s: Seq<char>, w: Seq<char>) -> bool {
    s.len() == w.len() && forall|i: int| 0 <= i < s.len() ==> ascii_lower(#[trigger] s[i]) == w[i]
}

/// The style a layout names: `dial` or `leds` in any letter case, anything
/// else a bar.
pub open spec fn style_named(s: Seq<char>) -> RpmStyle {
    if lower_eq(s, seq!['d', 'i', 'a', 'l']) {
        RpmStyle::Dial
    } else if lower_eq(s, seq!['l', 'e', 'd', 's']) {
        RpmStyle::Leds
    } else {
        RpmStyle::Bar
    }
}

fn lower_char(c: char) -> (r: char)
    ensures
        r == ascii_lower(c),
{
    if 'A' <= c && c <= 'Z' {
        let u = (c as u32) + 32;
        char_from_ascii(u)
    } else {
        c
    }
}

fn char_from_ascii(u: u32) -> (c: char)
    requires
        u < 128,
    ensures
        c == u as char,
{
    (u as u8) as char
}

fn lower_eq_exec(s: &Vec<char>, w: &Vec<char>) -> (r: bool)
    ensures
        r == lower_eq(s@, w@),
{
    if s.len() != w.len() {
        return false;
    }
    let mut i: usize = 0;
    while i < s.len()
        invariant
            s@.len() == w@.len(),
            i <= s@.len(),
            forall|j: int| 0 <= j < i ==> ascii_lower(#[trigger] s@[j]) == w@[j],
        decreases s.len() - i,
    {
        if lower_char(s[i]) != w[i] {
            return false;
        }
        i = i + 1;
    }
    true
}

impl RpmStyle {
    /// The style a layout's `style` option names.
    pub fn from_str(s: &str) -> (r: Self)
        ensures
            r == style_named(s@),
    {
        let v = chars_of(s);
        let mut dial: Vec<char> = Vec::new();
        dial.push('d');
        dial.push('i');
        dial.push('a');
        dial.push('l');
        let mut leds: Vec<char> = Vec::new();
        leds.push('l');
        leds.push('e');
        leds.push('d');
        leds.push('s');
        assert(dial@ == seq!['d', 'i', 'a', 'l']);
        assert(leds@ == seq!['l', 'e', 'd', 's']);
        if lower_eq_exec(&v, &dial) {
            RpmStyle::Dial
        } else if lower_eq_exec(&v, &leds) {
            RpmStyle::Leds
        } else {
            RpmStyle::Bar
        }
    }

    /// The style's name as a layout stores it.
    pub fn as_str(&self) -> (s: &'static str)
        ensures
            s@ == style_name(*self),
    {
        match self {
            RpmStyle::Bar => {
                proof {
                    reveal_strlit("Bar");
                }
                "Bar"
            },
            RpmStyle::Dial => {
                proof {
                    reveal_strlit("Dial");
                }
                "Dial"
            },
            RpmStyle::Leds => {
                proof {
                    reveal_strlit("Leds");
                }
                "Leds"
            },
        }
    }
}

/// The stored name of a style.
pub open spec fn style_name(s: RpmStyle) -> Seq<char> {
    match s {
        RpmStyle::Bar => seq!['B', 'a', 'r'],
        RpmStyle::Dial => seq!['D', 'i', 'a', 'l'],
        RpmStyle::Leds => seq!['L', 'e', 'd', 's'],
    }
}

/// Reading back a stored style name gives the style.
pub proof fn law_style_name_round_trip(s: RpmStyle)
    ensures
        style_named(style_name(s)) == s,
{
    let n = style_name(s);
    match s {
        RpmStyle::Bar => {
            assert(!lower_eq(n, seq!['d', 'i', 'a', 'l'])) by {
                assert(ascii_lower(n[0]) != 'd');
            }
            assert(!lower_eq(n, seq!['l', 'e', 'd', 's']));
        },
        RpmStyle::Dial => {
            assert(ascii_lower('D') == 'd');
            assert(lower_eq(n, seq!['d', 'i', 'a', 'l']));
        },
        RpmStyle::Leds => {
            assert(ascii_lower('L') == 'l');
            assert(!lower_eq(n, seq!['d', 'i', 'a', 'l'])) by {
                assert(ascii_lower(n[0]) != 'd');
            }
            assert(lower_eq(n, seq!['l', 'e', 'd', 's']));
        },
    }
}

/// The engine-speed gauge.
#[derive(Debug, Clone, Copy, PartialEq, Eq)]
pub struct RpmOverlay;

impl RpmOverlay {
    /// The style option of the gauge: the named style when the options
    /// hold `style` as text, else a bar.
    pub fn extract_style(options: &Option<OverlayOptions>) -> (r: RpmStyle)
        ensures
            r == match element_option(*options, "style"@) {
                Some(OptionValue::Text(t)) => style_named(t@),
                _ => RpmStyle::Bar,
            },
    {
        match lookup(options, "style") {
            Some(i) => match options {
                Some(o) => match &o.entries[i].1 {
                    OptionValue::Text(t) => RpmStyle::from_str(t.as_str()),
                    _ => RpmStyle::Bar,
                },
                None => RpmStyle::Bar,
            },
            None => RpmStyle::Bar,
        }
    }
}

// ---------------------------------------------------------------------------
// Other gauges
/// The plain lap timer.
#[derive(Debug, Clone, Copy, PartialEq, Eq)]
pub struct LapTimer;

/// The track map gauge.
#[derive(Debug, Clone, Copy, PartialEq, Eq)]
pub struct TrackMapOverlay;

/// The throttle bar gauge.
#[derive(Debug, Clone, Copy, PartialEq, Eq)]
pub struct ThrottleBar;

/// Options of the throttle bar.
#[derive(Debug, Clone, Copy, PartialEq, Eq)]
pub struct ThrottleBarConfig {
    /// Draw the brake lamp above the bar.
    pub show_brake: bool,
}

/// The brake lamp is on unless a layout turns it off.
pub fn default_show_brake() -> (b: bool)
    ensures
        b,
{
    true
}

impl Default for ThrottleBarConfig {
    fn default() -> (c: Self)
        ensures
            c.show_brake,
    {
        ThrottleBarConfig { show_brake: default_show_brake() }
    }
}

} // verus!
