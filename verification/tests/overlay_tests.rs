use track_overlay::overlay::{
    default_show_brake, format_lap_clock, get_lap_timer_text, AdvancedLapTimer, GForceMeter,
    OptionValue, OverlayOptions, RpmOverlay, RpmStyle, ThrottleBarConfig,
};

fn options(entries: &[(&str, OptionValue)]) -> Option<OverlayOptions> {
    Some(OverlayOptions {
        entries: entries
            .iter()
            .map(|(k, v)| (k.to_string(), v.clone()))
            .collect(),
    })
}

fn test_element_options() -> Option<OverlayOptions> {
    options(&[
        ("invert_x", OptionValue::Bool(false)),
        ("invert_y", OptionValue::Bool(false)),
        ("swap_axes", OptionValue::Bool(false)),
    ])
}

#[test]
fn test_get_lap_timer_text() {
    assert_eq!(get_lap_timer_text(None), "00:00.00");
    // 150500 ms -> 150.5 s -> 2 mins, 30.5 secs
    assert_eq!(get_lap_timer_text(Some(150500)), "02:30.50");
}

#[test]
fn lap_clock_rounds_to_the_hundredth() {
    assert_eq!(format_lap_clock(0), "00:00.00");
    assert_eq!(format_lap_clock(65432), "01:05.43");
    assert_eq!(format_lap_clock(59994), "00:59.99");
    assert_eq!(format_lap_clock(59999), "00:60.00");
    assert_eq!(format_lap_clock(3600000), "60:00.00");
    assert_eq!(format_lap_clock(123456789), "2057:36.79");
}

#[test]
fn lap_clock_of_negative_times() {
    assert_eq!(format_lap_clock(-1500), "-1:-1.50");
    assert_eq!(format_lap_clock(-61234), "-2:-1.23");
    assert_eq!(format_lap_clock(-60000), "-1:-0.00");
}

#[test]
fn lap_clock_minutes_saturate_at_i32() {
    let s = format_lap_clock(i64::MAX);
    assert!(s.starts_with("2147483647:"));
    let s = format_lap_clock(i64::MIN);
    assert!(s.starts_with("-2147483648:-"));
}

#[test]
fn advanced_timer_formats_gaps() {
    assert_eq!(AdvancedLapTimer::format_diff(0), " 0.00");
    assert_eq!(AdvancedLapTimer::format_diff(1234), "+1.23");
    assert_eq!(AdvancedLapTimer::format_diff(-1234), "-1.23");
    assert_eq!(AdvancedLapTimer::format_diff(61999), "+1.99");
    assert_eq!(AdvancedLapTimer::format_diff(-59999), "-59.99");
    assert_eq!(AdvancedLapTimer::format_diff(125678), "+5.67");
}

#[test]
fn advanced_timer_formats_lap_times_and_lines() {
    assert_eq!(AdvancedLapTimer::format_time(150500), "02:30.50");
    assert_eq!(AdvancedLapTimer::lap_line(3, 95120), "L3: 01:35.12");
    assert_eq!(AdvancedLapTimer::best_line(12, 61000), "Best (L12): 01:01.00");
}

#[test]
fn older_laps_fade() {
    assert_eq!(AdvancedLapTimer::lap_alpha(0), 255);
    assert_eq!(AdvancedLapTimer::lap_alpha(1), 205);
    assert_eq!(AdvancedLapTimer::lap_alpha(2), 155);
    assert_eq!(AdvancedLapTimer::lap_alpha(5), 5);
}

#[test]
fn test_extract_options() {
    let mut el = test_element_options();
    let (inv_x, inv_y, swap) = GForceMeter::extract_options(&el);
    assert!(!inv_x);
    assert!(!inv_y);
    assert!(!swap);

    el = options(&[
        ("invert_x", OptionValue::Bool(true)),
        ("swap_axes", OptionValue::Bool(true)),
    ]);

    let (inv_x, inv_y, swap) = GForceMeter::extract_options(&el);
    assert!(inv_x);
    assert!(!inv_y);
    assert!(swap);
}

#[test]
fn gforce_options_ignore_non_boolean_values() {
    let el = options(&[
        ("invert_x", OptionValue::Text("true".to_string())),
        ("invert_y", OptionValue::Other),
        ("swap_axes", OptionValue::Bool(true)),
    ]);
    assert_eq!(GForceMeter::extract_options(&el), (false, false, true));
    assert_eq!(GForceMeter::extract_options(&None), (false, false, false));
}

#[test]
fn rpm_style_names_are_read_in_any_case() {
    assert_eq!(RpmStyle::from_str("dial"), RpmStyle::Dial);
    assert_eq!(RpmStyle::from_str("DiAl"), RpmStyle::Dial);
    assert_eq!(RpmStyle::from_str("LEDS"), RpmStyle::Leds);
    assert_eq!(RpmStyle::from_str("bar"), RpmStyle::Bar);
    assert_eq!(RpmStyle::from_str("needle"), RpmStyle::Bar);
    assert_eq!(RpmStyle::from_str(""), RpmStyle::Bar);
    assert_eq!(RpmStyle::from_str("dials"), RpmStyle::Bar);
}

#[test]
fn rpm_style_names_round_trip() {
    for style in [RpmStyle::Bar, RpmStyle::Dial, RpmStyle::Leds] {
        assert_eq!(RpmStyle::from_str(style.as_str()), style);
    }
    assert_eq!(RpmStyle::Dial.as_str(), "Dial");
}

#[test]
fn rpm_style_comes_from_the_style_option() {
    assert_eq!(RpmOverlay::extract_style(&None), RpmStyle::Bar);
    let el = options(&[("style", OptionValue::Text("leds".to_string()))]);
    assert_eq!(RpmOverlay::extract_style(&el), RpmStyle::Leds);
    let el = options(&[("style", OptionValue::Bool(true))]);
    assert_eq!(RpmOverlay::extract_style(&el), RpmStyle::Bar);
    let el = options(&[("rpm_max", OptionValue::Other), ("style", OptionValue::Text("Dial".to_string()))]);
    assert_eq!(RpmOverlay::extract_style(&el), RpmStyle::Dial);
}

#[test]
fn throttle_bar_shows_the_brake_by_default() {
    assert!(default_show_brake());
    assert!(ThrottleBarConfig::default().show_brake);
}

#[test]
fn lap_clock_rounds_the_binary_value_of_the_seconds() {
    // 1.015 s is stored just below 1.015, 0.125 s exactly (a tie, to even).
    assert_eq!(format_lap_clock(1015), "00:01.01");
    assert_eq!(format_lap_clock(125), "00:00.12");
    assert_eq!(format_lap_clock(375), "00:00.38");
    assert_eq!(format_lap_clock(59995), "00:59.99");
    assert_eq!(format_lap_clock(150505), "02:30.50");
    assert_eq!(get_lap_timer_text(Some(1015)), "00:01.01");
}

#[test]
fn lap_clock_of_counts_beyond_double_precision() {
    assert_eq!(format_lap_clock((1i64 << 60) + 12345), "2147483647:19.25");
    assert_eq!(format_lap_clock(-(1i64 << 55) - 7), "-2147483648:-3.98");
    assert_eq!(format_lap_clock(9007199254740993), "2147483647:00.99");
    assert_eq!(AdvancedLapTimer::format_diff((1i64 << 60) + 12345), "+19.32");
    assert_eq!(AdvancedLapTimer::format_diff(-(1i64 << 55) - 7), "-3.97");
}
