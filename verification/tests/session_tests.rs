use track_overlay::session::{
    advance_playhead, clamp_playhead_to_trim, format_time, lap_jump_target, playback_end,
};

#[test]
fn test_format_time_positive() {
    assert_eq!(format_time(0), "00:00");
    assert_eq!(format_time(999), "00:00");
    assert_eq!(format_time(1000), "00:01");
    assert_eq!(format_time(59999), "00:59");
    assert_eq!(format_time(60000), "01:00");
    assert_eq!(format_time(61000), "01:01");
    assert_eq!(format_time(3599000), "59:59");
    assert_eq!(format_time(3600000), "60:00");
}

#[test]
fn test_format_time_negative() {
    assert_eq!(format_time(-999), "-00:00");
    assert_eq!(format_time(-1000), "-00:01");
    assert_eq!(format_time(-61000), "-01:01");
}

#[test]
fn clock_text_grows_past_two_minute_digits() {
    assert_eq!(format_time(6000000), "100:00");
    assert_eq!(format_time(-6001000), "-100:01");
    assert_eq!(format_time(i64::MAX), "153722867280912:55");
}

#[test]
fn negative_clock_is_the_positive_clock_with_a_sign() {
    for ms in [1i64, 999, 1000, 61000, 3600000, 123456789] {
        assert_eq!(format_time(-ms), format!("-{}", format_time(ms)));
    }
}

#[test]
fn playback_ends_at_a_set_end_or_the_video_end() {
    assert_eq!(playback_end(Some(5000), 90000), 5000);
    assert_eq!(playback_end(Some(0), 90000), 0);
    assert_eq!(playback_end(Some(-1), 90000), 90000);
    assert_eq!(playback_end(None, 90000), 90000);
}

#[test]
fn playhead_is_clamped_into_the_trim_range() {
    assert_eq!(clamp_playhead_to_trim(500, Some(1000), Some(5000), 90000), 1000);
    assert_eq!(clamp_playhead_to_trim(7000, Some(1000), Some(5000), 90000), 5000);
    assert_eq!(clamp_playhead_to_trim(3000, Some(1000), Some(5000), 90000), 3000);
    assert_eq!(clamp_playhead_to_trim(-20, None, None, 90000), 0);
    assert_eq!(clamp_playhead_to_trim(95000, None, Some(-1), 90000), 90000);
}

#[test]
fn playhead_is_left_alone_when_the_range_is_empty() {
    assert_eq!(clamp_playhead_to_trim(3000, Some(8000), Some(5000), 90000), 3000);
    assert_eq!(clamp_playhead_to_trim(3000, Some(100000), None, 90000), 3000);
}

#[test]
fn clamping_twice_changes_nothing_more() {
    for p in [-5i64, 0, 999, 1000, 4000, 5000, 5001, 99999] {
        let once = clamp_playhead_to_trim(p, Some(1000), Some(5000), 90000);
        assert!((1000..=5000).contains(&once));
        assert_eq!(clamp_playhead_to_trim(once, Some(1000), Some(5000), 90000), once);
    }
}

#[test]
fn playback_advances_and_stops_at_the_end() {
    assert_eq!(advance_playhead(1000, 33, Some(5000), 90000), (1033, true));
    assert_eq!(advance_playhead(4990, 33, Some(5000), 90000), (5000, false));
    assert_eq!(advance_playhead(89990, 33, None, 90000), (90000, false));
    assert_eq!(advance_playhead(5000, 0, Some(5000), 90000), (5000, false));
}

#[test]
fn lap_jump_lands_inside_the_video_only() {
    assert_eq!(lap_jump_target(12000, 2000, 90000), Some(10000));
    assert_eq!(lap_jump_target(1000, 2000, 90000), None);
    assert_eq!(lap_jump_target(92001, 2000, 90000), None);
    assert_eq!(lap_jump_target(92000, 2000, 90000), Some(90000));
    assert_eq!(lap_jump_target(-500, -500, 90000), Some(0));
}
