use track_overlay::export::{
    audio_mux_args, export_step, flush_step, frame_action, frame_fits, pack_frame, unpack_frame,
    ExportCounters, ExportProgress, ExportStep, FrameAction,
};

/// A 2x2 RGBA frame with rows 12 bytes apart (4 bytes of padding each).
fn padded_frame() -> Vec<u8> {
    vec![
        1, 2, 3, 4, 5, 6, 7, 8, 0, 0, 0, 0, //
        9, 10, 11, 12, 13, 14, 15, 16, 0, 0, 0, 0,
    ]
}

#[test]
fn frames_before_the_range_are_skipped_and_after_it_finish() {
    assert_eq!(frame_action(999, Some(1000), Some(5000)), FrameAction::Skip);
    assert_eq!(frame_action(1000, Some(1000), Some(5000)), FrameAction::Render);
    assert_eq!(frame_action(5000, Some(1000), Some(5000)), FrameAction::Render);
    assert_eq!(frame_action(5001, Some(1000), Some(5000)), FrameAction::Finish);
    assert_eq!(frame_action(5001, None, Some(-1)), FrameAction::Render);
    assert_eq!(frame_action(-10, None, None), FrameAction::Render);
    assert_eq!(frame_action(0, Some(10), Some(5)), FrameAction::Skip);
}

#[test]
fn packing_drops_row_padding() {
    let raw = padded_frame();
    let mut out = vec![99u8; 3];
    pack_frame(&raw, 12, 2, 2, false, false, &mut out);
    assert_eq!(out, (1..=16).collect::<Vec<u8>>());
}

#[test]
fn packing_flips_rows_and_columns() {
    let raw = padded_frame();
    let mut out = Vec::new();
    pack_frame(&raw, 12, 2, 2, true, false, &mut out);
    assert_eq!(out, vec![9, 10, 11, 12, 13, 14, 15, 16, 1, 2, 3, 4, 5, 6, 7, 8]);
    pack_frame(&raw, 12, 2, 2, false, true, &mut out);
    assert_eq!(out, vec![5, 6, 7, 8, 1, 2, 3, 4, 13, 14, 15, 16, 9, 10, 11, 12]);
    pack_frame(&raw, 12, 2, 2, true, true, &mut out);
    assert_eq!(out, vec![13, 14, 15, 16, 9, 10, 11, 12, 5, 6, 7, 8, 1, 2, 3, 4]);
}

#[test]
fn flipping_twice_gives_the_plain_packing() {
    let raw = padded_frame();
    for (v, h) in [(true, false), (false, true), (true, true)] {
        let mut once = Vec::new();
        pack_frame(&raw, 12, 2, 2, v, h, &mut once);
        let mut twice = Vec::new();
        pack_frame(&once, 8, 2, 2, v, h, &mut twice);
        let mut plain = Vec::new();
        pack_frame(&raw, 12, 2, 2, false, false, &mut plain);
        assert_eq!(twice, plain);
    }
}

#[test]
fn the_last_row_needs_no_padding() {
    let raw: Vec<u8> = padded_frame()[..20].to_vec();
    let mut out = Vec::new();
    pack_frame(&raw, 12, 2, 2, false, false, &mut out);
    assert_eq!(out.len(), 16);
    assert_eq!(out[15], 16);
}

#[test]
fn unpacking_writes_rows_and_keeps_padding() {
    let packed: Vec<u8> = (1..=16).collect();
    let mut raw = vec![7u8; 24];
    unpack_frame(&packed, &mut raw, 12, 2, 2);
    assert_eq!(
        raw,
        vec![1, 2, 3, 4, 5, 6, 7, 8, 7, 7, 7, 7, 9, 10, 11, 12, 13, 14, 15, 16, 7, 7, 7, 7]
    );
}

#[test]
fn unpacking_a_packing_restores_the_frame() {
    let raw = padded_frame();
    let mut packed = Vec::new();
    pack_frame(&raw, 12, 2, 2, false, false, &mut packed);
    let mut back = raw.clone();
    unpack_frame(&packed, &mut back, 12, 2, 2);
    assert_eq!(back, raw);
}

#[test]
fn mux_arguments_with_a_trimmed_range() {
    let args = audio_mux_args("/tmp/r.mp4", "in.mp4", "out.mp4", Some(1500), Some(10000));
    assert_eq!(
        args,
        vec![
            "-y", "-i", "/tmp/r.mp4", "-ss", "1.500", "-t", "8.500", "-i", "in.mp4", "-c:v",
            "copy", "-c:a", "copy", "-map", "0:v:0", "-map", "1:a:0?", "out.mp4"
        ]
    );
}

#[test]
fn mux_arguments_without_trim() {
    let args = audio_mux_args("t.mp4", "in.mp4", "out.mp4", None, None);
    assert_eq!(
        args,
        vec![
            "-y", "-i", "t.mp4", "-i", "in.mp4", "-c:v", "copy", "-c:a", "copy", "-map",
            "0:v:0", "-map", "1:a:0?", "out.mp4"
        ]
    );
}

#[test]
fn mux_trim_edge_cases() {
    // A start at or before zero adds no seek; the length counts from 0.
    let args = audio_mux_args("t", "v", "o", Some(-300), Some(2005));
    assert_eq!(&args[3..5], &["-t".to_string(), "2.005".to_string()]);
    // An end not after the start adds no length.
    let args = audio_mux_args("t", "v", "o", Some(4000), Some(4000));
    assert_eq!(&args[3..5], &["-ss".to_string(), "4.000".to_string()]);
    assert_eq!(args[5], "-i");
    // A negative end means no end.
    let args = audio_mux_args("t", "v", "o", Some(61), Some(-1));
    assert_eq!(&args[3..6], &["-ss".to_string(), "0.061".to_string(), "-i".to_string()]);
}

#[test]
fn progress_total_never_falls_below_frames_done() {
    let mut p = ExportProgress::default();
    assert_eq!(p.frames_done, 0);
    assert_eq!(p.total_frames, 0);
    assert!(p.start_time.is_some());
    let started = p.start_time;
    p.record_frames(10, 300);
    assert_eq!((p.frames_done, p.total_frames), (10, 300));
    p.record_frames(320, 300);
    assert_eq!((p.frames_done, p.total_frames), (320, 320));
    assert_eq!(p.start_time, started);
}

#[test]
fn frame_fit_checks_rows_and_size() {
    assert!(frame_fits(24, 12, 2, 2));
    assert!(frame_fits(20, 12, 2, 2));
    assert!(!frame_fits(19, 12, 2, 2));
    assert!(frame_fits(0, 0, 5, 0));
    assert!(!frame_fits(usize::MAX, 0, 0x4000_0000, 1));
    assert!(frame_fits(usize::MAX, 0, 0x3fff_ffff, 1));
    assert!(!frame_fits(usize::MAX, 4, 0x8000, 0x8000));
}

#[test]
fn export_steps_count_skip_and_stamp_from_the_first_rendered_frame() {
    let c0 = ExportCounters { frames_done: 0, first_pts: None };
    let (c1, s1) = export_step(c0, Some(90), 900, Some(1000), Some(2000));
    assert_eq!(s1, ExportStep::Skip);
    assert_eq!(c1, ExportCounters { frames_done: 1, first_pts: None });
    let (c2, s2) = export_step(c1, Some(100), 1000, Some(1000), Some(2000));
    assert_eq!(s2, ExportStep::Render(0));
    assert_eq!(c2, ExportCounters { frames_done: 2, first_pts: Some(100) });
    let (c3, s3) = export_step(c2, Some(133), 1330, Some(1000), Some(2000));
    assert_eq!(s3, ExportStep::Render(33));
    assert_eq!(c3.frames_done, 3);
    let (c4, s4) = export_step(c3, Some(201), 2010, Some(1000), Some(2000));
    assert_eq!(s4, ExportStep::Finish);
    assert_eq!(c4, c3);
}

#[test]
fn export_frames_without_stamp_count_as_zero() {
    let c0 = ExportCounters { frames_done: 7, first_pts: None };
    let (c1, s1) = export_step(c0, None, 0, None, None);
    assert_eq!(s1, ExportStep::Render(0));
    assert_eq!(c1.first_pts, Some(0));
    let (_, s2) = export_step(c1, Some(i64::MIN), 0, None, None);
    assert_eq!(s2, ExportStep::Render(i64::MIN));
    let c = ExportCounters { frames_done: 0, first_pts: Some(-5) };
    let (_, s3) = export_step(c, Some(i64::MAX), 0, None, None);
    assert_eq!(s3, ExportStep::Render(i64::MAX));
}

#[test]
fn flushed_frames_are_counted_and_stamped() {
    let c = ExportCounters { frames_done: 4, first_pts: Some(100) };
    let (c2, out) = flush_step(c, Some(250));
    assert_eq!((c2.frames_done, c2.first_pts, out), (5, Some(100), 150));
    let (_, out) = flush_step(ExportCounters { frames_done: 0, first_pts: None }, Some(42));
    assert_eq!(out, 42);
}

#[test]
fn mux_times_print_the_binary_value_of_the_seconds() {
    let args = audio_mux_args("t", "v", "o", Some((1i64 << 60) + 12345), None);
    assert_eq!(args[4], "1152921504606859.250");
    let args = audio_mux_args("t", "v", "o", Some(9007199254740993), None);
    assert_eq!(args[4], "9007199254740.992");
    let args = audio_mux_args("t", "v", "o", Some(1015), None);
    assert_eq!(args[4], "1.015");
}
