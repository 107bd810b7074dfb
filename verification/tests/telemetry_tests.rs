use track_overlay::telemetry::{lap_spans_fit_exec, LapSpan, SampleKey, TelemetryLog, TelemetryView};
use track_overlay::timeline::Bracket;

fn key(time_ms: i64, lap: u32, lap_time_ms: i64) -> SampleKey {
    SampleKey {
        time_ms,
        lap_number: Some(lap),
        lap_time_ms: Some(lap_time_ms),
    }
}

/// Six samples one second apart: laps 0, 1 and 2, two samples each.
fn six_second_log() -> TelemetryLog {
    TelemetryLog {
        samples: vec![
            key(0, 0, 0),
            key(1000, 0, 1000),
            key(2000, 1, 0),
            key(3000, 1, 1000),
            key(4000, 2, 0),
            key(5000, 2, 1000),
        ],
    }
}

#[test]
fn test_telemetry_view_truncation_and_laps() {
    let log = six_second_log();

    assert_eq!(log.samples.len(), 6);
    assert_eq!(log.samples[2].time_ms, 2000); // Lap 1 starts

    // 1. Unbounded View
    let view_all = TelemetryView::new(&log, None, None, 0);
    assert_eq!(view_all.samples.len(), 6);
    let laps_all = view_all.extract_laps();
    assert_eq!(laps_all.len(), 3);
    assert_eq!(laps_all[0].0, 0); // Lap 0
    assert_eq!(laps_all[1].0, 1); // Lap 1
    assert_eq!(laps_all[2].0, 2); // Lap 2

    // 2. Truncate Start
    // start_ms = 2500 -> start_idx = 3 (time_ms=3000)
    // The first sample is Lap 1. `lap_offset` = 1 - 1 = 0.
    let view_cut_start = TelemetryView::new(&log, Some(2500), None, 0);
    assert_eq!(view_cut_start.samples.len(), 3);
    assert_eq!(view_cut_start.samples[0].time_ms, 3000);
    let laps_cut = view_cut_start.extract_laps();
    assert_eq!(laps_cut[0].0, 1);
    assert_eq!(laps_cut[1].0, 2);

    // 3. Sync Offset interaction
    // sync_offset = 1000, start_ms = 1500
    // s.time_ms=2000 -> sync_time=1000
    // s.time_ms=3000 -> sync_time=2000
    // start_idx = 3 (time_ms=3000)
    let view_offset = TelemetryView::new(&log, Some(1500), None, 1000);
    assert_eq!(view_offset.samples.len(), 3);
    assert_eq!(view_offset.samples[0].time_ms, 3000);

    // 4. Test State Best Lap
    let view_best = TelemetryView::new(&log, Some(1500), None, 0);
    let _state = view_best.lap_state(6000);
}

#[test]
fn log_lap_crossings_are_first_samples_of_each_lap() {
    let log = six_second_log();
    assert_eq!(log.extract_laps(), vec![(0, 0), (1, 2000), (2, 4000)]);
}

#[test]
fn samples_without_a_lap_do_not_cross() {
    let log = TelemetryLog {
        samples: vec![
            key(0, 4, 0),
            SampleKey { time_ms: 100, lap_number: None, lap_time_ms: None },
            key(200, 4, 200),
            key(300, 5, 0),
        ],
    };
    assert_eq!(log.extract_laps(), vec![(4, 0), (5, 300)]);
}

#[test]
fn view_end_is_exclusive_and_laps_are_renumbered() {
    let log = six_second_log();
    let view = TelemetryView::new(&log, Some(2500), Some(4000), 0);
    assert_eq!(view.start_idx, 3);
    assert_eq!(view.samples.len(), 1);
    assert_eq!(view.lap_offset, 0);

    let view = TelemetryView::new(&log, Some(4000), None, 0);
    assert_eq!(view.samples.len(), 2);
    assert_eq!(view.lap_offset, 1);
    assert_eq!(view.extract_laps(), vec![(1, 4000)]);
    assert_eq!(view.adjust_lap(Some(2)), Some(1));
    assert_eq!(view.adjust_lap(Some(0)), Some(0));
    assert_eq!(view.adjust_lap(None), None);
}

#[test]
fn negative_view_end_means_open_end() {
    let log = six_second_log();
    let view = TelemetryView::new(&log, Some(0), Some(-1), 0);
    assert_eq!(view.samples.len(), 6);
    assert_eq!(view.sync_offset_ms, 0);
}

#[test]
fn empty_view_when_start_is_past_end() {
    let log = six_second_log();
    let view = TelemetryView::new(&log, Some(4000), Some(1000), 0);
    assert_eq!(view.samples.len(), 0);
    assert_eq!(view.lap_offset, 0);
    let view = TelemetryView::new(&log, Some(10000), None, 0);
    assert!(view.samples.is_empty());
    let empty = TelemetryLog { samples: vec![] };
    let view = TelemetryView::new(&empty, Some(i64::MAX), Some(5), i64::MAX);
    assert!(view.samples.is_empty());
}

#[test]
fn bracket_finds_the_samples_around_a_time() {
    let log = six_second_log();
    assert_eq!(log.bracket_at(2000), Bracket::Point(2));
    assert_eq!(log.bracket_at(2500), Bracket::Between(3));
    assert_eq!(log.bracket_at(-1000), Bracket::Point(0));
    assert_eq!(log.bracket_at(10000), Bracket::Point(5));
    let empty = TelemetryLog { samples: vec![] };
    assert_eq!(empty.bracket_at(0), Bracket::Empty);
}

#[test]
fn lap_state_counts_only_finished_laps() {
    let log = six_second_log();
    let lap0 = LapSpan {
        lap_number: 0,
        start_idx: 0,
        end_idx: 1,
        start_time_ms: 0,
        end_time_ms: 1000,
        duration_ms: 1000,
    };
    let lap1 = LapSpan {
        lap_number: 1,
        start_idx: 2,
        end_idx: 3,
        start_time_ms: 2000,
        end_time_ms: 3000,
        duration_ms: 1000,
    };
    let st = log.lap_state(500);
    assert!(st.previous_laps.is_empty());
    assert_eq!(st.best_lap, None);

    let st = log.lap_state(1000);
    assert_eq!(st.previous_laps, vec![lap0]);
    assert_eq!(st.best_lap, Some(lap0));

    let st = log.lap_state(6000);
    assert_eq!(st.previous_laps, vec![lap1, lap0]);
    assert_eq!(st.best_lap, Some(lap0));
}

#[test]
fn best_lap_is_the_quickest_and_the_list_holds_three() {
    let log = TelemetryLog {
        samples: vec![
            key(0, 1, 0),
            key(90000, 1, 90000),
            key(90100, 2, 0),
            key(175000, 2, 85000),
            key(175100, 3, 0),
            key(262000, 3, 87000),
            key(262100, 4, 0),
            key(349000, 4, 85000),
            key(349100, 5, 0),
        ],
    };
    let st = log.lap_state(400000);
    let numbers: Vec<u32> = st.previous_laps.iter().map(|l| l.lap_number).collect();
    assert_eq!(numbers, vec![4, 3, 2]);
    let best = st.best_lap.unwrap();
    assert_eq!(best.lap_number, 2);
    assert_eq!(best.duration_ms, 85000);
    assert_eq!(best.start_time_ms, 90100);
    assert_eq!(best.end_time_ms, 175000);
}

#[test]
fn lap_duration_falls_back_to_sample_times() {
    let log = TelemetryLog {
        samples: vec![
            key(1000, 1, 0),
            SampleKey { time_ms: 4000, lap_number: Some(1), lap_time_ms: None },
            key(5000, 2, 0),
        ],
    };
    let st = log.lap_state(5000);
    assert_eq!(st.best_lap.unwrap().duration_ms, 3000);
}

#[test]
fn view_lap_state_uses_view_lap_numbers() {
    let log = six_second_log();
    let view = TelemetryView::new(&log, Some(4000), None, 0);
    let with_next = TelemetryLog {
        samples: vec![
            key(4000, 2, 0),
            key(5000, 2, 1000),
            key(6000, 3, 0),
        ],
    };
    let v2 = TelemetryView::new(&with_next, None, None, 0);
    assert_eq!(v2.lap_offset, 1);
    let st = v2.lap_state(6000);
    assert_eq!(st.previous_laps.len(), 1);
    assert_eq!(st.previous_laps[0].lap_number, 1);
    assert_eq!(st.previous_laps[0].start_idx, 0);
    assert_eq!(view.lap_state(6000).best_lap, None);
    assert_eq!(view.bracket_at(4500), Bracket::Between(1));
}

fn unlogged(time_ms: i64, lap: u32) -> SampleKey {
    SampleKey {
        time_ms,
        lap_number: Some(lap),
        lap_time_ms: None,
    }
}

#[test]
fn lap_spans_fit_only_when_unlogged_lap_durations_fit() {
    // A closed lap without a logged lap time whose span overflows an i64.
    let wide = vec![unlogged(i64::MIN, 0), unlogged(i64::MAX - 1, 0), unlogged(i64::MAX, 1)];
    assert!(!lap_spans_fit_exec(&wide));
    // The same span with a logged lap time: the difference is never taken.
    let logged = vec![key(i64::MIN, 0, 0), key(i64::MAX - 1, 0, 5), key(i64::MAX, 1, 0)];
    assert!(lap_spans_fit_exec(&logged));
    // The open last lap may span anything.
    let open = vec![unlogged(i64::MIN, 0), unlogged(i64::MAX, 0)];
    assert!(lap_spans_fit_exec(&open));
    assert!(lap_spans_fit_exec(&six_second_log().samples));
}

#[test]
fn lap_statistics_only_grow_with_time() {
    let log = six_second_log();
    let mut last_len = 0;
    let mut last_best: Option<i64> = None;
    for t in [-1000, 0, 999, 1000, 2500, 3000, 4500, 5000, 9000] {
        let st = log.lap_state(t);
        assert!(st.previous_laps.len() >= last_len);
        if let Some(b) = last_best {
            assert!(st.best_lap.unwrap().duration_ms <= b);
        }
        last_len = st.previous_laps.len();
        last_best = st.best_lap.map(|l| l.duration_ms);
    }
    assert_eq!(last_len, 2);
}

#[test]
fn whole_log_view_shifts_lap_numbers_down() {
    let log = six_second_log();
    for k in [0u32, 1, 2, 5] {
        let view = TelemetryView {
            start_idx: 0,
            samples: log.samples.clone(),
            lap_offset: k,
            sync_offset_ms: 0,
        };
        let a = log.lap_state(6000);
        let b = view.lap_state(6000);
        let shifted: Vec<LapSpan> = a
            .previous_laps
            .iter()
            .map(|l| LapSpan { lap_number: l.lap_number.saturating_sub(k), ..*l })
            .collect();
        assert_eq!(b.previous_laps, shifted);
        assert_eq!(
            b.best_lap,
            a.best_lap.map(|l| LapSpan { lap_number: l.lap_number.saturating_sub(k), ..l })
        );
        if k == 0 {
            assert_eq!(b.previous_laps, a.previous_laps);
        }
    }
}
