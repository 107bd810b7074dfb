use track_overlay::sync::{match_lap_crossings, SyncError};

#[test]
fn lap_crossings_give_the_offset_that_matches_all_laps() {
    // Telemetry laps start every 10 s from 0; the camera passes the line
    // 5 s later in its own clock.
    let video = [5000i64, 15000, 25000];
    let laps = [(1u32, 0i64), (2, 10000), (3, 20000)];
    assert_eq!(match_lap_crossings(&video, &laps), Some(-5000));
}

#[test]
fn the_offset_lining_up_most_crossings_wins() {
    // Crossings within 3 s count as the same pass. Mapping the second camera
    // crossing onto the second lap (offset -5400) lines up all three; the
    // first candidate tried (-5000) lines up only two.
    let video = [5000i64, 15400, 28100];
    let laps = [(1u32, 0i64), (2, 10000), (3, 20000)];
    assert_eq!(match_lap_crossings(&video, &laps), Some(-5400));
}

#[test]
fn the_first_best_candidate_wins() {
    // Every candidate lines up exactly one crossing: the first tried,
    // laps[0] - video[0], is kept.
    let video = [1000i64, 100000];
    let laps = [(7u32, 50000i64)];
    assert_eq!(match_lap_crossings(&video, &laps), Some(49000));
}

#[test]
fn no_crossings_no_offset() {
    assert_eq!(match_lap_crossings(&[], &[(1, 0)]), None);
    assert_eq!(match_lap_crossings(&[1000], &[]), None);
    assert_eq!(match_lap_crossings(&[], &[]), None);
}

#[test]
fn sync_error_messages() {
    assert_eq!(SyncError::NoOverlap.message(), "No overlapping data found for sync");
    assert_eq!(
        SyncError::Calculation("bad".to_string()).message(),
        "Calculation error: bad"
    );
}

#[test]
fn moving_the_telemetry_clock_moves_the_offset() {
    let video = [5000i64, 15400, 28100];
    let laps = [(1u32, 0i64), (2, 10000), (3, 20000)];
    let base = match_lap_crossings(&video, &laps).unwrap();
    for d in [-7000i64, 1, 123456] {
        let moved: Vec<(u32, i64)> = laps.iter().map(|&(l, t)| (l, t + d)).collect();
        assert_eq!(match_lap_crossings(&video, &moved), Some(base + d));
    }
}
