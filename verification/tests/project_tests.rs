use track_overlay::project::{default_true, resolve_speed_source, SpeedSource, SyncMode, SyncState};

#[test]
fn explicit_speed_sources_stand() {
    assert_eq!(resolve_speed_source(SpeedSource::Gps, &[0, 0], &[1, 1]), SpeedSource::Gps);
    assert_eq!(resolve_speed_source(SpeedSource::Obd, &[1, 1], &[0, 0]), SpeedSource::Obd);
}

#[test]
fn auto_speed_source_follows_the_more_frequent_updates() {
    assert_eq!(resolve_speed_source(SpeedSource::Auto, &[1, 0, 1], &[1, 1, 1]), SpeedSource::Obd);
    assert_eq!(resolve_speed_source(SpeedSource::Auto, &[1, 1, 0], &[1, 1, 0]), SpeedSource::Gps);
    assert_eq!(resolve_speed_source(SpeedSource::Auto, &[], &[]), SpeedSource::Gps);
    // Only a flag of exactly 1 counts as an update.
    assert_eq!(resolve_speed_source(SpeedSource::Auto, &[1], &[2, 3, 255]), SpeedSource::Gps);
}

#[test]
fn project_defaults() {
    assert_eq!(SpeedSource::default(), SpeedSource::Auto);
    assert!(default_true());
    let s = SyncState { offset_ms: 1500, mode: SyncMode::Manual, max_auto_sync_offset_ms: 300000 };
    assert_eq!(s, s.clone());
}
