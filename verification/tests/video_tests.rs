use track_overlay::video::{
    creation_time_from_probe, decode_step, settle_commands, DecodeAction, DecodeEvent, DecodeState,
    DecodedFrame, PlayerCommand, UtcInstant, DECODE_PACKET_BUDGET,
};

#[test]
fn the_latest_seek_wins() {
    let cmds = [
        PlayerCommand::Seek(100),
        PlayerCommand::Seek(2500),
        PlayerCommand::Seek(1200),
    ];
    assert_eq!(settle_commands(&cmds), Some(1200));
    assert_eq!(settle_commands(&[PlayerCommand::Seek(-40)]), Some(-40));
}

#[test]
fn a_quit_anywhere_stops_the_decoder() {
    assert_eq!(settle_commands(&[PlayerCommand::Quit]), None);
    assert_eq!(
        settle_commands(&[PlayerCommand::Seek(5), PlayerCommand::Quit, PlayerCommand::Seek(9)]),
        None
    );
    assert_eq!(settle_commands(&[PlayerCommand::Seek(5), PlayerCommand::Quit]), None);
}

#[test]
fn no_request_means_the_player_is_gone() {
    assert_eq!(settle_commands(&[]), None);
}

#[test]
fn creation_time_is_read_from_the_first_time_stamp_line() {
    assert_eq!(
        creation_time_from_probe("2024-01-02T03:04:05Z\n"),
        Some(UtcInstant { secs: 1704164645, nanos: 0 })
    );
    assert_eq!(
        creation_time_from_probe("\n   \nnot a time\n  2023-06-30T10:00:00.250+02:00 \r\n2024-01-02T03:04:05Z"),
        Some(UtcInstant { secs: 1688112000, nanos: 250_000_000 })
    );
}

#[test]
fn no_time_stamp_no_creation_time() {
    assert_eq!(creation_time_from_probe(""), None);
    assert_eq!(creation_time_from_probe("N/A\n\n"), None);
    assert_eq!(creation_time_from_probe("2024-13-02T03:04:05Z"), None);
}

#[test]
fn decoded_frames_hold_packed_rows() {
    let raw: Vec<u8> = vec![
        1, 2, 3, 4, 0, 0, //
        5, 6, 7, 8, 0, 0,
    ];
    let f = DecodedFrame::from_rgba_rows(&raw, 6, 1, 2, 4200);
    assert_eq!(*f.data, vec![1, 2, 3, 4, 5, 6, 7, 8]);
    assert_eq!((f.width, f.height, f.pts_ms), (1, 2, 4200));
}

#[test]
fn decoding_stops_at_the_target_or_when_the_budget_is_spent() {
    let s = DecodeState { packets_left: 2, current_pts: 10 };
    let (s, a) = decode_step(s, DecodeEvent::Packet(false), 100);
    assert_eq!((s.packets_left, a), (1, DecodeAction::NextPacket));
    let (s, a) = decode_step(s, DecodeEvent::Packet(true), 100);
    assert_eq!((s.packets_left, a), (0, DecodeAction::Decode));
    let (s, a) = decode_step(s, DecodeEvent::Frame(Some(60)), 100);
    assert_eq!((s.current_pts, a), (60, DecodeAction::Keep(false)));
    let (s, a) = decode_step(s, DecodeEvent::Frame(None), 100);
    assert_eq!((s.current_pts, a), (60, DecodeAction::Keep(false)));
    let (s, a) = decode_step(s, DecodeEvent::Drained, 100);
    assert_eq!(a, DecodeAction::NextPacket);
    let (_, a) = decode_step(s, DecodeEvent::Packet(true), 100);
    assert_eq!(a, DecodeAction::Stop);
    let (s, a) = decode_step(s, DecodeEvent::Frame(Some(100)), 100);
    assert_eq!(a, DecodeAction::Keep(true));
    let (_, a) = decode_step(s, DecodeEvent::Drained, 100);
    assert_eq!(a, DecodeAction::Stop);
    assert_eq!(DECODE_PACKET_BUDGET, 1000);
}
