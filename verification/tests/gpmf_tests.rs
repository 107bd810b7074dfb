use track_overlay::gpmf::{parse_ffprobe_output, parse_gps5_data, GpmfError, GpsFix};

fn degrees(e7: i32) -> f64 {
    e7 as f64 / 10000000.0
}

#[test]
fn test_parse_ffprobe_output_found() {
    let output = "0,video\n1,audio\n2,gpmd\n3,subtitles\n";
    assert_eq!(parse_ffprobe_output(output), Some("2".to_string()));
}

#[test]
fn test_parse_ffprobe_output_not_found() {
    let output = "0,video\n1,audio\n2,data\n";
    assert_eq!(parse_ffprobe_output(output), None);
}

#[test]
fn test_parse_ffprobe_output_empty() {
    assert_eq!(parse_ffprobe_output(""), None);
}

#[test]
fn ffprobe_fields_are_trimmed_and_crlf_accepted() {
    let output = "0,video\r\n 3 , gpmd \r\n";
    assert_eq!(parse_ffprobe_output(output), Some("3".to_string()));
}

#[test]
fn ffprobe_first_gpmd_line_wins() {
    let output = "4,gpmd\n5,gpmd";
    assert_eq!(parse_ffprobe_output(output), Some("4".to_string()));
}

#[test]
fn ffprobe_line_with_extra_field_is_not_a_match() {
    assert_eq!(parse_ffprobe_output("2,gpmd,extra\n"), None);
    assert_eq!(parse_ffprobe_output("gpmd\n"), None);
    assert_eq!(parse_ffprobe_output("2,GPMD\n"), None);
}

#[test]
fn test_parse_gps5_data_empty() {
    let data: Vec<u8> = vec![];
    let points = parse_gps5_data(&data);
    assert!(points.is_empty());
}

#[test]
fn test_parse_gps5_data_valid() {
    let mut data = Vec::new();
    data.extend_from_slice(b"GPS5");
    data.push(b'l');
    data.push(16);
    data.extend_from_slice(&2u16.to_be_bytes());

    data.extend_from_slice(&377749000i32.to_be_bytes());
    data.extend_from_slice(&(-1224194000i32).to_be_bytes());
    data.extend_from_slice(&0i32.to_be_bytes());
    data.extend_from_slice(&0i32.to_be_bytes());

    data.extend_from_slice(&377750000i32.to_be_bytes());
    data.extend_from_slice(&(-1224195000i32).to_be_bytes());
    data.extend_from_slice(&0i32.to_be_bytes());
    data.extend_from_slice(&0i32.to_be_bytes());

    let points = parse_gps5_data(&data);
    assert_eq!(points.len(), 2);

    assert_eq!(points[0].time_ms, 0);
    assert!((degrees(points[0].lat_e7) - 37.7749).abs() < f64::EPSILON);
    assert!((degrees(points[0].lon_e7) - -122.4194).abs() < f64::EPSILON);

    assert_eq!(points[1].time_ms, 50);
    assert!((degrees(points[1].lat_e7) - 37.7750).abs() < f64::EPSILON);
    assert!((degrees(points[1].lon_e7) - -122.4195).abs() < f64::EPSILON);
}

#[test]
fn test_parse_gps5_data_ignores_zeros() {
    let mut data = Vec::new();
    data.extend_from_slice(b"GPS5");
    data.push(b'l');
    data.push(16);
    data.extend_from_slice(&1u16.to_be_bytes());
    data.extend_from_slice(&0i32.to_be_bytes());
    data.extend_from_slice(&0i32.to_be_bytes());
    data.extend_from_slice(&0i32.to_be_bytes());
    data.extend_from_slice(&0i32.to_be_bytes());

    let points = parse_gps5_data(&data);
    assert!(points.is_empty(), "Points with lat=0, lon=0 should be ignored");
}

#[test]
fn test_parse_gps5_data_ignores_small_item_size() {
    let mut data = Vec::new();
    data.extend_from_slice(b"GPS5");
    data.push(b'l');
    data.push(15);
    data.extend_from_slice(&1u16.to_be_bytes());
    data.extend_from_slice(&vec![0; 15]);

    let points = parse_gps5_data(&data);
    assert!(points.is_empty(), "Should ignore blocks with item_size < 16");
}

#[test]
fn test_parse_gps5_data_incomplete_block() {
    let mut data = Vec::new();
    data.extend_from_slice(b"GPS5");
    data.push(b'l');
    data.push(16);
    data.extend_from_slice(&10u16.to_be_bytes());
    data.extend_from_slice(&377749000i32.to_be_bytes());
    data.extend_from_slice(&(-1224194000i32).to_be_bytes());
    data.extend_from_slice(&0i32.to_be_bytes());
    data.extend_from_slice(&0i32.to_be_bytes());

    let points = parse_gps5_data(&data);
    assert!(
        points.is_empty(),
        "Should ignore incomplete blocks where data_start + data_len > raw_data.len()"
    );
}

fn gps5_block(items: &[(i32, i32)], item_size: u8) -> Vec<u8> {
    let mut data = Vec::new();
    data.extend_from_slice(b"GPS5");
    data.push(b'l');
    data.push(item_size);
    data.extend_from_slice(&(items.len() as u16).to_be_bytes());
    for &(lat, lon) in items {
        data.extend_from_slice(&lat.to_be_bytes());
        data.extend_from_slice(&lon.to_be_bytes());
        data.extend_from_slice(&vec![0u8; item_size as usize - 8]);
    }
    data
}

#[test]
fn gps5_blocks_after_noise_and_padding_are_found() {
    // noise, then a 20-byte-item block (length 8 + 20 = 28, already aligned),
    // then one byte of junk and a second block that the scan reaches byte by byte
    let mut data = vec![1u8, 2, 3];
    data.extend_from_slice(&gps5_block(&[(10, 20)], 20));
    data.push(9);
    data.extend_from_slice(&gps5_block(&[(0, 5), (30, 40)], 16));
    let points = parse_gps5_data(&data);
    assert_eq!(
        points,
        vec![
            GpsFix { time_ms: 0, lat_e7: 10, lon_e7: 20 },
            GpsFix { time_ms: 50, lat_e7: 30, lon_e7: 40 },
        ]
    );
}

#[test]
fn gps5_negative_coordinates_are_read_as_twos_complement() {
    let data = gps5_block(&[(-1, i32::MIN), (i32::MAX, -5)], 16);
    let points = parse_gps5_data(&data);
    assert_eq!(points.len(), 2);
    assert_eq!((points[0].lat_e7, points[0].lon_e7), (-1, i32::MIN));
    assert_eq!((points[1].lat_e7, points[1].lon_e7), (i32::MAX, -5));
    assert_eq!(points[1].time_ms, 50);
}

#[test]
fn gpmf_error_messages() {
    assert_eq!(GpmfError::NoGpmdStream.message(), "No GPMD stream found in MP4");
    assert_eq!(GpmfError::ExtractionFailed.message(), "Failed to extract GPMD data track");
    assert_eq!(GpmfError::CommandFailed("x".to_string()).message(), "Command failed: x");
}
