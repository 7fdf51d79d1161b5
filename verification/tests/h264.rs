use extendo_core::h264::{
    bitrate_for_mode, find_start_codes, is_keyframe_access_unit, is_keyframe_nal, nal_unit_type,
    split_nals, H264Config, H264Profile,
};

#[test]
fn default_config_is_720p30_baseline_no_bframes() {
    let c = H264Config::default();
    assert_eq!(c.profile, H264Profile::Baseline);
    assert_eq!(c.bframes, 0);
    assert!(c.validate().is_ok());
}

#[test]
fn rejects_4k_high_fps_and_bframes() {
    let mut c = H264Config::default();
    c.width = 3840;
    c.height = 2160;
    assert!(c.validate().is_err(), "no 4K in v1");
    c = H264Config::default();
    c.fps = 120;
    assert!(c.validate().is_err(), "v1 caps at 60fps");
    c = H264Config::default();
    c.bframes = 2;
    assert!(c.validate().is_err(), "B-frames banned (latency)");
    c = H264Config::default();
    c.bitrate_kbps = 100;
    assert!(c.validate().is_err());
    c = H264Config::default();
    c.bitrate_kbps = 50000;
    assert!(c.validate().is_err());
}

#[test]
fn profile_parses_baseline_and_main_only() {
    assert_eq!(H264Profile::parse("baseline"), Some(H264Profile::Baseline));
    assert_eq!(H264Profile::parse("Main"), Some(H264Profile::Main));
    assert_eq!(H264Profile::parse("high"), None);
    assert_eq!(H264Profile::parse("hevc"), None);
}

#[test]
fn bitrate_ladder_stays_inside_v1_caps() {
    assert_eq!(bitrate_for_mode(1280, 720, 30), 4000);
    assert_eq!(bitrate_for_mode(1920, 1080, 30), 8000);
    assert_eq!(bitrate_for_mode(1920, 1080, 60), 12000);
    assert_eq!(bitrate_for_mode(640, 480, 30), 4000);
}

#[test]
fn finds_both_start_code_lengths() {
    let buf = [0, 0, 0, 1, 0x67, 0x42, 0, 0, 1, 0x65, 0x88];
    assert_eq!(find_start_codes(&buf), vec![0, 6]);
}

#[test]
fn splits_nals_and_reads_types() {
    let buf = [0, 0, 0, 1, 0x67, 0x42, 0, 0, 1, 0x68, 0xCE, 0, 0, 1, 0x65, 0x88];
    let nals = split_nals(&buf);
    assert_eq!(nals.len(), 3);
    let types: Vec<u8> = nals.iter().filter_map(|n| nal_unit_type(n)).collect();
    assert_eq!(types, vec![7, 8, 5]);
    assert!(is_keyframe_access_unit(&buf));
}

#[test]
fn non_idr_slice_is_not_a_keyframe() {
    let buf = [0, 0, 0, 1, 0x41, 0x9A, 0x22];
    assert!(!is_keyframe_access_unit(&buf));
    assert_eq!(nal_unit_type(&split_nals(&buf)[0]), Some(1));
}

#[test]
fn empty_and_startcode_less_inputs_yield_no_nals() {
    assert!(split_nals(&[]).is_empty());
    assert!(split_nals(&[0x41, 0x9A]).is_empty());
}

#[test]
fn profile_names_round_trip() {
    for p in [H264Profile::Baseline, H264Profile::Main] {
        assert_eq!(H264Profile::parse(p.as_str()), Some(p));
    }
    assert_eq!(H264Profile::Baseline.as_str(), "baseline");
    assert_eq!(H264Profile::Main.as_str(), "main");
    assert_eq!(H264Profile::parse("BASELINE"), Some(H264Profile::Baseline));
    assert_eq!(H264Profile::parse("main "), None);
}

#[test]
fn validate_messages_are_exact() {
    let mut c = H264Config::default();
    c.gop_len = 0;
    assert_eq!(c.validate().unwrap_err(), "h264 gop_len must be 1..=600");
    c = H264Config::default();
    c.bframes = 1;
    assert_eq!(c.validate().unwrap_err(), "h264 bframes must be 0 (no B-frames in v1: latency)");
    c = H264Config::default();
    c.width = 0;
    assert_eq!(c.validate().unwrap_err(), "h264 dimensions must fit within 1920x1080 (v1 SDR cap)");
}

#[test]
fn bitrate_ladder_boundaries() {
    assert_eq!(bitrate_for_mode(1280, 720, 60), 6000);
    assert_eq!(bitrate_for_mode(1280, 721, 30), 8000);
    assert_eq!(bitrate_for_mode(0, 0, 31), 6000);
}

#[test]
fn start_code_scan_edges() {
    // A start code with nothing after it is not reported.
    assert!(find_start_codes(&[0, 0, 1]).is_empty());
    assert!(find_start_codes(&[0, 0, 0, 1]).is_empty());
    assert_eq!(find_start_codes(&[0, 0, 1, 0x65]), vec![0]);
    // Back-to-back start codes give an empty unit, which is dropped.
    let buf = [0, 0, 1, 0, 0, 1, 0x41];
    assert_eq!(find_start_codes(&buf), vec![0, 3]);
    let nals = split_nals(&buf);
    assert_eq!(nals.len(), 1);
    assert_eq!(nals[0], &[0x41u8][..]);
}

#[test]
fn keyframe_types() {
    assert!(is_keyframe_nal(5) && is_keyframe_nal(7) && is_keyframe_nal(8));
    assert!(!is_keyframe_nal(1) && !is_keyframe_nal(6) && !is_keyframe_nal(9));
    assert_eq!(nal_unit_type(&[]), None);
    assert_eq!(nal_unit_type(&[0xE5]), Some(5));
    // Parameter sets alone do not make a keyframe unit: an IDR picture does.
    assert!(!is_keyframe_access_unit(&[0, 0, 1, 0x67, 0x42]));
    assert!(!is_keyframe_access_unit(&[0, 0, 0, 1, 0x67, 0x42, 0, 0, 1, 0x68, 0xCE]));
    assert!(is_keyframe_access_unit(&[0, 0, 1, 0x67, 0x42, 0, 0, 1, 0x65, 0x88]));
}

#[test]
fn split_round_trips_joined_units() {
    let units: Vec<Vec<u8>> = vec![
        vec![0x67, 0x42, 0x00, 0x1F, 0x00, 0x00, 0x03, 0x01],
        vec![0x68, 0xCE],
        vec![0x65, 0x88, 0x84, 0x00, 0x00, 0x03, 0x00, 0x21],
    ];
    let mut stream = Vec::new();
    for u in &units {
        stream.extend_from_slice(&[0, 0, 0, 1]);
        stream.extend_from_slice(u);
    }
    let back: Vec<Vec<u8>> = split_nals(&stream).iter().map(|n| n.to_vec()).collect();
    assert_eq!(back, units);
    // Trailing zero bytes survive the round trip.
    let stream = [0, 0, 0, 1, 0x41, 0x00, 0x00, 0, 0, 0, 1, 0x41];
    let back: Vec<Vec<u8>> = split_nals(&stream).iter().map(|n| n.to_vec()).collect();
    assert_eq!(back, vec![vec![0x41, 0x00, 0x00], vec![0x41]]);
    // A unit without emulation prevention is not clean: the start code
    // inside it splits it in two.
    let stream = [0, 0, 0, 1, 0x41, 0x00, 0x00, 0x01, 0x42];
    let back: Vec<Vec<u8>> = split_nals(&stream).iter().map(|n| n.to_vec()).collect();
    assert_eq!(back, vec![vec![0x41], vec![0x42]]);
}
