use extendo_core::capture::{
    admit_frame, encoder_config, encoder_needs_init, frame_arrived, h264_step, is_cooling_down,
    mjpeg_sent, nv12_target, Admission, EncodeOutcome, INIT_RETRY_US,
};
use extendo_core::json::{write_object, JsonField};
use extendo_core::cli::Args;
use extendo_core::h264::H264Profile;
use extendo_core::mf::{
    check_input, encoded_unit, frame_duration_100ns, frame_unit, grow_output_buffer,
    initial_output_buffer, starts_with_annexb, EncodedUnit, MAX_OUTPUT_BUFFER,
};
use extendo_core::Stats;

#[test]
fn stats_error_lifecycle() {
    let mut s = Stats::default();
    assert_eq!(s.error_json(), "\"\"");
    s.set_error("bad \"thing\"\nwith C:\\path");
    assert_eq!(s.last_error, "bad \"thing\"\nwith C:\\path");
    assert_eq!(s.error_json(), "\"bad 'thing' with C:\\\\path\"");
    s.clear_error();
    assert_eq!(s.last_error, "");
    assert_eq!(s.error_json(), "\"\"");
}

#[test]
fn snapshot_json_is_exact() {
    let mut s = Stats::default();
    s.frames_captured = 10;
    s.frames_encoded = 9;
    s.frames_dropped = 1;
    s.clients = 2;
    s.set_error("x");
    let cfg = Args::default();
    assert_eq!(
        s.snapshot_json(&cfg, "monitor#0", "4.25", "1.00"),
        "{\"ok\":true,\"source\":\"monitor#0\",\"monitor\":0,\"width\":1280,\"height\":720,\"fps\":30,\"quality\":70,\"codec\":\"mjpeg\",\"bitrate_kbps\":4000,\"captured\":10,\"encoded\":9,\"dropped\":1,\"clients\":2,\"encode_ms\":4.25,\"capture_ms\":1.00,\"error\":\"x\"}"
    );
}

#[test]
fn snapshot_json_escapes_free_text() {
    let mut s = Stats::default();
    s.set_error("tab\there\r\n\"q\" \\");
    assert_eq!(s.error_json(), "\"tab\\u0009here\\u000d 'q' \\\\\"");
    let mut cfg = Args::default();
    cfg.codec = String::from("h\"264\u{1f}");
    let j = s.snapshot_json(&cfg, "mon \"A\"\\\u{7}", "0.00", "0.00");
    assert!(j.starts_with("{\"ok\":true,\"source\":\"mon \\\"A\\\"\\\\\\u0007\",\"monitor\":0,"), "{j}");
    assert!(j.contains(",\"codec\":\"h\\\"264\\u001f\","), "{j}");
    assert!(j.ends_with(",\"error\":\"tab\\u0009here\\u000d 'q' \\\\\"}"), "{j}");
}

#[test]
fn frame_admission() {
    assert_eq!(admit_frame(None, 33_333, 0), Admission::NoClients);
    assert_eq!(admit_frame(None, 33_333, 1), Admission::Encode);
    assert_eq!(admit_frame(Some(10), 33_333, 1), Admission::TooSoon);
    assert_eq!(admit_frame(Some(10), 33_333, 0), Admission::TooSoon);
    assert_eq!(admit_frame(Some(33_333), 33_333, 3), Admission::Encode);
}

#[test]
fn encoder_plan() {
    assert_eq!(nv12_target(405, 7), (404, 6));
    assert_eq!(nv12_target(1, 0), (2, 2));
    assert!(encoder_needs_init(None, (2, 2), false));
    assert!(!encoder_needs_init(None, (2, 2), true));
    assert!(!encoder_needs_init(Some((2, 2)), (2, 2), false));
    assert!(encoder_needs_init(Some((4, 2)), (2, 2), false));
    let mut cfg = Args::default();
    cfg.fps = 60;
    cfg.bitrate_kbps = 9000;
    let c = encoder_config(640, 360, &cfg);
    assert_eq!((c.width, c.height, c.fps, c.bitrate_kbps), (640, 360, 60, 9000));
    assert_eq!(c.profile, H264Profile::Baseline);
    assert_eq!((c.bframes, c.gop_len), (0, 60));
}

#[test]
fn access_unit_framing() {
    let header = [0u8, 0, 0, 1, 0x67, 0x42];
    let key = frame_unit(&header, EncodedUnit { bytes: vec![0, 0, 1, 0x65, 0x88], keyframe: true });
    assert_eq!(key.bytes, vec![0, 0, 0, 1, 0x67, 0x42, 0, 0, 1, 0x65, 0x88]);
    assert!(key.keyframe);
    let raw = frame_unit(&header, EncodedUnit { bytes: vec![0x41, 0x9A], keyframe: false });
    assert_eq!(raw.bytes, vec![0, 0, 0, 1, 0x41, 0x9A]);
    let bare = frame_unit(&[], EncodedUnit { bytes: vec![0x65], keyframe: true });
    assert_eq!(bare.bytes, vec![0, 0, 0, 1, 0x65]);
    assert!(starts_with_annexb(&[0, 0, 1]));
    assert!(!starts_with_annexb(&[0, 0, 0]));
}

#[test]
fn drained_units() {
    assert!(encoded_unit(Vec::new()).is_none());
    let u = encoded_unit(vec![0, 0, 1, 0x65, 0x88]).expect("unit");
    assert!(u.keyframe);
    let u = encoded_unit(vec![0, 0, 1, 0x41, 0x88]).expect("unit");
    assert!(!u.keyframe);
}

#[test]
fn encoder_input_and_buffers() {
    assert_eq!(check_input(6, 2, 2, 2, 2), Ok(6));
    assert_eq!(
        check_input(6, 4, 2, 2, 2).unwrap_err(),
        "frame 4x2 != encoder 2x2 (recreate on resolution change)"
    );
    assert_eq!(check_input(5, 2, 2, 2, 2).unwrap_err(), "NV12 buffer 5 bytes, need 6");
    assert_eq!(frame_duration_100ns(30), 333_333);
    assert_eq!(frame_duration_100ns(0), 10_000_000);
    assert_eq!(initial_output_buffer(1280, 720), 1280 * 720 * 3 + 65536);
    assert_eq!(grow_output_buffer(1000), Ok(2000));
    assert_eq!(grow_output_buffer(MAX_OUTPUT_BUFFER - 1), Ok(MAX_OUTPUT_BUFFER));
    assert_eq!(
        grow_output_buffer(MAX_OUTPUT_BUFFER).unwrap_err(),
        "ProcessOutput still BUFFERTOOSMALL at 32MB"
    );
}

#[test]
fn security_law_on_concrete_arguments() {
    for argv in [
        vec!["--bind", "10.0.0.2"],
        vec!["--bind", "::"],
        vec!["--bind", "0.0.0.0", "--token", ""],
    ] {
        let parsed = Args::parse(argv.iter().map(|s| s.to_string()).collect());
        assert!(parsed.is_err(), "{argv:?} must not expose the desktop without a token");
    }
}

#[test]
fn h264_step_bookkeeping() {
    let unit = |b: u8, k: bool| EncodedUnit { bytes: vec![0, 0, 1, b], keyframe: k };
    let mut s = Stats::default();

    // Cooling down: nothing happens.
    let (seq, retry, sends) = h264_step(7, Some(99), 10, EncodeOutcome::Idle, &mut s);
    assert_eq!((seq, retry, sends.len()), (7, Some(99), 0));
    assert_eq!(s.last_error, "");

    // A failed creation records the error and cools down for 5 s.
    let (seq, retry, sends) =
        h264_step(7, None, 1_000, EncodeOutcome::InitFailed("no MFT".to_string()), &mut s);
    assert_eq!((seq, retry, sends.len()), (7, Some(1_000 + INIT_RETRY_US), 0));
    assert_eq!(INIT_RETRY_US, 5_000_000);
    assert_eq!(s.last_error, "no MFT");
    assert!(is_cooling_down(retry, 4_999_999));
    assert!(!is_cooling_down(retry, 5_001_000));
    assert!(!is_cooling_down(None, 0));

    // A fresh encoder that is still buffering clears the error, ends the
    // cool-down and sends nothing.
    let out = EncodeOutcome::Encoded { created: true, units: vec![], encode_us: 1500 };
    let (seq, retry, sends) = h264_step(7, retry, 6_000_000, out, &mut s);
    assert_eq!((seq, retry, sends.len()), (7, None, 0));
    assert_eq!(s.last_error, "");
    assert_eq!(s.last_encode_us, 1500);
    assert_eq!(s.frames_encoded, 0);

    // Units are numbered in order and counted.
    s.set_error("stale");
    let out = EncodeOutcome::Encoded {
        created: false,
        units: vec![unit(0x65, true), unit(0x41, false)],
        encode_us: 900,
    };
    let (seq, retry, sends) = h264_step(7, Some(3), 6_000_000, out, &mut s);
    assert_eq!((seq, retry), (9, Some(3)));
    assert_eq!(sends.len(), 2);
    assert_eq!((sends[0].0, sends[0].1.bytes[3], sends[0].1.keyframe), (8, 0x65, true));
    assert_eq!((sends[1].0, sends[1].1.bytes[3], sends[1].1.keyframe), (9, 0x41, false));
    assert_eq!(s.frames_encoded, 2);
    assert_eq!(s.last_error, "");

    // A rejected frame is a drop with its error kept; no cool-down.
    let out = EncodeOutcome::Failed { created: false, error: "dims".to_string() };
    let (seq, retry, sends) = h264_step(9, Some(3), 6_000_000, out, &mut s);
    assert_eq!((seq, retry, sends.len()), (9, None, 0));
    assert_eq!(s.frames_dropped, 1);
    assert_eq!(s.last_error, "dims");

    // A buffering, already running encoder leaves the error as it was.
    let out = EncodeOutcome::Encoded { created: false, units: vec![], encode_us: 10 };
    let (seq, _, _) = h264_step(9, None, 6_000_000, out, &mut s);
    assert_eq!(seq, 9);
    assert_eq!(s.last_error, "dims");
}

#[test]
fn mjpeg_pacing_and_bookkeeping() {
    let mut s = Stats::default();
    // Nobody watching: captured, not dropped.
    assert_eq!(frame_arrived(None, 0, 33_333, &mut s), Admission::NoClients);
    assert_eq!((s.frames_captured, s.frames_dropped), (1, 0));
    s.clients = 1;
    assert_eq!(frame_arrived(None, 10, 33_333, &mut s), Admission::Encode);
    let (seq, last) = mjpeg_sent(4, 10, 1200, &mut s);
    assert_eq!((seq, last), (5, Some(10)));
    assert_eq!((s.frames_encoded, s.last_encode_us), (1, 1200));
    // Within one interval of the last send: dropped.
    assert_eq!(frame_arrived(last, 33_342, 33_333, &mut s), Admission::TooSoon);
    assert_eq!((s.frames_captured, s.frames_dropped), (3, 1));
    // Exactly one interval later: admitted.
    assert_eq!(frame_arrived(last, 33_343, 33_333, &mut s), Admission::Encode);
    // A clock reading before the last send counts as no time.
    assert_eq!(frame_arrived(Some(50), 40, 33_333, &mut s), Admission::TooSoon);
    assert_eq!((s.frames_captured, s.frames_dropped, s.frames_encoded), (5, 2, 1));
}

#[test]
fn json_object_writer() {
    assert_eq!(write_object(&vec![]), "{}");
    let m = vec![
        ("a".to_string(), JsonField::Flag(false)),
        ("n\"".to_string(), JsonField::Number("0.5".to_string())),
        ("t".to_string(), JsonField::Text("x\ny".to_string())),
    ];
    assert_eq!(write_object(&m), "{\"a\":false,\"n\\\"\":0.5,\"t\":\"x\\u000ay\"}");
}
