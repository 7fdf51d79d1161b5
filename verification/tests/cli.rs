use extendo_core::cli::{is_loopback, Args};

fn args(s: &[&str]) -> Result<Args, String> {
    Args::parse(s.iter().map(|x| (*x).to_string()).collect())
}

#[test]
fn defaults_are_loopback_and_720p30() {
    let a = Args::default();
    assert_eq!(a.bind, "127.0.0.1");
    assert_eq!((a.width, a.height, a.fps), (1280, 720, 30));
    assert!(a.validate().is_ok());
}

#[test]
fn parses_flags() {
    let a = args(&[
        "--port", "9600", "--bind", "0.0.0.0", "--token", "abc", "--monitor", "2", "--width",
        "1920", "--height", "1080", "--fps", "60", "--quality", "80",
    ])
    .expect("parse");
    assert_eq!(a.port, 9600);
    assert_eq!(a.bind, "0.0.0.0");
    assert_eq!(a.token, "abc");
    assert_eq!(a.monitor, 2);
    assert_eq!((a.width, a.height, a.fps, a.quality), (1920, 1080, 60, 80));
}

#[test]
fn rejects_public_bind_without_token() {
    // The core security invariant: no unauthenticated LAN exposure.
    let err = args(&["--bind", "0.0.0.0"]).unwrap_err();
    assert!(err.contains("--token"), "unexpected error: {err}");
}

#[test]
fn allows_public_bind_with_token() {
    assert!(args(&["--bind", "0.0.0.0", "--token", "s3cret"]).is_ok());
}

#[test]
fn allows_loopback_without_token_for_adb_reverse() {
    assert!(args(&["--bind", "127.0.0.1"]).is_ok());
    assert!(args(&["--bind", "localhost"]).is_ok());
}

#[test]
fn rejects_out_of_range_video_settings() {
    assert!(args(&["--fps", "0"]).is_err());
    assert!(args(&["--fps", "120"]).is_err(), "v1 caps at 60fps");
    assert!(args(&["--width", "3840", "--height", "2160"]).is_err(), "no 4K in v1");
    assert!(args(&["--quality", "0"]).is_err());
}

#[test]
fn rejects_unknown_and_valueless_flags() {
    assert!(args(&["--nope", "1"]).is_err());
    assert!(args(&["--port"]).is_err());
}

#[test]
fn frame_interval_matches_fps() {
    let a = args(&["--fps", "30"]).expect("parse");
    assert_eq!(a.frame_interval(), std::time::Duration::from_micros(33_333));
}

#[test]
fn loopback_detection() {
    assert!(is_loopback("127.0.0.1"));
    assert!(is_loopback("127.0.0.53"));
    assert!(is_loopback("::1"));
    assert!(!is_loopback("0.0.0.0"));
    assert!(!is_loopback("192.168.1.10"));
}

#[test]
fn parse_error_messages_are_exact() {
    assert_eq!(args(&["--nope", "1"]).unwrap_err(), "unknown flag --nope");
    assert_eq!(args(&["--port"]).unwrap_err(), "--port needs a value");
    assert_eq!(args(&["--port", "70000"]).unwrap_err(), "bad --port");
    assert_eq!(args(&["--quality", "256"]).unwrap_err(), "bad --quality");
    assert_eq!(args(&["--width", "-5"]).unwrap_err(), "bad --width");
    assert_eq!(args(&["--fps", ""]).unwrap_err(), "bad --fps");
    assert_eq!(args(&["--fps", "+"]).unwrap_err(), "bad --fps");
    assert_eq!(
        args(&["--bind", "0.0.0.0"]).unwrap_err(),
        "refusing to bind 0.0.0.0 without --token (AGENTS.md 7.6: no open bind without auth)"
    );
    assert_eq!(args(&["--fps", "61"]).unwrap_err(), "--fps must be 1..=60 (v1 caps at 60)");
    assert_eq!(
        args(&["--height", "1081"]).unwrap_err(),
        "--width/--height must fit within 1920x1080 (v1 SDR cap)"
    );
    assert_eq!(args(&["--quality", "101"]).unwrap_err(), "--quality must be 1..=100");
}

#[test]
fn numbers_accept_a_plus_sign_and_leading_zeros() {
    let a = args(&["--port", "+0080", "--monitor", "007"]).expect("parse");
    assert_eq!(a.port, 80);
    assert_eq!(a.monitor, 7);
    assert_eq!(args(&["--port", "65535"]).expect("parse").port, 65535);
}

#[test]
fn codec_and_bitrate_flags() {
    let a = args(&["--codec", "h264"]).expect("parse");
    assert_eq!(a.codec, "h264");
    assert_eq!(Args::default().codec, "mjpeg");
    assert_eq!(Args::default().bitrate_kbps, 4000);
    // An unknown codec is accepted and simply runs MJPEG.
    assert_eq!(args(&["--codec", "hevc"]).expect("parse").codec, "hevc");
    assert_eq!(args(&["--bitrate-kbps", "8000"]).unwrap_err(), "unknown flag --bitrate-kbps");
}

#[test]
fn later_flags_override_earlier_ones() {
    let a = args(&["--fps", "10", "--fps", "20"]).expect("parse");
    assert_eq!(a.fps, 20);
}

#[test]
fn frame_interval_micros_of_60fps() {
    let a = args(&["--fps", "60"]).expect("parse");
    assert_eq!(a.frame_interval_micros(), 16_666);
    let mut z = Args::default();
    z.fps = 0;
    assert_eq!(z.frame_interval_micros(), 1_000_000);
}

#[test]
fn loopback_rejects_lookalikes() {
    assert!(!is_loopback("128.0.0.1"));
    assert!(!is_loopback("localhost.evil"));
    assert!(!is_loopback("127"));
    assert!(!is_loopback("127."));
    assert!(!is_loopback("127.attacker.example"));
    assert!(!is_loopback("127.0.0.01"));
    assert!(!is_loopback("127.0.0.256"));
    assert!(!is_loopback("127.0.0.1.5"));
    assert!(is_loopback("127.255.255.255"));
    assert!(is_loopback("127.1.2.3"));
}
