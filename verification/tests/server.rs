use extendo_core::server::{
    head_complete, no_frame_reply, parse_request, percent_decode, query_param, route_reply,
    route_request, token_ok, Route, MAX_HEAD,
};

#[test]
fn parses_a_normal_request_line() {
    let r = parse_request("GET /video.mjpg?token=abc HTTP/1.1\r\nHost: x\r\n\r\n").expect("parse");
    assert_eq!(r.method, "GET");
    assert_eq!(r.path, "/video.mjpg");
    assert_eq!(r.query, "token=abc");
}

#[test]
fn parses_request_without_query() {
    let r = parse_request("GET /health HTTP/1.1\r\n\r\n").expect("parse");
    assert_eq!(r.path, "/health");
    assert_eq!(r.query, "");
}

#[test]
fn rejects_malformed_request_lines() {
    assert!(parse_request("").is_err());
    assert!(parse_request("GET\r\n").is_err());
    assert!(parse_request("GET /only-two-parts\r\n").is_err());
}

#[test]
fn reads_query_params() {
    assert_eq!(query_param("token=abc&x=1", "token").as_deref(), Some("abc"));
    assert_eq!(query_param("x=1&token=abc", "token").as_deref(), Some("abc"));
    assert_eq!(query_param("x=1", "token"), None);
    assert_eq!(query_param("", "token"), None);
}

#[test]
fn percent_decodes_tokens() {
    assert_eq!(percent_decode("a%2Bb"), "a+b");
    assert_eq!(percent_decode("a+b"), "a b");
    assert_eq!(percent_decode("plain"), "plain");
    assert_eq!(percent_decode("%zz"), "%zz");
}

#[test]
fn token_check_accepts_only_exact_match() {
    assert!(token_ok("secret", Some("secret")));
    assert!(!token_ok("secret", Some("secrez")));
    assert!(!token_ok("secret", Some("secre")));
    assert!(!token_ok("secret", Some("secretx")));
    assert!(!token_ok("secret", None));
}

#[test]
fn empty_expected_token_is_dev_loopback_mode() {
    assert!(token_ok("", None));
    assert!(token_ok("", Some("anything")));
}

#[test]
fn request_line_error_messages() {
    assert_eq!(parse_request("").unwrap_err(), "empty request");
    assert_eq!(parse_request("\r\n").unwrap_err(), "no method");
    assert_eq!(parse_request("GET\r\n").unwrap_err(), "no target");
    assert_eq!(parse_request("GET /x\r\n").unwrap_err(), "no HTTP version");
}

#[test]
fn request_line_splits_on_any_whitespace_and_first_question_mark() {
    let r = parse_request("POST\t /a?b?c \u{a0}HTTP/1.0 extra").expect("parse");
    assert_eq!(r.method, "POST");
    assert_eq!(r.path, "/a");
    assert_eq!(r.query, "b?c");
    // Only the first line counts.
    assert!(parse_request("GET\n/x HTTP/1.1").is_err());
}

#[test]
fn query_param_edge_cases() {
    assert_eq!(query_param("token&token=b", "token").as_deref(), Some("b"));
    assert_eq!(query_param("token=a=b", "token").as_deref(), Some("a=b"));
    assert_eq!(query_param("token=&token=b", "token").as_deref(), Some(""));
    assert_eq!(query_param("tok=1&token=%41", "token").as_deref(), Some("A"));
}

#[test]
fn percent_decode_escape_rules() {
    assert_eq!(percent_decode("%41%62"), "Ab");
    assert_eq!(percent_decode("%4"), "%4");
    // Only two hex digits make an escape; a sign does not.
    assert_eq!(percent_decode("%+5x"), "% 5x");
    assert_eq!(percent_decode("%+1"), "% 1");
    assert_eq!(percent_decode("%-5"), "%-5");
    assert_eq!(percent_decode("%ff"), "\u{fffd}");
    assert_eq!(percent_decode("\u{e9}+"), "\u{e9} ");
}

#[test]
fn head_completion() {
    assert!(head_complete(b"GET / HTTP/1.1\r\n\r\n"));
    assert!(!head_complete(b"GET / HTTP/1.1\r\n"));
    assert!(head_complete(&vec![b'a'; MAX_HEAD + 1]));
    assert!(!head_complete(&vec![b'a'; MAX_HEAD]));
    assert_eq!(MAX_HEAD, 8192);
}

#[test]
fn routing_decisions() {
    assert_eq!(route_request(b"garbage", "t"), Route::BadRequest);
    assert_eq!(route_request(b"POST /health HTTP/1.1\r\n\r\n", "t"), Route::MethodNotAllowed);
    assert_eq!(route_request(b"GET /health HTTP/1.1\r\n\r\n", "t"), Route::Health);
    assert_eq!(route_request(b"GET /video.mjpg HTTP/1.1\r\n\r\n", "t"), Route::Unauthorized);
    assert_eq!(route_request(b"GET /video.mjpg?token=x HTTP/1.1\r\n\r\n", "t"), Route::Unauthorized);
    assert_eq!(route_request(b"GET /video.mjpg?token=t HTTP/1.1\r\n\r\n", "t"), Route::Stream);
    assert_eq!(route_request(b"GET /frame.jpg?token=t HTTP/1.1\r\n\r\n", "t"), Route::Frame);
    assert_eq!(route_request(b"GET /frame.jpg HTTP/1.1\r\n\r\n", ""), Route::Frame);
    assert_eq!(route_request(b"GET /nope?token=t HTTP/1.1\r\n\r\n", "t"), Route::NotFound);
    assert_eq!(route_request(b"GET /nope HTTP/1.1\r\n\r\n", "t"), Route::Unauthorized);
}

#[test]
fn fixed_replies() {
    assert_eq!(
        route_reply(Route::Unauthorized).expect("reply"),
        "HTTP/1.1 401 Unauthorized\r\nContent-Type: application/json\r\nContent-Length: 34\r\nCache-Control: no-store\r\nAccess-Control-Allow-Origin: *\r\nConnection: close\r\n\r\n{\"error\":\"pairing token required\"}"
    );
    assert!(route_reply(Route::BadRequest).expect("reply").starts_with("HTTP/1.1 400 Bad Request\r\n"));
    assert!(route_reply(Route::MethodNotAllowed).expect("reply").ends_with("{\"error\":\"GET only\"}"));
    assert!(route_reply(Route::NotFound).expect("reply").starts_with("HTTP/1.1 404 Not Found\r\n"));
    assert!(route_reply(Route::Health).is_none());
    assert!(route_reply(Route::Frame).is_none());
    assert!(route_reply(Route::Stream).is_none());
    assert!(no_frame_reply().starts_with("HTTP/1.1 503 Service Unavailable\r\n"));
    assert!(no_frame_reply().ends_with("{\"error\":\"no frame yet\"}"));
}
