use extendo_core::mjpeg::{
    part_header, single_image_headers, stream_headers, text_response, BOUNDARY, PART_TRAILER,
};

#[test]
fn stream_headers_declare_multipart_with_boundary() {
    let h = stream_headers();
    assert!(h.starts_with("HTTP/1.1 200 OK\r\n"));
    assert!(h.contains("Content-Type: multipart/x-mixed-replace; boundary=extendoframe\r\n"));
    assert!(h.ends_with("\r\n\r\n"));
}

#[test]
fn stream_headers_disable_caching() {
    let h = stream_headers();
    assert!(h.contains("Cache-Control: no-store"));
    assert!(h.contains("Pragma: no-cache"));
}

#[test]
fn part_header_carries_boundary_and_length() {
    let p = part_header(1234);
    assert!(p.starts_with("--extendoframe\r\n"));
    assert!(p.contains("Content-Type: image/jpeg\r\n"));
    assert!(p.contains("Content-Length: 1234\r\n"));
    assert!(p.ends_with("\r\n\r\n"));
}

#[test]
fn single_image_headers_report_exact_length() {
    let h = single_image_headers(42);
    assert!(h.contains("Content-Length: 42\r\n"));
    assert!(h.contains("Content-Type: image/jpeg\r\n"));
}

#[test]
fn text_response_length_matches_body_bytes() {
    let body = "{\"ok\":true}";
    let r = text_response(200, "OK", "application/json", body);
    assert!(r.contains(&format!("Content-Length: {}\r\n", body.len())));
    assert!(r.ends_with(body));
}

#[test]
fn text_response_supports_error_statuses() {
    let r = text_response(401, "Unauthorized", "application/json", "{}");
    assert!(r.starts_with("HTTP/1.1 401 Unauthorized\r\n"));
}

#[test]
fn wire_texts_are_exact() {
    assert_eq!(BOUNDARY, "extendoframe");
    assert_eq!(PART_TRAILER, [13u8, 10u8]);
    assert_eq!(
        part_header(0),
        "--extendoframe\r\nContent-Type: image/jpeg\r\nContent-Length: 0\r\n\r\n"
    );
    assert_eq!(
        single_image_headers(7),
        "HTTP/1.1 200 OK\r\nContent-Type: image/jpeg\r\nContent-Length: 7\r\nCache-Control: no-store\r\nAccess-Control-Allow-Origin: *\r\nConnection: close\r\n\r\n"
    );
    assert_eq!(
        stream_headers(),
        "HTTP/1.1 200 OK\r\nContent-Type: multipart/x-mixed-replace; boundary=extendoframe\r\nCache-Control: no-store, no-cache, must-revalidate, private\r\nPragma: no-cache\r\nConnection: close\r\nAccess-Control-Allow-Origin: *\r\n\r\n"
    );
}

#[test]
fn text_response_counts_bytes_not_chars() {
    let r = text_response(200, "OK", "text/plain", "h\u{e9}");
    assert!(r.contains("Content-Length: 3\r\n"));
    assert!(r.ends_with("\r\n\r\nh\u{e9}"));
}
