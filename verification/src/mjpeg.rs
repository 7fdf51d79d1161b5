// MJPEG (multipart/x-mixed-replace) wire framing, the browser-fallback video
// transport. Pure string building, so the exact wire format is stated here.
use vstd::prelude::*;

use crate::text::{decimal, push_decimal};

verus! {

/// Part boundary. It cannot appear in a JPEG payload as a delimiter: parts
/// are length-delimited by `Content-Length`.
pub const BOUNDARY: &'static str = "extendoframe";

/// Trailing CRLF after a part's payload, before the next boundary.
pub const PART_TRAILER: [u8; 2] = [13, 10];

/// Whether `s` ends with `suffix`.
pub open spec fn has_suffix(s: Seq<char>, suffix: Seq<char>) -> bool {
    suffix.len() <= s.len() && s.skip(s.len() - suffix.len()) == suffix
}

/// The blank line that ends an HTTP header block.
pub open spec fn header_end() -> Seq<char> {
    "\r\n\r\n"@
}

/// The streaming endpoint's response head. `Cache-Control`/`Pragma` stop
/// proxies and Android WebViews from buffering the stream.
pub open spec fn stream_headers_text() -> Seq<char> {
    "HTTP/1.1 200 OK\r\nContent-Type: multipart/x-mixed-replace; boundary="@ + BOUNDARY@
        + "\r\nCache-Control: no-store, no-cache, must-revalidate, private\r\nPragma: no-cache\r\nConnection: close\r\nAccess-Control-Allow-Origin: *\r\n\r\n"@
}

/// Head of one multipart part carrying `jpeg_len` bytes of JPEG.
pub open spec fn part_header_text(jpeg_len: nat) -> Seq<char> {
    "--"@ + BOUNDARY@ + "\r\nContent-Type: image/jpeg\r\nContent-Length: "@ + decimal(jpeg_len)
        + "\r\n\r\n"@
}

/// Head of a single-image response carrying `jpeg_len` bytes of JPEG.
pub open spec fn single_image_headers_text(jpeg_len: nat) -> Seq<char> {
    "HTTP/1.1 200 OK\r\nContent-Type: image/jpeg\r\nContent-Length: "@ + decimal(jpeg_len)
        + "\r\nCache-Control: no-store\r\nAccess-Control-Allow-Origin: *\r\nConnection: close\r\n\r\n"@
}

/// A complete text response whose `Content-Length` is the body's length in
/// bytes (`body_bytes`).
pub open spec fn text_response_text(
    status: u16,
    reason: Seq<char>,
    content_type: Seq<char>,
    body: Seq<char>,
    body_bytes: nat,
) -> Seq<char> {
    "HTTP/1.1 "@ + decimal(status as nat) + " "@ + reason + "\r\nContent-Type: "@ + content_type
        + "\r\nContent-Length: "@ + decimal(body_bytes)
        + "\r\nCache-Control: no-store\r\nAccess-Control-Allow-Origin: *\r\nConnection: close\r\n\r\n"@
        + body
}

proof fn lemma_suffix_of_concat(p: Seq<char>, q: Seq<char>)
    ensures
        has_suffix(p + q, q),
{
    assert((p + q).skip((p + q).len() - q.len()) =~= q);
}

proof fn lemma_header_block_ends(p: Seq<char>, last: Seq<char>)
    requires
        has_suffix(last, header_end()),
    ensures
        has_suffix(p + last, header_end()),
{
    reveal_strlit("\r\n\r\n");
    let s = p + last;
    assert(s.skip(s.len() - 4) =~= last.skip(last.len() - 4));
}

/// Response headers for the streaming endpoint.
pub fn stream_headers() -> (r: String)
    ensures
        r@ == stream_headers_text(),
        has_suffix(r@, header_end()),
{
    let mut r = String::from_str("HTTP/1.1 200 OK\r\nContent-Type: multipart/x-mixed-replace; boundary=");
    r.append(BOUNDARY);
    r.append(
        "\r\nCache-Control: no-store, no-cache, must-revalidate, private\r\nPragma: no-cache\r\nConnection: close\r\nAccess-Control-Allow-Origin: *\r\n\r\n",
    );
    proof {
        let last = "\r\nCache-Control: no-store, no-cache, must-revalidate, private\r\nPragma: no-cache\r\nConnection: close\r\nAccess-Control-Allow-Origin: *\r\n\r\n"@;
        reveal_strlit(
            "\r\nCache-Control: no-store, no-cache, must-revalidate, private\r\nPragma: no-cache\r\nConnection: close\r\nAccess-Control-Allow-Origin: *\r\n\r\n",
        );
        reveal_strlit("\r\n\r\n");
        assert(last.skip(last.len() - 4) =~= header_end());
        lemma_header_block_ends(
            "HTTP/1.1 200 OK\r\nContent-Type: multipart/x-mixed-replace; boundary="@ + BOUNDARY@,
            last,
        );
    }
    r
}

/// Per-frame part header. Sent immediately before the raw JPEG bytes.
pub fn part_header(jpeg_len: usize) -> (r: String)
    ensures
        r@ == part_header_text(jpeg_len as nat),
        has_suffix(r@, header_end()),
{
    let mut r = String::from_str("--");
    r.append(BOUNDARY);
    r.append("\r\nContent-Type: image/jpeg\r\nContent-Length: ");
    push_decimal(&mut r, jpeg_len as u64);
    r.append("\r\n\r\n");
    proof {
        lemma_suffix_of_concat(
            "--"@ + BOUNDARY@ + "\r\nContent-Type: image/jpeg\r\nContent-Length: "@ + decimal(
                jpeg_len as nat,
            ),
            "\r\n\r\n"@,
        );
    }
    r
}

/// A complete single-image response head (`GET /frame.jpg`), for smoke
/// tests and for clients that cannot hold a streaming connection open.
pub fn single_image_headers(jpeg_len: usize) -> (r: String)
    ensures
        r@ == single_image_headers_text(jpeg_len as nat),
        has_suffix(r@, header_end()),
{
    let mut r = String::from_str("HTTP/1.1 200 OK\r\nContent-Type: image/jpeg\r\nContent-Length: ");
    push_decimal(&mut r, jpeg_len as u64);
    r.append(
        "\r\nCache-Control: no-store\r\nAccess-Control-Allow-Origin: *\r\nConnection: close\r\n\r\n",
    );
    proof {
        let last = "\r\nCache-Control: no-store\r\nAccess-Control-Allow-Origin: *\r\nConnection: close\r\n\r\n"@;
        reveal_strlit(
            "\r\nCache-Control: no-store\r\nAccess-Control-Allow-Origin: *\r\nConnection: close\r\n\r\n",
        );
        reveal_strlit("\r\n\r\n");
        assert(last.skip(last.len() - 4) =~= header_end());
        lemma_header_block_ends(
            "HTTP/1.1 200 OK\r\nContent-Type: image/jpeg\r\nContent-Length: "@ + decimal(
                jpeg_len as nat,
            ),
            last,
        );
    }
    r
}

/// Minimal JSON/text response used for `/health` and error replies. Its
/// `Content-Length` is the body's length in bytes, and the body ends it.
pub fn text_response(status: u16, reason: &str, content_type: &str, body: &str) -> (r: String)
    ensures
        r@ == text_response_text(
            status,
            reason@,
            content_type@,
            body@,
            body.len() as nat,
        ),
        has_suffix(r@, body@),
{
    let mut r = String::from_str("HTTP/1.1 ");
    push_decimal(&mut r, status as u64);
    r.append(" ");
    r.append(reason);
    r.append("\r\nContent-Type: ");
    r.append(content_type);
    r.append("\r\nContent-Length: ");
    push_decimal(&mut r, body.len() as u64);
    r.append(
        "\r\nCache-Control: no-store\r\nAccess-Control-Allow-Origin: *\r\nConnection: close\r\n\r\n",
    );
    let ghost head = r@;
    r.append(body);
    proof {
        lemma_suffix_of_concat(head, body@);
    }
    r
}

} // verus!
