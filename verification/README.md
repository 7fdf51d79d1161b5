# extendo-core

The capture core of extendo (phone as an extended second monitor), as a
Verus-verified library plus a thin Windows host program.

## Layout

- `src/` — the verified library
  - `cli.rs` — command-line parsing and validation; the proof that an
    accepted configuration never listens beyond loopback (`localhost`,
    `::1` or an IPv4 literal in 127.0.0.0/8) without a token
  - `frame.rs` — fit-to-cap sizing, nearest-neighbour RGBA to RGB and to
    NV12 (BT.601), JPEG encoding through `jpeg-encoder`
  - `h264.rs` — encoder limits, bitrate ladder, Annex B start codes, NAL
    split (with the proof that clean units written behind start codes split
    back into exactly those units), IDR keyframe detection
  - `mf.rs` — encoder input checks, buffer sizing, access-unit framing
  - `capture.rs` — per-frame decisions of the capture callback: frame
    pacing (with the proof that sends stay one frame interval apart), the
    MJPEG and H.264 bookkeeping steps (sequence numbers, counters, errors,
    retry)
  - `mjpeg.rs` — multipart/x-mixed-replace framing and text responses
  - `server.rs` — request-line parsing, query lookup, percent-decoding,
    token check, routing
  - `lib.rs` — health statistics and their JSON
  - `json.rs` — JSON string escaping and object writing, with the proofs
    that a reader gets the escaped text and the object's members back
  - `text.rs` — string helpers (decimal rendering, comparison)
- `tests/` — behaviour tests on concrete values
- `app/` — the program: Windows Graphics Capture and Media Foundation glue
  (Windows only), the tokio HTTP loop, and millisecond formatting
