// extendo capture core: the verified library.
//
// Pipeline: screen capture -> downscale/RGB -> JPEG -> MJPEG over HTTP, or
// capture -> NV12 -> H.264 -> Annex B over HTTP. This crate holds the logic
// of that pipeline (configuration, pixel conversion, bytestream framing,
// HTTP request handling and health reporting); the capture callback, the
// hardware encoder and the sockets drive it from outside.
//
// No paywall logic lives here: caps arrive as command-line flags from the
// Node host, which owns the entitlement source of truth.
pub mod capture;
pub mod cli;
pub mod frame;
pub mod h264;
pub mod json;
pub mod mf;
pub mod mjpeg;
pub mod server;
pub mod text;

use vstd::prelude::*;

use crate::cli::Args;
use crate::json::{
    json_body, json_body_value, json_number, law_json_body_round_trip, law_object_round_trip,
    lemma_decimal_is_number, lemma_decimal_value, lemma_member_value_at, member_value, members_view,
    number_value, object_text, push_json_body, read_object, value_ok,
    write_object, JsonField, JsonValue,
};
use crate::text::{decimal, push_char, push_decimal};

verus! {

/// Process-wide counters surfaced by `GET /health` for the RTT/fps overlay
/// and for diagnostics collection. The owner shares it between the capture
/// thread and the HTTP tasks behind a lock.
#[derive(Debug)]
pub struct Stats {
    pub frames_captured: u64,
    pub frames_encoded: u64,
    pub frames_dropped: u64,
    pub clients: usize,
    /// Last encode duration in microseconds.
    pub last_encode_us: u64,
    pub last_capture_us: u64,
    /// Last encoder error (empty = healthy).
    pub last_error: String,
}

impl Default for Stats {
    fn default() -> (s: Self)
        ensures
            s.frames_captured == 0 && s.frames_encoded == 0 && s.frames_dropped == 0,
            s.clients == 0 && s.last_encode_us == 0 && s.last_capture_us == 0,
            s.last_error@.len() == 0,
    {
        Stats {
            frames_captured: 0,
            frames_encoded: 0,
            frames_dropped: 0,
            clients: 0,
            last_encode_us: 0,
            last_capture_us: 0,
            last_error: String::new(),
        }
    }
}

/// The counters of two snapshots agree.
pub open spec fn same_counters(a: Stats, b: Stats) -> bool {
    &&& a.frames_captured == b.frames_captured
    &&& a.frames_encoded == b.frames_encoded
    &&& a.frames_dropped == b.frames_dropped
    &&& a.clients == b.clients
    &&& a.last_encode_us == b.last_encode_us
    &&& a.last_capture_us == b.last_capture_us
}

/// How one character of an error message is reported: a double quote
/// becomes a single quote and a newline a space, so the message reads as
/// one line; every other character stays.
pub open spec fn error_char(c: char) -> char {
    if c == '"' {
        '\''
    } else if c == '\n' {
        ' '
    } else {
        c
    }
}

/// An error message as it is reported, before JSON escaping.
pub open spec fn error_text(s: Seq<char>) -> Seq<char> {
    s.map_values(|c: char| error_char(c))
}

/// The error field of `/health` reads back as the last error with each
/// double quote turned into a single quote and each newline into a space,
/// backslashes and everything else kept.
pub proof fn law_error_field_reads_back(s: Seq<char>)
    ensures
        json_body_value(json_body(error_text(s))) == Some(error_text(s)),
        error_text(s).len() == s.len(),
        forall|k: int|
            0 <= k < s.len() ==> #[trigger] error_text(s)[k] != '"' && error_text(s)[k] != '\n'
                && (s[k] != '"' && s[k] != '\n' ==> error_text(s)[k] == s[k]),
{
    law_json_body_round_trip(error_text(s));
}

/// The members of the `/health` object, in order: the configuration, the
/// counters, the last encode and capture durations (as number texts) and
/// the last error as it is reported.
pub open spec fn health_members(
    stats: Stats,
    cfg: cli::ArgsView,
    source: Seq<char>,
    encode_ms: Seq<char>,
    capture_ms: Seq<char>,
) -> Seq<(Seq<char>, JsonValue)> {
    seq![
        ("ok"@, JsonValue::Flag(true)),
        ("source"@, JsonValue::Text(source)),
        ("monitor"@, JsonValue::Number(decimal(cfg.monitor as nat))),
        ("width"@, JsonValue::Number(decimal(cfg.width as nat))),
        ("height"@, JsonValue::Number(decimal(cfg.height as nat))),
        ("fps"@, JsonValue::Number(decimal(cfg.fps as nat))),
        ("quality"@, JsonValue::Number(decimal(cfg.quality as nat))),
        ("codec"@, JsonValue::Text(cfg.codec)),
        ("bitrate_kbps"@, JsonValue::Number(decimal(cfg.bitrate_kbps as nat))),
        ("captured"@, JsonValue::Number(decimal(stats.frames_captured as nat))),
        ("encoded"@, JsonValue::Number(decimal(stats.frames_encoded as nat))),
        ("dropped"@, JsonValue::Number(decimal(stats.frames_dropped as nat))),
        ("clients"@, JsonValue::Number(decimal(stats.clients as nat))),
        ("encode_ms"@, JsonValue::Number(encode_ms)),
        ("capture_ms"@, JsonValue::Number(capture_ms)),
        ("error"@, JsonValue::Text(error_text(stats.last_error@))),
    ]
}

/// The `/health` JSON object.
pub open spec fn health_json(
    stats: Stats,
    cfg: cli::ArgsView,
    source: Seq<char>,
    encode_ms: Seq<char>,
    capture_ms: Seq<char>,
) -> Seq<char> {
    object_text(health_members(stats, cfg, source, encode_ms, capture_ms))
}

/// The `/health` text is one JSON object: read back, it gives exactly its
/// members, among them `source` with the capture source's name as is and
/// `error` with the last error, double quotes turned into single quotes
/// and newlines into spaces (empty once the error was cleared). The two
/// durations are rendered by the caller and must be JSON numbers.
pub proof fn law_health_json_reads_back(
    stats: Stats,
    cfg: cli::ArgsView,
    source: Seq<char>,
    encode_ms: Seq<char>,
    capture_ms: Seq<char>,
)
    requires
        json_number(encode_ms),
        json_number(capture_ms),
    ensures
        read_object(health_json(stats, cfg, source, encode_ms, capture_ms)) == Some(
            health_members(stats, cfg, source, encode_ms, capture_ms),
        ),
        health_members(stats, cfg, source, encode_ms, capture_ms)[1] == ("source"@,
        JsonValue::Text(source)),
        health_members(stats, cfg, source, encode_ms, capture_ms)[15] == ("error"@,
        JsonValue::Text(error_text(stats.last_error@))),
        stats.last_error@.len() == 0 ==> error_text(stats.last_error@).len() == 0,
{
    let ms = health_members(stats, cfg, source, encode_ms, capture_ms);
    lemma_decimal_is_number(cfg.monitor as nat);
    lemma_decimal_is_number(cfg.width as nat);
    lemma_decimal_is_number(cfg.height as nat);
    lemma_decimal_is_number(cfg.fps as nat);
    lemma_decimal_is_number(cfg.quality as nat);
    lemma_decimal_is_number(cfg.bitrate_kbps as nat);
    lemma_decimal_is_number(stats.frames_captured as nat);
    lemma_decimal_is_number(stats.frames_encoded as nat);
    lemma_decimal_is_number(stats.frames_dropped as nat);
    lemma_decimal_is_number(stats.clients as nat);
    assert forall|i: int| 0 <= i < ms.len() implies value_ok(#[trigger] ms[i].1) by {}
    law_object_round_trip(ms);
}

/// The value of the number member called `name`, read as a number.
pub open spec fn number_member(ms: Seq<(Seq<char>, JsonValue)>, name: Seq<char>) -> Option<nat> {
    match member_value(ms, name) {
        Some(JsonValue::Number(d)) => Some(number_value(d)),
        _ => None,
    }
}

/// Each member of the `/health` object, looked up by name in what a JSON
/// reader takes from the text, reports its own field: every counter and
/// configuration number reads back as that very number (`dropped` is the
/// dropped-frame counter, `captured` the captured-frame counter, and so
/// on), the texts are the source, the codec and the reported error, and
/// `ok` is `true`.
pub proof fn law_health_members_by_name(
    stats: Stats,
    cfg: cli::ArgsView,
    source: Seq<char>,
    encode_ms: Seq<char>,
    capture_ms: Seq<char>,
)
    requires
        json_number(encode_ms),
        json_number(capture_ms),
    ensures
        read_object(health_json(stats, cfg, source, encode_ms, capture_ms)) matches Some(ms)
            && member_value(ms, "ok"@) == Some(JsonValue::Flag(true))
            && member_value(ms, "source"@) == Some(JsonValue::Text(source))
            && member_value(ms, "codec"@) == Some(JsonValue::Text(cfg.codec))
            && member_value(ms, "error"@) == Some(JsonValue::Text(error_text(stats.last_error@)))
            && member_value(ms, "encode_ms"@) == Some(JsonValue::Number(encode_ms))
            && member_value(ms, "capture_ms"@) == Some(JsonValue::Number(capture_ms))
            && number_member(ms, "monitor"@) == Some(cfg.monitor as nat)
            && number_member(ms, "width"@) == Some(cfg.width as nat)
            && number_member(ms, "height"@) == Some(cfg.height as nat)
            && number_member(ms, "fps"@) == Some(cfg.fps as nat)
            && number_member(ms, "quality"@) == Some(cfg.quality as nat)
            && number_member(ms, "bitrate_kbps"@) == Some(cfg.bitrate_kbps as nat)
            && number_member(ms, "captured"@) == Some(stats.frames_captured as nat)
            && number_member(ms, "encoded"@) == Some(stats.frames_encoded as nat)
            && number_member(ms, "dropped"@) == Some(stats.frames_dropped as nat)
            && number_member(ms, "clients"@) == Some(stats.clients as nat),
{
    let ms = health_members(stats, cfg, source, encode_ms, capture_ms);
    law_health_json_reads_back(stats, cfg, source, encode_ms, capture_ms);
    reveal_strlit("ok");
    reveal_strlit("source");
    reveal_strlit("monitor");
    reveal_strlit("width");
    reveal_strlit("height");
    reveal_strlit("fps");
    reveal_strlit("quality");
    reveal_strlit("codec");
    reveal_strlit("bitrate_kbps");
    reveal_strlit("captured");
    reveal_strlit("encoded");
    reveal_strlit("dropped");
    reveal_strlit("clients");
    reveal_strlit("encode_ms");
    reveal_strlit("capture_ms");
    reveal_strlit("error");
    lemma_member_value_at(ms, "ok"@, 0);
    assert forall|j: int| 0 <= j < 1 implies (#[trigger] ms[j]).0 != "source"@ by {
        if j == 0 {
            assert(ms[0].0 == "ok"@);
            assert("ok"@.len() != "source"@.len());
        }
    }
    lemma_member_value_at(ms, "source"@, 1);
    assert forall|j: int| 0 <= j < 2 implies (#[trigger] ms[j]).0 != "monitor"@ by {
        if j == 0 {
            assert(ms[0].0 == "ok"@);
            assert("ok"@.len() != "monitor"@.len());
        } else if j == 1 {
            assert(ms[1].0 == "source"@);
            assert("source"@.len() != "monitor"@.len());
        }
    }
    lemma_member_value_at(ms, "monitor"@, 2);
    assert forall|j: int| 0 <= j < 3 implies (#[trigger] ms[j]).0 != "width"@ by {
        if j == 0 {
            assert(ms[0].0 == "ok"@);
            assert("ok"@.len() != "width"@.len());
        } else if j == 1 {
            assert(ms[1].0 == "source"@);
            assert("source"@.len() != "width"@.len());
        } else if j == 2 {
            assert(ms[2].0 == "monitor"@);
            assert("monitor"@.len() != "width"@.len());
        }
    }
    lemma_member_value_at(ms, "width"@, 3);
    assert forall|j: int| 0 <= j < 4 implies (#[trigger] ms[j]).0 != "height"@ by {
        if j == 0 {
            assert(ms[0].0 == "ok"@);
            assert("ok"@.len() != "height"@.len());
        } else if j == 1 {
            assert(ms[1].0 == "source"@);
            assert("source"@[0] != "height"@[0]);
        } else if j == 2 {
            assert(ms[2].0 == "monitor"@);
            assert("monitor"@.len() != "height"@.len());
        } else if j == 3 {
            assert(ms[3].0 == "width"@);
            assert("width"@.len() != "height"@.len());
        }
    }
    lemma_member_value_at(ms, "height"@, 4);
    assert forall|j: int| 0 <= j < 5 implies (#[trigger] ms[j]).0 != "fps"@ by {
        if j == 0 {
            assert(ms[0].0 == "ok"@);
            assert("ok"@.len() != "fps"@.len());
        } else if j == 1 {
            assert(ms[1].0 == "source"@);
            assert("source"@.len() != "fps"@.len());
        } else if j == 2 {
            assert(ms[2].0 == "monitor"@);
            assert("monitor"@.len() != "fps"@.len());
        } else if j == 3 {
            assert(ms[3].0 == "width"@);
            assert("width"@.len() != "fps"@.len());
        } else if j == 4 {
            assert(ms[4].0 == "height"@);
            assert("height"@.len() != "fps"@.len());
        }
    }
    lemma_member_value_at(ms, "fps"@, 5);
    assert forall|j: int| 0 <= j < 6 implies (#[trigger] ms[j]).0 != "quality"@ by {
        if j == 0 {
            assert(ms[0].0 == "ok"@);
            assert("ok"@.len() != "quality"@.len());
        } else if j == 1 {
            assert(ms[1].0 == "source"@);
            assert("source"@.len() != "quality"@.len());
        } else if j == 2 {
            assert(ms[2].0 == "monitor"@);
            assert("monitor"@[0] != "quality"@[0]);
        } else if j == 3 {
            assert(ms[3].0 == "width"@);
            assert("width"@.len() != "quality"@.len());
        } else if j == 4 {
            assert(ms[4].0 == "height"@);
            assert("height"@.len() != "quality"@.len());
        } else if j == 5 {
            assert(ms[5].0 == "fps"@);
            assert("fps"@.len() != "quality"@.len());
        }
    }
    lemma_member_value_at(ms, "quality"@, 6);
    assert forall|j: int| 0 <= j < 7 implies (#[trigger] ms[j]).0 != "codec"@ by {
        if j == 0 {
            assert(ms[0].0 == "ok"@);
            assert("ok"@.len() != "codec"@.len());
        } else if j == 1 {
            assert(ms[1].0 == "source"@);
            assert("source"@.len() != "codec"@.len());
        } else if j == 2 {
            assert(ms[2].0 == "monitor"@);
            assert("monitor"@.len() != "codec"@.len());
        } else if j == 3 {
            assert(ms[3].0 == "width"@);
            assert("width"@[0] != "codec"@[0]);
        } else if j == 4 {
            assert(ms[4].0 == "height"@);
            assert("height"@.len() != "codec"@.len());
        } else if j == 5 {
            assert(ms[5].0 == "fps"@);
            assert("fps"@.len() != "codec"@.len());
        } else if j == 6 {
            assert(ms[6].0 == "quality"@);
            assert("quality"@.len() != "codec"@.len());
        }
    }
    lemma_member_value_at(ms, "codec"@, 7);
    assert forall|j: int| 0 <= j < 8 implies (#[trigger] ms[j]).0 != "bitrate_kbps"@ by {
        if j == 0 {
            assert(ms[0].0 == "ok"@);
            assert("ok"@.len() != "bitrate_kbps"@.len());
        } else if j == 1 {
            assert(ms[1].0 == "source"@);
            assert("source"@.len() != "bitrate_kbps"@.len());
        } else if j == 2 {
            assert(ms[2].0 == "monitor"@);
            assert("monitor"@.len() != "bitrate_kbps"@.len());
        } else if j == 3 {
            assert(ms[3].0 == "width"@);
            assert("width"@.len() != "bitrate_kbps"@.len());
        } else if j == 4 {
            assert(ms[4].0 == "height"@);
            assert("height"@.len() != "bitrate_kbps"@.len());
        } else if j == 5 {
            assert(ms[5].0 == "fps"@);
            assert("fps"@.len() != "bitrate_kbps"@.len());
        } else if j == 6 {
            assert(ms[6].0 == "quality"@);
            assert("quality"@.len() != "bitrate_kbps"@.len());
        } else if j == 7 {
            assert(ms[7].0 == "codec"@);
            assert("codec"@.len() != "bitrate_kbps"@.len());
        }
    }
    lemma_member_value_at(ms, "bitrate_kbps"@, 8);
    assert forall|j: int| 0 <= j < 9 implies (#[trigger] ms[j]).0 != "captured"@ by {
        if j == 0 {
            assert(ms[0].0 == "ok"@);
            assert("ok"@.len() != "captured"@.len());
        } else if j == 1 {
            assert(ms[1].0 == "source"@);
            assert("source"@.len() != "captured"@.len());
        } else if j == 2 {
            assert(ms[2].0 == "monitor"@);
            assert("monitor"@.len() != "captured"@.len());
        } else if j == 3 {
            assert(ms[3].0 == "width"@);
            assert("width"@.len() != "captured"@.len());
        } else if j == 4 {
            assert(ms[4].0 == "height"@);
            assert("height"@.len() != "captured"@.len());
        } else if j == 5 {
            assert(ms[5].0 == "fps"@);
            assert("fps"@.len() != "captured"@.len());
        } else if j == 6 {
            assert(ms[6].0 == "quality"@);
            assert("quality"@.len() != "captured"@.len());
        } else if j == 7 {
            assert(ms[7].0 == "codec"@);
            assert("codec"@.len() != "captured"@.len());
        } else if j == 8 {
            assert(ms[8].0 == "bitrate_kbps"@);
            assert("bitrate_kbps"@.len() != "captured"@.len());
        }
    }
    lemma_member_value_at(ms, "captured"@, 9);
    assert forall|j: int| 0 <= j < 10 implies (#[trigger] ms[j]).0 != "encoded"@ by {
        if j == 0 {
            assert(ms[0].0 == "ok"@);
            assert("ok"@.len() != "encoded"@.len());
        } else if j == 1 {
            assert(ms[1].0 == "source"@);
            assert("source"@.len() != "encoded"@.len());
        } else if j == 2 {
            assert(ms[2].0 == "monitor"@);
            assert("monitor"@[0] != "encoded"@[0]);
        } else if j == 3 {
            assert(ms[3].0 == "width"@);
            assert("width"@.len() != "encoded"@.len());
        } else if j == 4 {
            assert(ms[4].0 == "height"@);
            assert("height"@.len() != "encoded"@.len());
        } else if j == 5 {
            assert(ms[5].0 == "fps"@);
            assert("fps"@.len() != "encoded"@.len());
        } else if j == 6 {
            assert(ms[6].0 == "quality"@);
            assert("quality"@[0] != "encoded"@[0]);
        } else if j == 7 {
            assert(ms[7].0 == "codec"@);
            assert("codec"@.len() != "encoded"@.len());
        } else if j == 8 {
            assert(ms[8].0 == "bitrate_kbps"@);
            assert("bitrate_kbps"@.len() != "encoded"@.len());
        } else if j == 9 {
            assert(ms[9].0 == "captured"@);
            assert("captured"@.len() != "encoded"@.len());
        }
    }
    lemma_member_value_at(ms, "encoded"@, 10);
    assert forall|j: int| 0 <= j < 11 implies (#[trigger] ms[j]).0 != "dropped"@ by {
        if j == 0 {
            assert(ms[0].0 == "ok"@);
            assert("ok"@.len() != "dropped"@.len());
        } else if j == 1 {
            assert(ms[1].0 == "source"@);
            assert("source"@.len() != "dropped"@.len());
        } else if j == 2 {
            assert(ms[2].0 == "monitor"@);
            assert("monitor"@[0] != "dropped"@[0]);
        } else if j == 3 {
            assert(ms[3].0 == "width"@);
            assert("width"@.len() != "dropped"@.len());
        } else if j == 4 {
            assert(ms[4].0 == "height"@);
            assert("height"@.len() != "dropped"@.len());
        } else if j == 5 {
            assert(ms[5].0 == "fps"@);
            assert("fps"@.len() != "dropped"@.len());
        } else if j == 6 {
            assert(ms[6].0 == "quality"@);
            assert("quality"@[0] != "dropped"@[0]);
        } else if j == 7 {
            assert(ms[7].0 == "codec"@);
            assert("codec"@.len() != "dropped"@.len());
        } else if j == 8 {
            assert(ms[8].0 == "bitrate_kbps"@);
            assert("bitrate_kbps"@.len() != "dropped"@.len());
        } else if j == 9 {
            assert(ms[9].0 == "captured"@);
            assert("captured"@.len() != "dropped"@.len());
        } else if j == 10 {
            assert(ms[10].0 == "encoded"@);
            assert("encoded"@[0] != "dropped"@[0]);
        }
    }
    lemma_member_value_at(ms, "dropped"@, 11);
    assert forall|j: int| 0 <= j < 12 implies (#[trigger] ms[j]).0 != "clients"@ by {
        if j == 0 {
            assert(ms[0].0 == "ok"@);
            assert("ok"@.len() != "clients"@.len());
        } else if j == 1 {
            assert(ms[1].0 == "source"@);
            assert("source"@.len() != "clients"@.len());
        } else if j == 2 {
            assert(ms[2].0 == "monitor"@);
            assert("monitor"@[0] != "clients"@[0]);
        } else if j == 3 {
            assert(ms[3].0 == "width"@);
            assert("width"@.len() != "clients"@.len());
        } else if j == 4 {
            assert(ms[4].0 == "height"@);
            assert("height"@.len() != "clients"@.len());
        } else if j == 5 {
            assert(ms[5].0 == "fps"@);
            assert("fps"@.len() != "clients"@.len());
        } else if j == 6 {
            assert(ms[6].0 == "quality"@);
            assert("quality"@[0] != "clients"@[0]);
        } else if j == 7 {
            assert(ms[7].0 == "codec"@);
            assert("codec"@.len() != "clients"@.len());
        } else if j == 8 {
            assert(ms[8].0 == "bitrate_kbps"@);
            assert("bitrate_kbps"@.len() != "clients"@.len());
        } else if j == 9 {
            assert(ms[9].0 == "captured"@);
            assert("captured"@.len() != "clients"@.len());
        } else if j == 10 {
            assert(ms[10].0 == "encoded"@);
            assert("encoded"@[0] != "clients"@[0]);
        } else if j == 11 {
            assert(ms[11].0 == "dropped"@);
            assert("dropped"@[0] != "clients"@[0]);
        }
    }
    lemma_member_value_at(ms, "clients"@, 12);
    assert forall|j: int| 0 <= j < 13 implies (#[trigger] ms[j]).0 != "encode_ms"@ by {
        if j == 0 {
            assert(ms[0].0 == "ok"@);
            assert("ok"@.len() != "encode_ms"@.len());
        } else if j == 1 {
            assert(ms[1].0 == "source"@);
            assert("source"@.len() != "encode_ms"@.len());
        } else if j == 2 {
            assert(ms[2].0 == "monitor"@);
            assert("monitor"@.len() != "encode_ms"@.len());
        } else if j == 3 {
            assert(ms[3].0 == "width"@);
            assert("width"@.len() != "encode_ms"@.len());
        } else if j == 4 {
            assert(ms[4].0 == "height"@);
            assert("height"@.len() != "encode_ms"@.len());
        } else if j == 5 {
            assert(ms[5].0 == "fps"@);
            assert("fps"@.len() != "encode_ms"@.len());
        } else if j == 6 {
            assert(ms[6].0 == "quality"@);
            assert("quality"@.len() != "encode_ms"@.len());
        } else if j == 7 {
            assert(ms[7].0 == "codec"@);
            assert("codec"@.len() != "encode_ms"@.len());
        } else if j == 8 {
            assert(ms[8].0 == "bitrate_kbps"@);
            assert("bitrate_kbps"@.len() != "encode_ms"@.len());
        } else if j == 9 {
            assert(ms[9].0 == "captured"@);
            assert("captured"@.len() != "encode_ms"@.len());
        } else if j == 10 {
            assert(ms[10].0 == "encoded"@);
            assert("encoded"@.len() != "encode_ms"@.len());
        } else if j == 11 {
            assert(ms[11].0 == "dropped"@);
            assert("dropped"@.len() != "encode_ms"@.len());
        } else if j == 12 {
            assert(ms[12].0 == "clients"@);
            assert("clients"@.len() != "encode_ms"@.len());
        }
    }
    lemma_member_value_at(ms, "encode_ms"@, 13);
    assert forall|j: int| 0 <= j < 14 implies (#[trigger] ms[j]).0 != "capture_ms"@ by {
        if j == 0 {
            assert(ms[0].0 == "ok"@);
            assert("ok"@.len() != "capture_ms"@.len());
        } else if j == 1 {
            assert(ms[1].0 == "source"@);
            assert("source"@.len() != "capture_ms"@.len());
        } else if j == 2 {
            assert(ms[2].0 == "monitor"@);
            assert("monitor"@.len() != "capture_ms"@.len());
        } else if j == 3 {
            assert(ms[3].0 == "width"@);
            assert("width"@.len() != "capture_ms"@.len());
        } else if j == 4 {
            assert(ms[4].0 == "height"@);
            assert("height"@.len() != "capture_ms"@.len());
        } else if j == 5 {
            assert(ms[5].0 == "fps"@);
            assert("fps"@.len() != "capture_ms"@.len());
        } else if j == 6 {
            assert(ms[6].0 == "quality"@);
            assert("quality"@.len() != "capture_ms"@.len());
        } else if j == 7 {
            assert(ms[7].0 == "codec"@);
            assert("codec"@.len() != "capture_ms"@.len());
        } else if j == 8 {
            assert(ms[8].0 == "bitrate_kbps"@);
            assert("bitrate_kbps"@.len() != "capture_ms"@.len());
        } else if j == 9 {
            assert(ms[9].0 == "captured"@);
            assert("captured"@.len() != "capture_ms"@.len());
        } else if j == 10 {
            assert(ms[10].0 == "encoded"@);
            assert("encoded"@.len() != "capture_ms"@.len());
        } else if j == 11 {
            assert(ms[11].0 == "dropped"@);
            assert("dropped"@.len() != "capture_ms"@.len());
        } else if j == 12 {
            assert(ms[12].0 == "clients"@);
            assert("clients"@.len() != "capture_ms"@.len());
        } else if j == 13 {
            assert(ms[13].0 == "encode_ms"@);
            assert("encode_ms"@.len() != "capture_ms"@.len());
        }
    }
    lemma_member_value_at(ms, "capture_ms"@, 14);
    assert forall|j: int| 0 <= j < 15 implies (#[trigger] ms[j]).0 != "error"@ by {
        if j == 0 {
            assert(ms[0].0 == "ok"@);
            assert("ok"@.len() != "error"@.len());
        } else if j == 1 {
            assert(ms[1].0 == "source"@);
            assert("source"@.len() != "error"@.len());
        } else if j == 2 {
            assert(ms[2].0 == "monitor"@);
            assert("monitor"@.len() != "error"@.len());
        } else if j == 3 {
            assert(ms[3].0 == "width"@);
            assert("width"@[0] != "error"@[0]);
        } else if j == 4 {
            assert(ms[4].0 == "height"@);
            assert("height"@.len() != "error"@.len());
        } else if j == 5 {
            assert(ms[5].0 == "fps"@);
            assert("fps"@.len() != "error"@.len());
        } else if j == 6 {
            assert(ms[6].0 == "quality"@);
            assert("quality"@.len() != "error"@.len());
        } else if j == 7 {
            assert(ms[7].0 == "codec"@);
            assert("codec"@[0] != "error"@[0]);
        } else if j == 8 {
            assert(ms[8].0 == "bitrate_kbps"@);
            assert("bitrate_kbps"@.len() != "error"@.len());
        } else if j == 9 {
            assert(ms[9].0 == "captured"@);
            assert("captured"@.len() != "error"@.len());
        } else if j == 10 {
            assert(ms[10].0 == "encoded"@);
            assert("encoded"@.len() != "error"@.len());
        } else if j == 11 {
            assert(ms[11].0 == "dropped"@);
            assert("dropped"@.len() != "error"@.len());
        } else if j == 12 {
            assert(ms[12].0 == "clients"@);
            assert("clients"@.len() != "error"@.len());
        } else if j == 13 {
            assert(ms[13].0 == "encode_ms"@);
            assert("encode_ms"@.len() != "error"@.len());
        } else if j == 14 {
            assert(ms[14].0 == "capture_ms"@);
            assert("capture_ms"@.len() != "error"@.len());
        }
    }
    lemma_member_value_at(ms, "error"@, 15);
    lemma_decimal_value(cfg.monitor as nat);
    lemma_decimal_value(cfg.width as nat);
    lemma_decimal_value(cfg.height as nat);
    lemma_decimal_value(cfg.fps as nat);
    lemma_decimal_value(cfg.quality as nat);
    lemma_decimal_value(cfg.bitrate_kbps as nat);
    lemma_decimal_value(stats.frames_captured as nat);
    lemma_decimal_value(stats.frames_encoded as nat);
    lemma_decimal_value(stats.frames_dropped as nat);
    lemma_decimal_value(stats.clients as nat);
}

/// A number member from a counter.
fn number_field(n: u64) -> (f: JsonField)
    ensures
        f@ == JsonValue::Number(decimal(n as nat)),
{
    let mut d = String::new();
    push_decimal(&mut d, n);
    JsonField::Number(d)
}

impl Stats {
    /// Record an encoder failure (capture keeps running; clients see it via
    /// `/health` and get 503 on frame endpoints until frames flow again).
    pub fn set_error(&mut self, msg: &str)
        ensures
            final(self).last_error@ == msg@,
            same_counters(*final(self), *old(self)),
    {
        self.last_error = String::from_str(msg);
    }

    /// Clear a previous failure once frames flow again.
    pub fn clear_error(&mut self)
        ensures
            final(self).last_error@.len() == 0,
            same_counters(*final(self), *old(self)),
    {
        self.last_error = String::new();
    }

    /// The last error as a JSON string literal.
    pub fn error_json(&self) -> (r: String)
        ensures
            r@ == seq!['"'] + json_body(error_text(self.last_error@)) + seq!['"'],
    {
        let mut r = String::new();
        push_char(&mut r, '"');
        let shown = self.reported_error();
        push_json_body(&mut r, shown.as_str());
        push_char(&mut r, '"');
        r
    }

    /// The last error as it is reported: double quotes become single quotes
    /// and newlines spaces.
    fn reported_error(&self) -> (r: String)
        ensures
            r@ == error_text(self.last_error@),
    {
        let c = text::chars_of(self.last_error.as_str());
        let mut out = String::new();
        let mut i: usize = 0;
        while i < c.len()
            invariant
                c@ == self.last_error@,
                i <= c.len(),
                out@ == error_text(c@.take(i as int)),
            decreases c.len() - i,
        {
            let ch = c[i];
            let shown = if ch == '"' {
                '\''
            } else if ch == '\n' {
                ' '
            } else {
                ch
            };
            push_char(&mut out, shown);
            assert(out@ =~= error_text(c@.take(i + 1)));
            i = i + 1;
        }
        assert(c@.take(c.len() as int) =~= c@);
        out
    }

    /// The `/health` JSON: configuration, counters, the last encode and
    /// capture durations (already rendered in milliseconds) and the last
    /// error.
    pub fn snapshot_json(&self, cfg: &Args, source: &str, encode_ms: &str, capture_ms: &str) -> (r:
        String)
        ensures
            r@ == health_json(*self, cfg@, source@, encode_ms@, capture_ms@),
    {
        let mut m: Vec<(String, JsonField)> = Vec::new();
        m.push((String::from_str("ok"), JsonField::Flag(true)));
        m.push((String::from_str("source"), JsonField::Text(String::from_str(source))));
        m.push((String::from_str("monitor"), number_field(cfg.monitor as u64)));
        m.push((String::from_str("width"), number_field(cfg.width as u64)));
        m.push((String::from_str("height"), number_field(cfg.height as u64)));
        m.push((String::from_str("fps"), number_field(cfg.fps as u64)));
        m.push((String::from_str("quality"), number_field(cfg.quality as u64)));
        m.push((String::from_str("codec"), JsonField::Text(String::from_str(cfg.codec.as_str()))));
        m.push((String::from_str("bitrate_kbps"), number_field(cfg.bitrate_kbps as u64)));
        m.push((String::from_str("captured"), number_field(self.frames_captured)));
        m.push((String::from_str("encoded"), number_field(self.frames_encoded)));
        m.push((String::from_str("dropped"), number_field(self.frames_dropped)));
        m.push((String::from_str("clients"), number_field(self.clients as u64)));
        m.push((String::from_str("encode_ms"), JsonField::Number(String::from_str(encode_ms))));
        m.push((String::from_str("capture_ms"), JsonField::Number(String::from_str(capture_ms))));
        m.push((String::from_str("error"), JsonField::Text(self.reported_error())));
        assert(members_view(m@) =~= health_members(*self, cfg@, source@, encode_ms@, capture_ms@));
        write_object(&m)
    }
}

} // verus!
