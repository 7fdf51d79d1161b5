// Decisions of the capture callback. The callback itself runs inside the
// platform capture API, outside this library; what it decides per frame is
// made here.
use vstd::prelude::*;

use crate::cli::Args;
use crate::frame::{even_dim, even_dimension};
use crate::h264::{H264Config, H264Profile};
use crate::mf::EncodedUnit;
use crate::{same_counters, Stats};

verus! {

/// What to do with a frame that just arrived.
#[derive(Debug, Clone, Copy, PartialEq, Eq)]
pub enum Admission {
    /// Too soon after the last sent frame: drop it (counted as dropped) to
    /// hold the frame-rate cap.
    TooSoon,
    /// Nobody is watching: skip the encode rather than burn CPU.
    NoClients,
    /// Convert and encode it.
    Encode,
}

/// The admission rule: frames arriving within one frame interval of the
/// last sent frame are dropped first; then, with no clients, skipped.
pub open spec fn admission(since_last_us: Option<u64>, interval_us: u64, clients: usize) -> Admission {
    if since_last_us matches Some(t) && t < interval_us {
        Admission::TooSoon
    } else if clients == 0 {
        Admission::NoClients
    } else {
        Admission::Encode
    }
}

/// Decides what to do with an arriving frame, given the microseconds since
/// the last sent frame (none yet sent: `None`), the frame interval and the
/// number of connected clients. The capture API can deliver faster than the
/// negotiated rate; dropping early avoids the expensive copy and encode.
pub fn admit_frame(since_last_us: Option<u64>, interval_us: u64, clients: usize) -> (a: Admission)
    ensures
        a == admission(since_last_us, interval_us, clients),
{
    match since_last_us {
        Some(t) => {
            if t < interval_us {
                return Admission::TooSoon;
            }
        },
        None => {},
    }
    if clients == 0 {
        Admission::NoClients
    } else {
        Admission::Encode
    }
}

/// Microseconds since the last sent frame at `now_us` (none yet sent:
/// `None`; a clock reading before the last send counts as no time).
pub open spec fn since_last(last_sent_us: Option<u64>, now_us: u64) -> Option<u64> {
    match last_sent_us {
        Some(t) => Some(
            if now_us >= t {
                (now_us - t) as u64
            } else {
                0u64
            },
        ),
        None => None,
    }
}

/// Bookkeeping for a frame that just arrived at `now_us`: it is counted as
/// captured, admitted or not by `admission` against the clients connected
/// now, and counted as dropped when it came too soon. Nothing else changes.
pub fn frame_arrived(last_sent_us: Option<u64>, now_us: u64, interval_us: u64, stats: &mut Stats) -> (a:
    Admission)
    ensures
        a == admission(since_last(last_sent_us, now_us), interval_us, old(stats).clients),
        final(stats).frames_captured == old(stats).frames_captured.wrapping_add(1),
        final(stats).frames_dropped == (if a == Admission::TooSoon {
            old(stats).frames_dropped.wrapping_add(1)
        } else {
            old(stats).frames_dropped
        }),
        final(stats).frames_encoded == old(stats).frames_encoded,
        final(stats).clients == old(stats).clients,
        final(stats).last_encode_us == old(stats).last_encode_us,
        final(stats).last_capture_us == old(stats).last_capture_us,
        final(stats).last_error == old(stats).last_error,
{
    stats.frames_captured = stats.frames_captured.wrapping_add(1);
    let since: Option<u64> = match last_sent_us {
        Some(t) => Some(
            if now_us >= t {
                now_us - t
            } else {
                0
            },
        ),
        None => None,
    };
    let a = admit_frame(since, interval_us, stats.clients);
    match a {
        Admission::TooSoon => {
            stats.frames_dropped = stats.frames_dropped.wrapping_add(1);
        },
        _ => {},
    }
    a
}

/// Bookkeeping for an MJPEG frame that arrived at `arrive_us` and was
/// encoded in `encode_us`: it gets the next sequence number, counts as
/// encoded, its encode time is recorded, and it becomes the last sent
/// frame. Nothing else changes.
pub fn mjpeg_sent(seq: u64, arrive_us: u64, encode_us: u64, stats: &mut Stats) -> (r: (
    u64,
    Option<u64>,
))
    requires
        seq < u64::MAX,
    ensures
        r.0 == seq + 1,
        r.1 == Some(arrive_us),
        final(stats).last_encode_us == encode_us,
        final(stats).frames_encoded == old(stats).frames_encoded.wrapping_add(1),
        final(stats).frames_captured == old(stats).frames_captured,
        final(stats).frames_dropped == old(stats).frames_dropped,
        final(stats).clients == old(stats).clients,
        final(stats).last_capture_us == old(stats).last_capture_us,
        final(stats).last_error == old(stats).last_error,
{
    stats.last_encode_us = encode_us;
    stats.frames_encoded = stats.frames_encoded.wrapping_add(1);
    (seq + 1, Some(arrive_us))
}

/// Frame pacing: a frame is only ever admitted for encoding (and so sent)
/// at least one frame interval after the last sent frame, and a frame that
/// comes sooner is always dropped, whatever the number of clients.
pub proof fn law_sends_keep_the_interval(
    last_sent_us: Option<u64>,
    now_us: u64,
    interval_us: u64,
    clients: usize,
)
    requires
        last_sent_us matches Some(t) ==> t <= now_us,
    ensures
        admission(since_last(last_sent_us, now_us), interval_us, clients) == Admission::Encode
            ==> (last_sent_us matches Some(t) ==> now_us - t >= interval_us),
        (last_sent_us matches Some(t) && now_us - t < interval_us) ==> admission(
            since_last(last_sent_us, now_us),
            interval_us,
            clients,
        ) == Admission::TooSoon,
{
}

/// The NV12 frame size for a fitted target: both sides even, at least 2.
pub fn nv12_target(dst_w: u32, dst_h: u32) -> (r: (u32, u32))
    ensures
        r.0 as nat == even_dim(dst_w),
        r.1 as nat == even_dim(dst_h),
{
    (even_dimension(dst_w), even_dimension(dst_h))
}

/// Whether the encoder must be (re)created: it is missing or was made for
/// another size, and no failed attempt is cooling down.
pub open spec fn needs_encoder(current: Option<(u32, u32)>, want: (u32, u32), cooling_down: bool) -> bool {
    !(current == Some(want)) && !cooling_down
}

/// Whether to (re)create the H.264 encoder for a frame of size `want`.
pub fn encoder_needs_init(current: Option<(u32, u32)>, want: (u32, u32), cooling_down: bool) -> (r:
    bool)
    ensures
        r == needs_encoder(current, want, cooling_down),
{
    let dims_ok = match current {
        Some(d) => d.0 == want.0 && d.1 == want.1,
        None => false,
    };
    !dims_ok && !cooling_down
}

/// The encoder configuration for a `w` x `h` frame: the configured frame
/// rate and bitrate, the defaults (baseline, no B-frames, 60-frame GOP)
/// otherwise.
pub fn encoder_config(w: u32, h: u32, cfg: &Args) -> (c: H264Config)
    ensures
        c.width == w && c.height == h,
        c.fps == cfg.fps && c.bitrate_kbps == cfg.bitrate_kbps,
        c.profile == H264Profile::Baseline,
        c.bframes == 0 && c.gop_len == 60,
{
    let d = H264Config::default();
    H264Config { width: w, height: h, fps: cfg.fps, bitrate_kbps: cfg.bitrate_kbps, ..d }
}

/// How long a failed encoder creation cools down before the next attempt,
/// in microseconds: a missing or broken encoder must not be retried (and
/// logged) on every frame.
pub const INIT_RETRY_US: u64 = 5_000_000;

/// Whether a failed encoder creation is still cooling down at `now_us`.
pub open spec fn cooling(retry_at_us: Option<u64>, now_us: u64) -> bool {
    retry_at_us matches Some(t) && now_us < t
}

/// Whether creating the encoder is on hold at `now_us` (times in
/// microseconds on the capture clock).
pub fn is_cooling_down(retry_at_us: Option<u64>, now_us: u64) -> (r: bool)
    ensures
        r == cooling(retry_at_us, now_us),
{
    match retry_at_us {
        Some(t) => now_us < t,
        None => false,
    }
}

/// What happened to one frame on the H.264 path, as the capture callback
/// reports it.
pub enum EncodeOutcome {
    /// No encoder and none was created (a failed creation is cooling down).
    Idle,
    /// Creating the encoder failed with this message.
    InitFailed(String),
    /// The encoder rejected the frame; `created` when it was made for this
    /// very frame.
    Failed { created: bool, error: String },
    /// The encoder took the frame and gave back these access units (none
    /// while it is still buffering at stream start).
    Encoded { created: bool, units: Vec<EncodedUnit>, encode_us: u64 },
}

/// The bookkeeping after one frame on the H.264 path: the next sequence
/// number, the retry deadline, the access units to publish with their
/// sequence numbers, and the counters and error shown by `/health`.
///
/// - `Idle`: nothing changes and nothing is sent.
/// - `InitFailed(e)`: the error is recorded and creation is retried no
///   sooner than `INIT_RETRY_US` from now.
/// - `Failed`: the frame counts as dropped, its error is recorded, and the
///   encoder is recreated on the next frame (no cool-down).
/// - `Encoded`: the encode time is recorded; each unit gets the next
///   sequence number and counts as encoded; once units flow (or the encoder
///   was just created) the error is cleared. A fresh encoder also ends any
///   cool-down.
pub fn h264_step(
    seq: u64,
    retry_at_us: Option<u64>,
    now_us: u64,
    outcome: EncodeOutcome,
    stats: &mut Stats,
) -> (r: (u64, Option<u64>, Vec<(u64, EncodedUnit)>))
    requires
        now_us + INIT_RETRY_US <= u64::MAX,
        outcome matches EncodeOutcome::Encoded { units, .. } ==> seq + units@.len() <= u64::MAX,
    ensures
        match outcome {
            EncodeOutcome::Idle => {
                &&& r.0 == seq
                &&& r.1 == retry_at_us
                &&& r.2@.len() == 0
                &&& *final(stats) == *old(stats)
            },
            EncodeOutcome::InitFailed(e) => {
                &&& r.0 == seq
                &&& r.1 == Some((now_us + INIT_RETRY_US) as u64)
                &&& r.2@.len() == 0
                &&& same_counters(*final(stats), *old(stats))
                &&& final(stats).last_error@ == e@
            },
            EncodeOutcome::Failed { created, error } => {
                &&& r.0 == seq
                &&& r.1 == None::<u64>
                &&& r.2@.len() == 0
                &&& final(stats).frames_dropped == old(stats).frames_dropped.wrapping_add(1)
                &&& final(stats).frames_captured == old(stats).frames_captured
                &&& final(stats).frames_encoded == old(stats).frames_encoded
                &&& final(stats).clients == old(stats).clients
                &&& final(stats).last_encode_us == old(stats).last_encode_us
                &&& final(stats).last_capture_us == old(stats).last_capture_us
                &&& final(stats).last_error@ == error@
            },
            EncodeOutcome::Encoded { created, units, encode_us } => {
                &&& r.0 == seq + units@.len()
                &&& r.1 == (if created {
                    None
                } else {
                    retry_at_us
                })
                &&& r.2@.len() == units@.len()
                &&& forall|i: int|
                    0 <= i < units@.len() ==> (#[trigger] r.2@[i]).0 == seq + i + 1 && r.2@[i].1
                        == units@[i]
                &&& final(stats).last_encode_us == encode_us
                &&& final(stats).frames_encoded == old(stats).frames_encoded.wrapping_add(
                    units@.len() as u64,
                )
                &&& final(stats).frames_captured == old(stats).frames_captured
                &&& final(stats).frames_dropped == old(stats).frames_dropped
                &&& final(stats).clients == old(stats).clients
                &&& final(stats).last_capture_us == old(stats).last_capture_us
                &&& final(stats).last_error@ == (if units@.len() > 0 || created {
                    Seq::<char>::empty()
                } else {
                    old(stats).last_error@
                })
            },
        },
{
    let mut sends: Vec<(u64, EncodedUnit)> = Vec::new();
    match outcome {
        EncodeOutcome::Idle => (seq, retry_at_us, sends),
        EncodeOutcome::InitFailed(e) => {
            stats.set_error(e.as_str());
            (seq, Some(now_us + INIT_RETRY_US), sends)
        },
        EncodeOutcome::Failed { created, error } => {
            if created {
                stats.clear_error();
            }
            stats.frames_dropped = stats.frames_dropped.wrapping_add(1);
            stats.set_error(error.as_str());
            (seq, None, sends)
        },
        EncodeOutcome::Encoded { created, units, encode_us } => {
            let ghost all = units@;
            let mut units = units;
            let retry = if created {
                stats.clear_error();
                None
            } else {
                retry_at_us
            };
            stats.last_encode_us = encode_us;
            let n = units.len();
            stats.frames_encoded = stats.frames_encoded.wrapping_add(n as u64);
            let ghost counted = *stats;
            let mut next = seq;
            let mut i: usize = 0;
            while i < n
                invariant
                    n == all.len(),
                    seq + n <= u64::MAX,
                    i <= n,
                    next == seq + i,
                    units@ == all.skip(i as int),
                    sends@.len() == i,
                    forall|j: int|
                        0 <= j < i ==> (#[trigger] sends@[j]).0 == seq + j + 1 && sends@[j].1
                            == all[j],
                    *stats == counted,
                decreases n - i,
            {
                let u = units.remove(0);
                assert(u == all[i as int]);
                next = next + 1;
                sends.push((next, u));
                assert(units@ =~= all.skip(i + 1));
                i = i + 1;
            }
            if n > 0 {
                stats.clear_error();
            }
            (next, retry, sends)
        },
    }
}

} // verus!
