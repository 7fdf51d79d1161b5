// H.264 wire helpers for the native-Android video path: encoder config
// limits (1080p60 SDR, 500-12000 kbps, no B-frames), the adaptive bitrate
// ladder, and Annex B bytestream framing (start codes, NAL split, NAL type,
// keyframe detection).
//
// No tier logic here: caps arrive already ceiling-clamped; `validate` only
// enforces the physical v1 limits.
use vstd::prelude::*;
use vstd::slice::slice_subrange;

use crate::text::{chars_of, str_eq};

verus! {

/// Encoder profile. v1 allows baseline (widest hardware decode) and main.
#[derive(Debug, Clone, Copy, PartialEq, Eq)]
pub enum H264Profile {
    Baseline,
    Main,
}

/// ASCII lower-casing of one character.
pub open spec fn ascii_lower(c: char) -> char {
    if 'A' <= c <= 'Z' {
        ((c as u32) + 32) as char
    } else {
        c
    }
}

/// ASCII lower-casing of a string. For the two profile names this decides
/// exactly what std's Unicode `to_lowercase` does: no character outside
/// ASCII lower-cases to a single letter of `baseline` or `main`.
pub open spec fn ascii_lowercase(s: Seq<char>) -> Seq<char> {
    s.map_values(|c: char| ascii_lower(c))
}

/// The profile a name denotes, case-insensitively.
pub open spec fn profile_named(s: Seq<char>) -> Option<H264Profile> {
    if ascii_lowercase(s) == "baseline"@ {
        Some(H264Profile::Baseline)
    } else if ascii_lowercase(s) == "main"@ {
        Some(H264Profile::Main)
    } else {
        None
    }
}

/// The canonical (lower-case) name of a profile.
pub open spec fn profile_name(p: H264Profile) -> Seq<char> {
    match p {
        H264Profile::Baseline => "baseline"@,
        H264Profile::Main => "main"@,
    }
}

fn lowercase_ascii(s: &str) -> (r: String)
    ensures
        r@ == ascii_lowercase(s@),
{
    let c = chars_of(s);
    let mut r = String::new();
    let mut i: usize = 0;
    while i < c.len()
        invariant
            c@ == s@,
            i <= c.len(),
            r@ == ascii_lowercase(s@.take(i as int)),
        decreases c.len() - i,
    {
        let ch = c[i];
        let lower: char = if 'A' <= ch && ch <= 'Z' {
            ((ch as u32) + 32) as u8 as char
        } else {
            ch
        };
        crate::text::push_char(&mut r, lower);
        assert(ascii_lowercase(s@.take(i + 1)) =~= ascii_lowercase(s@.take(i as int)).push(
            ascii_lower(s@[i as int]),
        ));
        i = i + 1;
    }
    assert(s@.take(c.len() as int) =~= s@);
    r
}

impl H264Profile {
    /// Parses a profile name, case-insensitively; only baseline and main.
    pub fn parse(s: &str) -> (r: Option<Self>)
        ensures
            r == profile_named(s@),
    {
        let lower = lowercase_ascii(s);
        if str_eq(lower.as_str(), "baseline") {
            Some(H264Profile::Baseline)
        } else if str_eq(lower.as_str(), "main") {
            Some(H264Profile::Main)
        } else {
            None
        }
    }

    /// The profile's canonical name.
    pub fn as_str(self) -> (r: &'static str)
        ensures
            r@ == profile_name(self),
    {
        match self {
            H264Profile::Baseline => "baseline",
            H264Profile::Main => "main",
        }
    }
}

/// Profile names round-trip: the name of a profile parses back to it.
pub proof fn law_profile_name_round_trip(p: H264Profile)
    ensures
        profile_named(profile_name(p)) == Some(p),
{
    reveal_strlit("baseline");
    reveal_strlit("main");
    assert(ascii_lowercase("baseline"@) =~= "baseline"@);
    assert(ascii_lowercase("main"@) =~= "main"@);
}

/// Encoder configuration. `bframes` must stay 0: B-frames break browsers
/// and add a frame of latency.
#[derive(Debug, Clone, PartialEq, Eq)]
pub struct H264Config {
    pub width: u32,
    pub height: u32,
    pub fps: u32,
    pub bitrate_kbps: u32,
    pub profile: H264Profile,
    pub bframes: u32,
    /// IDR interval in frames (keyframe cadence for seek/reconnect).
    pub gop_len: u32,
}

/// The default encoder configuration: 720p30 baseline at 4000 kbps, no
/// B-frames, an IDR every 60 frames.
pub open spec fn default_config() -> H264Config {
    H264Config {
        width: 1280,
        height: 720,
        fps: 30,
        bitrate_kbps: 4000,
        profile: H264Profile::Baseline,
        bframes: 0,
        gop_len: 60,
    }
}

impl Default for H264Config {
    fn default() -> (c: Self)
        ensures
            c == default_config(),
    {
        H264Config {
            width: 1280,
            height: 720,
            fps: 30,
            bitrate_kbps: 4000,
            profile: H264Profile::Baseline,
            bframes: 0,
            gop_len: 60,
        }
    }
}

/// The first v1 limit a configuration breaks, as its message.
pub open spec fn config_error(c: H264Config) -> Option<Seq<char>> {
    if c.width == 0 || c.height == 0 || c.width > 1920 || c.height > 1080 {
        Some("h264 dimensions must fit within 1920x1080 (v1 SDR cap)"@)
    } else if c.fps == 0 || c.fps > 60 {
        Some("h264 fps must be 1..=60 (v1 caps at 60)"@)
    } else if c.bitrate_kbps < 500 || c.bitrate_kbps > 12000 {
        Some("h264 bitrate must be 500..=12000 kbps"@)
    } else if c.bframes != 0 {
        Some("h264 bframes must be 0 (no B-frames in v1: latency)"@)
    } else if c.gop_len == 0 || c.gop_len > 600 {
        Some("h264 gop_len must be 1..=600"@)
    } else {
        None
    }
}

/// The v1 encoder limits.
pub open spec fn config_within_limits(c: H264Config) -> bool {
    &&& 1 <= c.width <= 1920 && 1 <= c.height <= 1080
    &&& 1 <= c.fps <= 60
    &&& 500 <= c.bitrate_kbps <= 12000
    &&& c.bframes == 0
    &&& 1 <= c.gop_len <= 600
}

impl H264Config {
    /// Check v1 limits.
    ///
    /// # Errors
    /// Returns a message describing the violated constraint.
    pub fn validate(&self) -> (res: Result<(), String>)
        ensures
            match config_error(*self) {
                None => res is Ok,
                Some(e) => res matches Err(m) && m@ == e,
            },
            res is Ok <==> config_within_limits(*self),
    {
        if self.width == 0 || self.height == 0 || self.width > 1920 || self.height > 1080 {
            return Err(String::from_str("h264 dimensions must fit within 1920x1080 (v1 SDR cap)"));
        }
        if self.fps == 0 || self.fps > 60 {
            return Err(String::from_str("h264 fps must be 1..=60 (v1 caps at 60)"));
        }
        if self.bitrate_kbps < 500 || self.bitrate_kbps > 12000 {
            return Err(String::from_str("h264 bitrate must be 500..=12000 kbps"));
        }
        if self.bframes != 0 {
            return Err(String::from_str("h264 bframes must be 0 (no B-frames in v1: latency)"));
        }
        if self.gop_len == 0 || self.gop_len > 600 {
            return Err(String::from_str("h264 gop_len must be 1..=600"));
        }
        Ok(())
    }
}

/// The default encoder configuration is inside the v1 limits and has no
/// B-frames.
pub proof fn law_default_config_within_limits()
    ensures
        config_within_limits(default_config()),
        config_error(default_config()) is None,
        default_config().bframes == 0,
{
}

/// The adaptive bitrate ladder (kbps): 4000 up to 720p worth of pixels,
/// 8000 above, half again above 30 fps, kept inside 500..=12000.
pub open spec fn ladder_kbps(width: u32, height: u32, fps: u32) -> u32 {
    let base: u32 = if width as nat * height as nat <= 1280 * 720 {
        4000
    } else {
        8000
    };
    if fps > 30 {
        (base + base / 2) as u32
    } else {
        base
    }
}

/// The ladder depends on the mode only through its pixel count and frame
/// rate: 4000 kbps up to 1280 x 720 = 921600 pixels, 8000 kbps above, and
/// half as much again above 30 fps.
pub proof fn law_ladder_by_pixel_count(width: u32, height: u32, fps: u32)
    ensures
        ladder_kbps(width, height, fps) as int == (if width as int * height as int <= 921600 {
            4000int
        } else {
            8000int
        }) * (if fps > 30 {
            3int
        } else {
            2int
        }) / 2,
{
}

/// Two modes with the same number of pixels get the same bitrate at the
/// same frame rate, whatever their shapes (a 1440 x 720 mode is not rated
/// as 720p), and more frames per second never lower it.
pub proof fn law_ladder_same_pixels_same_rate(w1: u32, h1: u32, w2: u32, h2: u32, fps: u32, fps2: u32)
    ensures
        w1 as int * h1 as int == w2 as int * h2 as int ==> ladder_kbps(w1, h1, fps) == ladder_kbps(
            w2,
            h2,
            fps,
        ),
        fps <= fps2 ==> ladder_kbps(w1, h1, fps) <= ladder_kbps(w1, h1, fps2),
        w1 as int * h1 as int <= w2 as int * h2 as int ==> ladder_kbps(w1, h1, fps) <= ladder_kbps(
            w2,
            h2,
            fps,
        ),
{
}

/// Adaptive bitrate ladder (kbps) shared with the Node host tick.
/// The 720p30 floor keeps USB tethering usable; 1080p60 is the v1 cap.
pub fn bitrate_for_mode(width: u32, height: u32, fps: u32) -> (kbps: u32)
    ensures
        kbps == ladder_kbps(width, height, fps),
        500 <= kbps <= 12000,
{
    assert(width as u64 * height as u64 <= u64::MAX) by (nonlinear_arith)
        requires
            width <= u32::MAX,
            height <= u32::MAX,
    ;
    let pixels: u64 = width as u64 * height as u64;
    let base: u32 = if pixels <= 1280 * 720 {
        4000
    } else {
        8000
    };
    let kbps: u32 = if fps > 30 {
        base + base / 2
    } else {
        base
    };
    if kbps < 500 {
        500
    } else if kbps > 12000 {
        12000
    } else {
        kbps
    }
}

/// An Annex B start code begins at `s`: `00 00 01` or `00 00 00 01`.
pub open spec fn start_code_at(buf: Seq<u8>, s: int) -> bool {
    &&& 0 <= s && s + 3 < buf.len()
    &&& buf[s] == 0 && buf[s + 1] == 0
    &&& buf[s + 2] == 1 || (buf[s + 2] == 0 && buf[s + 3] == 1)
}

/// Length of the start code at `s`: 3 or 4 bytes.
pub open spec fn start_code_len(buf: Seq<u8>, s: int) -> int {
    if buf[s + 2] == 1 {
        3
    } else {
        4
    }
}

/// Start-code offsets found scanning from `i`: a 3-byte code is taken when
/// at least one byte follows `00 00`, a 4-byte code when at least one byte
/// follows it; the scan resumes after each code found.
pub open spec fn scan_start_codes(buf: Seq<u8>, i: nat) -> Seq<usize>
    decreases buf.len() - i,
{
    if i + 3 >= buf.len() {
        Seq::empty()
    } else if buf[i as int] == 0 && buf[i + 1 as int] == 0 && buf[i + 2 as int] == 1 {
        seq![i as usize] + scan_start_codes(buf, i + 3)
    } else if buf[i as int] == 0 && buf[i + 1 as int] == 0 && i + 4 < buf.len() && buf[i + 2 as int] == 0
        && buf[i + 3 as int] == 1 {
        seq![i as usize] + scan_start_codes(buf, i + 4)
    } else {
        scan_start_codes(buf, i + 1)
    }
}

/// What the scan finds: start codes, in increasing order, not overlapping,
/// each followed by at least one byte.
pub open spec fn well_framed(buf: Seq<u8>, starts: Seq<usize>, from: int) -> bool {
    &&& forall|k: int| 0 <= k < starts.len() ==> from <= #[trigger] starts[k]
    &&& forall|k: int| 0 <= k < starts.len() ==> start_code_at(buf, #[trigger] starts[k] as int)
    &&& forall|k: int|
        0 <= k < starts.len() ==> #[trigger] starts[k] + start_code_len(buf, starts[k] as int)
            < buf.len()
    &&& forall|k: int|
        0 <= k < starts.len() - 1 ==> #[trigger] starts[k] + start_code_len(buf, starts[k] as int)
            <= starts[k + 1]
}

proof fn lemma_scan_well_framed(buf: Seq<u8>, i: nat)
    requires
        buf.len() <= usize::MAX,
    ensures
        well_framed(buf, scan_start_codes(buf, i), i as int),
    decreases buf.len() - i,
{
    let r = scan_start_codes(buf, i);
    if i + 3 >= buf.len() {
    } else if buf[i as int] == 0 && buf[i + 1 as int] == 0 && buf[i + 2 as int] == 1 {
        lemma_scan_well_framed(buf, i + 3);
        let rest = scan_start_codes(buf, i + 3);
        assert(r == seq![i as usize] + rest);
        assert forall|k: int| 0 <= k < r.len() - 1 implies #[trigger] r[k] + start_code_len(
            buf,
            r[k] as int,
        ) <= r[k + 1] by {
            if k > 0 {
                assert(r[k] == rest[k - 1]);
                assert(r[k + 1] == rest[k]);
            }
        }
        assert forall|k: int| 0 <= k < r.len() implies i <= #[trigger] r[k] by {
            if k > 0 {
                assert(r[k] == rest[k - 1]);
            }
        }
        assert forall|k: int| 0 <= k < r.len() implies start_code_at(buf, #[trigger] r[k] as int) by {
            if k > 0 {
                assert(r[k] == rest[k - 1]);
            }
        }
        assert forall|k: int| 0 <= k < r.len() implies #[trigger] r[k] + start_code_len(
            buf,
            r[k] as int,
        ) < buf.len() by {
            if k > 0 {
                assert(r[k] == rest[k - 1]);
            }
        }
    } else if buf[i as int] == 0 && buf[i + 1 as int] == 0 && i + 4 < buf.len() && buf[i + 2 as int] == 0
        && buf[i + 3 as int] == 1 {
        lemma_scan_well_framed(buf, i + 4);
        let rest = scan_start_codes(buf, i + 4);
        assert(r == seq![i as usize] + rest);
        assert forall|k: int| 0 <= k < r.len() - 1 implies #[trigger] r[k] + start_code_len(
            buf,
            r[k] as int,
        ) <= r[k + 1] by {
            if k > 0 {
                assert(r[k] == rest[k - 1]);
                assert(r[k + 1] == rest[k]);
            }
        }
        assert forall|k: int| 0 <= k < r.len() implies i <= #[trigger] r[k] by {
            if k > 0 {
                assert(r[k] == rest[k - 1]);
            }
        }
        assert forall|k: int| 0 <= k < r.len() implies start_code_at(buf, #[trigger] r[k] as int) by {
            if k > 0 {
                assert(r[k] == rest[k - 1]);
            }
        }
        assert forall|k: int| 0 <= k < r.len() implies #[trigger] r[k] + start_code_len(
            buf,
            r[k] as int,
        ) < buf.len() by {
            if k > 0 {
                assert(r[k] == rest[k - 1]);
            }
        }
    } else {
        lemma_scan_well_framed(buf, i + 1);
    }
}

/// Find Annex B start codes (`00 00 01` or `00 00 00 01`) in a bytestream.
/// Returns the byte offset of each start code.
pub fn find_start_codes(buf: &[u8]) -> (out: Vec<usize>)
    ensures
        out@ == scan_start_codes(buf@, 0),
        well_framed(buf@, out@, 0),
{
    let mut out: Vec<usize> = Vec::new();
    let mut i: usize = 0;
    let n = buf.len();
    while n >= 3 && i < n - 3
        invariant
            n == buf@.len(),
            i <= n,
            out@ + scan_start_codes(buf@, i as nat) == scan_start_codes(buf@, 0),
        decreases n - i,
    {
        if buf[i] == 0 && buf[i + 1] == 0 {
            if buf[i + 2] == 1 {
                assert(out@.push(i) + scan_start_codes(buf@, (i + 3) as nat) =~= out@ + (seq![
                    i as usize,
                ] + scan_start_codes(buf@, (i + 3) as nat)));
                out.push(i);
                i = i + 3;
                continue;
            }
            if i + 4 < n && buf[i + 2] == 0 && buf[i + 3] == 1 {
                assert(out@.push(i) + scan_start_codes(buf@, (i + 4) as nat) =~= out@ + (seq![
                    i as usize,
                ] + scan_start_codes(buf@, (i + 4) as nat)));
                out.push(i);
                i = i + 4;
                continue;
            }
        }
        i = i + 1;
    }
    assert(out@ =~= out@ + scan_start_codes(buf@, i as nat));
    proof {
        lemma_scan_well_framed(buf@, 0);
    }
    out
}

/// The bytes of the unit that starts at start code `k`: from after the code
/// to the next start code, or to the end of the buffer.
pub open spec fn unit_bytes(buf: Seq<u8>, starts: Seq<usize>, k: int) -> Seq<u8> {
    let s = starts[k] as int;
    let end = if k + 1 < starts.len() {
        starts[k + 1] as int
    } else {
        buf.len() as int
    };
    buf.subrange(s + start_code_len(buf, s), end)
}

/// The non-empty units from start code `k` on, in order.
pub open spec fn units_from(buf: Seq<u8>, starts: Seq<usize>, k: nat) -> Seq<Seq<u8>>
    decreases starts.len() - k,
{
    if k >= starts.len() {
        Seq::empty()
    } else if unit_bytes(buf, starts, k as int).len() > 0 {
        seq![unit_bytes(buf, starts, k as int)] + units_from(buf, starts, k + 1)
    } else {
        units_from(buf, starts, k + 1)
    }
}

/// The raw NAL units of an Annex B bytestream (start codes stripped, empty
/// units dropped).
pub open spec fn nal_units(buf: Seq<u8>) -> Seq<Seq<u8>> {
    units_from(buf, scan_start_codes(buf, 0), 0)
}

/// The byte views of a list of slices.
pub open spec fn slice_views(v: Seq<&[u8]>) -> Seq<Seq<u8>> {
    v.map_values(|s: &[u8]| s@)
}

proof fn lemma_units_nonempty(buf: Seq<u8>, starts: Seq<usize>, k: nat)
    ensures
        forall|j: int|
            0 <= j < units_from(buf, starts, k).len() ==> #[trigger] units_from(
                buf,
                starts,
                k,
            )[j].len() > 0,
    decreases starts.len() - k,
{
    if k < starts.len() {
        lemma_units_nonempty(buf, starts, k + 1);
        let rest = units_from(buf, starts, k + 1);
        if unit_bytes(buf, starts, k as int).len() > 0 {
            assert forall|j: int|
                0 <= j < units_from(buf, starts, k).len() implies #[trigger] units_from(
                buf,
                starts,
                k,
            )[j].len() > 0 by {
                if j > 0 {
                    assert(units_from(buf, starts, k)[j] == rest[j - 1]);
                }
            }
        }
    }
}

/// Split an Annex B bytestream into raw NAL units (start codes stripped).
/// Zero-length units are dropped.
pub fn split_nals(buf: &[u8]) -> (out: Vec<&[u8]>)
    ensures
        slice_views(out@) == nal_units(buf@),
        forall|j: int| 0 <= j < out@.len() ==> #[trigger] out@[j]@.len() > 0,
{
    let starts = find_start_codes(buf);
    let mut out: Vec<&[u8]> = Vec::new();
    if starts.len() == 0 {
        assert(slice_views(out@) =~= nal_units(buf@));
        return out;
    }
    let mut k: usize = 0;
    while k < starts.len()
        invariant
            starts@ == scan_start_codes(buf@, 0),
            well_framed(buf@, starts@, 0),
            k <= starts.len(),
            slice_views(out@) + units_from(buf@, starts@, k as nat) == nal_units(buf@),
        decreases starts.len() - k,
    {
        let s = starts[k];
        assert(start_code_at(buf@, starts@[k as int] as int));
        assert(starts@[k as int] + start_code_len(buf@, starts@[k as int] as int) < buf@.len());
        assert(k + 1 < starts@.len() ==> starts@[k as int] + start_code_len(buf@, starts@[k as int] as int) <= starts@[k + 1]);
        let blen = buf.len();
        assert(s + 3 < blen);
        let hdr: usize = if buf[s + 2] == 1 {
            3
        } else {
            4
        };
        let end: usize = if k + 1 < starts.len() {
            starts[k + 1]
        } else {
            buf.len()
        };
        let nal = slice_subrange(buf, s + hdr, end);
        assert(nal@ == unit_bytes(buf@, starts@, k as int));
        let ghost before = out@;
        if nal.len() > 0 {
            out.push(nal);
            assert(slice_views(out@) =~= slice_views(before).push(nal@));
            assert(slice_views(out@) + units_from(buf@, starts@, (k + 1) as nat) =~= slice_views(
                before,
            ) + units_from(buf@, starts@, k as nat));
        }
        k = k + 1;
    }
    assert(slice_views(out@) =~= nal_units(buf@));
    proof {
        lemma_units_nonempty(buf@, starts@, 0);
        assert forall|j: int| 0 <= j < out@.len() implies #[trigger] out@[j]@.len() > 0 by {
            assert(slice_views(out@)[j] == out@[j]@);
        }
    }
    out
}

/// The NAL unit type of a unit: the low 5 bits of its first byte.
pub open spec fn unit_type(nal: Seq<u8>) -> Option<u8> {
    if nal.len() == 0 {
        None
    } else {
        Some(nal[0] & 0x1F)
    }
}

/// NAL unit type = low 5 bits of the first byte (H.264, not HEVC).
pub fn nal_unit_type(nal: &[u8]) -> (t: Option<u8>)
    ensures
        t == unit_type(nal@),
{
    if nal.len() == 0 {
        None
    } else {
        Some(nal[0] & 0x1F)
    }
}

/// True for the NAL unit types a decoder joining mid-stream must wait for:
/// IDR pictures (5), sequence (7) and picture (8) parameter sets.
pub open spec fn is_keyframe_type(nal_type: u8) -> bool {
    nal_type == 5 || nal_type == 7 || nal_type == 8
}

/// True for parameter sets and IDR pictures: a decoder joining mid-stream
/// must wait for one of these before it can output pictures.
pub fn is_keyframe_nal(nal_type: u8) -> (r: bool)
    ensures
        r == is_keyframe_type(nal_type),
{
    nal_type == 5 || nal_type == 7 || nal_type == 8
}

/// An access unit is a keyframe when one of its NAL units is an IDR picture
/// (NAL unit type 5).
pub open spec fn keyframe_unit(buf: Seq<u8>) -> bool {
    exists|j: int| 0 <= j < nal_units(buf).len() && #[trigger] nal_units(buf)[j][0] & 0x1F == 5
}

/// True when an Annex B access unit contains an IDR picture.
pub fn is_keyframe_access_unit(buf: &[u8]) -> (r: bool)
    ensures
        r == keyframe_unit(buf@),
{
    let nals = split_nals(buf);
    let mut j: usize = 0;
    while j < nals.len()
        invariant
            slice_views(nals@) == nal_units(buf@),
            forall|i: int| 0 <= i < nals@.len() ==> #[trigger] nals@[i]@.len() > 0,
            j <= nals.len(),
            forall|i: int| 0 <= i < j ==> #[trigger] nal_units(buf@)[i][0] & 0x1F != 5,
        decreases nals.len() - j,
    {
        let nal = nals[j];
        assert(slice_views(nals@)[j as int] == nal@);
        match nal_unit_type(nal) {
            Some(t) => {
                if t == 5 {
                    return true;
                }
            },
            None => {},
        }
        j = j + 1;
    }
    false
}

/// A NAL unit as an encoder hands it over: non-empty, and with emulation
/// prevention applied, so that neither `00 00 00` nor `00 00 01` occurs
/// inside it.
pub open spec fn clean_nal(n: Seq<u8>) -> bool {
    &&& n.len() > 0
    &&& forall|i: int|
        0 <= i && i + 2 < n.len() ==> !(#[trigger] n[i] == 0 && n[i + 1] == 0 && n[i + 2] <= 1)
}

/// NAL units written out as an Annex B bytestream, each behind a 4-byte
/// start code `00 00 00 01`.
pub open spec fn annexb_join(nals: Seq<Seq<u8>>) -> Seq<u8>
    decreases nals.len(),
{
    if nals.len() == 0 {
        Seq::empty()
    } else {
        annexb_join(nals.drop_last()) + seq![0u8, 0u8, 0u8, 1u8] + nals.last()
    }
}

/// Where the start code of unit `k` begins in the joined stream (for
/// `k == nals.len()`, the end of the stream).
pub open spec fn unit_offset(nals: Seq<Seq<u8>>, k: int) -> int {
    annexb_join(nals.take(k)).len() as int
}

/// The start-code offsets of the joined stream, in order.
pub open spec fn unit_offsets(nals: Seq<Seq<u8>>) -> Seq<usize> {
    Seq::new(nals.len(), |k: int| unit_offset(nals, k) as usize)
}

proof fn lemma_join_step(nals: Seq<Seq<u8>>, k: int)
    requires
        0 <= k < nals.len(),
    ensures
        annexb_join(nals.take(k + 1)) == annexb_join(nals.take(k)) + seq![0u8, 0u8, 0u8, 1u8]
            + nals[k],
{
    assert(nals.take(k + 1).drop_last() =~= nals.take(k));
    assert(nals.take(k + 1).last() == nals[k]);
}

proof fn lemma_join_prefix(nals: Seq<Seq<u8>>, m: int)
    requires
        0 <= m <= nals.len(),
    ensures
        annexb_join(nals.take(m)).len() <= annexb_join(nals).len(),
        forall|j: int|
            0 <= j < annexb_join(nals.take(m)).len() ==> #[trigger] annexb_join(nals)[j]
                == annexb_join(nals.take(m))[j],
    decreases nals.len(),
{
    if m == nals.len() {
        assert(nals.take(m) =~= nals);
    } else {
        let d = nals.drop_last();
        lemma_join_prefix(d, m);
        assert(d.take(m) =~= nals.take(m));
        let a = annexb_join(d);
        let whole = annexb_join(nals);
        assert(whole == a + seq![0u8, 0u8, 0u8, 1u8] + nals.last());
        assert forall|j: int| 0 <= j < annexb_join(nals.take(m)).len() implies #[trigger] whole[j]
            == annexb_join(nals.take(m))[j] by {
            assert(whole[j] == a[j]);
        }
    }
}

/// The bytes around unit `k` of the joined stream: its start code, then
/// the unit itself, up to the offset of the next unit.
proof fn lemma_unit_layout(nals: Seq<Seq<u8>>, k: int)
    requires
        0 <= k < nals.len(),
    ensures
        unit_offset(nals, k + 1) == unit_offset(nals, k) + 4 + nals[k].len(),
        unit_offset(nals, k + 1) <= annexb_join(nals).len(),
        annexb_join(nals)[unit_offset(nals, k)] == 0,
        annexb_join(nals)[unit_offset(nals, k) + 1] == 0,
        annexb_join(nals)[unit_offset(nals, k) + 2] == 0,
        annexb_join(nals)[unit_offset(nals, k) + 3] == 1,
        annexb_join(nals).subrange(unit_offset(nals, k) + 4, unit_offset(nals, k + 1)) == nals[k],
{
    let whole = annexb_join(nals);
    let o = unit_offset(nals, k);
    let head = annexb_join(nals.take(k));
    let upto = annexb_join(nals.take(k + 1));
    lemma_join_step(nals, k);
    lemma_join_prefix(nals, k + 1);
    assert(upto == head + seq![0u8, 0u8, 0u8, 1u8] + nals[k]);
    assert(whole[o] == upto[o]);
    assert(whole[o + 1] == upto[o + 1]);
    assert(whole[o + 2] == upto[o + 2]);
    assert(whole[o + 3] == upto[o + 3]);
    assert forall|t: int| 0 <= t < nals[k].len() implies #[trigger] whole.subrange(
        o + 4,
        unit_offset(nals, k + 1),
    )[t] == nals[k][t] by {
        assert(whole[o + 4 + t] == upto[o + 4 + t]);
    }
    assert(whole.subrange(o + 4, unit_offset(nals, k + 1)) =~= nals[k]);
}

/// Inside a clean unit the scan finds no start code: from anywhere in unit
/// `k` it reaches the next unit's offset with nothing found.
#[verifier::rlimit(30)]
proof fn lemma_scan_inside(nals: Seq<Seq<u8>>, k: int, p: int)
    requires
        0 <= k < nals.len(),
        forall|j: int| 0 <= j < nals.len() ==> clean_nal(#[trigger] nals[j]),
        unit_offset(nals, k) + 4 <= p <= unit_offset(nals, k + 1),
    ensures
        scan_start_codes(annexb_join(nals), p as nat) == scan_start_codes(
            annexb_join(nals),
            unit_offset(nals, k + 1) as nat,
        ),
    decreases unit_offset(nals, k + 1) - p,
{
    let whole = annexb_join(nals);
    let o = unit_offset(nals, k);
    let e = unit_offset(nals, k + 1);
    let n = nals[k];
    lemma_unit_layout(nals, k);
    if p < e && p + 3 < whole.len() {
        let i = p - (o + 4);
        assert(clean_nal(n));
        assert(whole[p] == n[i]) by {
            assert(whole.subrange(o + 4, e)[i] == whole[p]);
        }
        if i + 2 < n.len() {
            assert(whole[p + 1] == n[i + 1]) by {
                assert(whole.subrange(o + 4, e)[i + 1] == whole[p + 1]);
            }
            assert(whole[p + 2] == n[i + 2]) by {
                assert(whole.subrange(o + 4, e)[i + 2] == whole[p + 2]);
            }
            assert(!(n[i] == 0 && n[i + 1] == 0 && n[i + 2] <= 1));
        } else {
            // The unit's last one or two bytes, then the next start code
            // `00 00 00 01`, which a match here would need to end in 1 too
            // early.
            if k + 1 < nals.len() {
                lemma_unit_layout(nals, k + 1);
                assert(whole[e] == 0 && whole[e + 1] == 0 && whole[e + 2] == 0);
                assert(p == e - 1 || p == e - 2);
            } else {
                assert(nals.take(k + 1) =~= nals);
                assert(e == whole.len());
            }
        }
        lemma_scan_inside(nals, k, p + 1);
    }
}

/// The scan of the joined stream from unit `k` on finds exactly the start
/// codes of units `k..`.
proof fn lemma_scan_from(nals: Seq<Seq<u8>>, k: int)
    requires
        0 <= k <= nals.len(),
        forall|j: int| 0 <= j < nals.len() ==> clean_nal(#[trigger] nals[j]),
        annexb_join(nals).len() <= usize::MAX,
    ensures
        scan_start_codes(annexb_join(nals), unit_offset(nals, k) as nat) == unit_offsets(
            nals,
        ).skip(k),
    decreases nals.len() - k,
{
    let whole = annexb_join(nals);
    let offs = unit_offsets(nals);
    if k == nals.len() {
        assert(nals.take(k) =~= nals);
        assert(offs.skip(k) =~= Seq::<usize>::empty());
    } else {
        let o = unit_offset(nals, k);
        lemma_unit_layout(nals, k);
        assert(clean_nal(nals[k]));
        lemma_scan_inside(nals, k, o + 4);
        lemma_scan_from(nals, k + 1);
        assert(scan_start_codes(whole, o as nat) == seq![o as usize] + scan_start_codes(
            whole,
            (o + 4) as nat,
        ));
        assert(offs[k] == o as usize);
        assert(offs.skip(k) =~= seq![o as usize] + offs.skip(k + 1));
    }
}

/// Cutting the joined stream at the found offsets gives the units `k..`
/// back.
proof fn lemma_units_back(nals: Seq<Seq<u8>>, k: int)
    requires
        0 <= k <= nals.len(),
        forall|j: int| 0 <= j < nals.len() ==> clean_nal(#[trigger] nals[j]),
        annexb_join(nals).len() <= usize::MAX,
    ensures
        units_from(annexb_join(nals), unit_offsets(nals), k as nat) == nals.skip(k),
    decreases nals.len() - k,
{
    let whole = annexb_join(nals);
    let offs = unit_offsets(nals);
    if k == nals.len() {
        assert(nals.skip(k) =~= Seq::<Seq<u8>>::empty());
    } else {
        let o = unit_offset(nals, k);
        lemma_unit_layout(nals, k);
        lemma_units_back(nals, k + 1);
        assert(offs[k] as int == o);
        assert(start_code_len(whole, o) == 4);
        if k + 1 < nals.len() {
            assert(offs[k + 1] as int == unit_offset(nals, k + 1));
        } else {
            assert(nals.take(k + 1) =~= nals);
        }
        assert(unit_bytes(whole, offs, k) == nals[k]);
        assert(clean_nal(nals[k]));
        assert(nals.skip(k) =~= seq![nals[k]] + nals.skip(k + 1));
    }
}

/// Annex B framing round trip: NAL units written behind 4-byte start codes
/// are split back into exactly those units, in order, provided each unit is
/// clean (non-empty, emulation prevention applied).
pub proof fn law_split_joined_units(nals: Seq<Seq<u8>>)
    requires
        forall|j: int| 0 <= j < nals.len() ==> clean_nal(#[trigger] nals[j]),
        annexb_join(nals).len() <= usize::MAX,
    ensures
        nal_units(annexb_join(nals)) == nals,
{
    assert(nals.take(0) =~= Seq::<Seq<u8>>::empty());
    assert(unit_offset(nals, 0) == 0);
    lemma_scan_from(nals, 0);
    assert(unit_offsets(nals).skip(0) =~= unit_offsets(nals));
    lemma_units_back(nals, 0);
    assert(nals.skip(0) =~= nals);
}

/// An access unit written from clean NAL units is a keyframe exactly when
/// one of those units is an IDR picture (NAL unit type 5, the low five bits
/// of its first byte); parameter sets alone do not make one.
pub proof fn law_keyframe_iff_idr_unit(nals: Seq<Seq<u8>>)
    requires
        forall|j: int| 0 <= j < nals.len() ==> clean_nal(#[trigger] nals[j]),
        annexb_join(nals).len() <= usize::MAX,
    ensures
        keyframe_unit(annexb_join(nals)) <==> exists|j: int|
            0 <= j < nals.len() && #[trigger] nals[j][0] & 0x1F == 5,
{
    law_split_joined_units(nals);
}

} // verus!
