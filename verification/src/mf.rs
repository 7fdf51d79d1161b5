// The pure part of the Media Foundation H.264 encoder: input checks, output
// buffer sizing, sample timing, and how each encoded access unit is framed.
// The COM calls themselves live outside this library.
use vstd::prelude::*;

use crate::h264::{is_keyframe_access_unit, keyframe_unit};
use crate::text::{decimal, push_decimal};

verus! {

/// One encoded access unit (usually one picture; Annex B, start codes
/// intact).
#[derive(Debug, Clone)]
pub struct EncodedUnit {
    pub bytes: Vec<u8>,
    pub keyframe: bool,
}

/// `b` begins with an Annex B start code.
pub open spec fn annexb_prefixed(b: Seq<u8>) -> bool {
    (b.len() >= 3 && b[0] == 0 && b[1] == 0 && b[2] == 1) || (b.len() >= 4 && b[0] == 0 && b[1]
        == 0 && b[2] == 0 && b[3] == 1)
}

/// Whether `b` begins with an Annex B start code.
pub fn starts_with_annexb(b: &[u8]) -> (r: bool)
    ensures
        r == annexb_prefixed(b@),
{
    (b.len() >= 3 && b[0] == 0 && b[1] == 0 && b[2] == 1) || (b.len() >= 4 && b[0] == 0 && b[1]
        == 0 && b[2] == 0 && b[3] == 1)
}

/// An access unit drained from the encoder, with its keyframe flag; `None`
/// for an empty sample.
pub fn encoded_unit(bytes: Vec<u8>) -> (u: Option<EncodedUnit>)
    ensures
        bytes@.len() == 0 ==> u is None,
        bytes@.len() > 0 ==> (u matches Some(e) && e.bytes@ == bytes@ && e.keyframe
            == keyframe_unit(bytes@)),
{
    if bytes.len() == 0 {
        return None;
    }
    let keyframe = is_keyframe_access_unit(bytes.as_slice());
    Some(EncodedUnit { bytes, keyframe })
}

/// The bytes sent for an access unit: the sequence header (SPS/PPS) put in
/// front of every keyframe when there is one, so a client joining mid-stream
/// can start decoding; then a 4-byte start code put in front when the result
/// does not already begin with one.
pub open spec fn framed_bytes(seq_header: Seq<u8>, bytes: Seq<u8>, keyframe: bool) -> Seq<u8> {
    let b = if keyframe && seq_header.len() > 0 {
        seq_header + bytes
    } else {
        bytes
    };
    if annexb_prefixed(b) {
        b
    } else {
        seq![0u8, 0u8, 0u8, 1u8] + b
    }
}

/// Frames one encoded access unit for the wire.
pub fn frame_unit(seq_header: &[u8], unit: EncodedUnit) -> (r: EncodedUnit)
    ensures
        r.bytes@ == framed_bytes(seq_header@, unit.bytes@, unit.keyframe),
        r.keyframe == unit.keyframe,
        annexb_prefixed(r.bytes@),
{
    let keyframe = unit.keyframe;
    let mut bytes = unit.bytes;
    if keyframe && seq_header.len() > 0 {
        let mut prefixed: Vec<u8> = Vec::new();
        let mut i: usize = 0;
        while i < seq_header.len()
            invariant
                i <= seq_header@.len(),
                prefixed@ == seq_header@.take(i as int),
            decreases seq_header.len() - i,
        {
            prefixed.push(seq_header[i]);
            assert(prefixed@ =~= seq_header@.take(i + 1));
            i = i + 1;
        }
        assert(seq_header@.take(i as int) =~= seq_header@);
        prefixed.append(&mut bytes);
        bytes = prefixed;
    }
    if !starts_with_annexb(bytes.as_slice()) {
        let mut fixed: Vec<u8> = Vec::new();
        fixed.push(0);
        fixed.push(0);
        fixed.push(0);
        fixed.push(1);
        let ghost b = bytes@;
        fixed.append(&mut bytes);
        assert(fixed@ =~= seq![0u8, 0u8, 0u8, 1u8] + b);
        bytes = fixed;
    }
    EncodedUnit { bytes, keyframe }
}

/// Byte size of an NV12 input frame for the encoder.
pub open spec fn nv12_need(w: u32, h: u32) -> nat {
    w as nat * h as nat * 3 / 2
}

/// Checks an NV12 input against the encoder's size; returns the number of
/// bytes to feed.
///
/// # Errors
/// A frame of another size (the encoder must be recreated on a resolution
/// change) or a buffer too short for the frame.
pub fn check_input(nv12_len: usize, w: u32, h: u32, enc_w: u32, enc_h: u32) -> (res: Result<
    usize,
    String,
>)
    requires
        w as int * h as int * 3 <= usize::MAX,
    ensures
        (w != enc_w || h != enc_h) ==> (res matches Err(e) && e@ == "frame "@ + decimal(w as nat)
            + "x"@ + decimal(h as nat) + " != encoder "@ + decimal(enc_w as nat) + "x"@ + decimal(
            enc_h as nat,
        ) + " (recreate on resolution change)"@),
        (w == enc_w && h == enc_h && nv12_len < nv12_need(w, h)) ==> (res matches Err(e) && e@
            == "NV12 buffer "@ + decimal(nv12_len as nat) + " bytes, need "@ + decimal(
            nv12_need(w, h),
        )),
        (w == enc_w && h == enc_h && nv12_len >= nv12_need(w, h)) ==> res == Ok::<
            usize,
            String,
        >(nv12_need(w, h) as usize),
{
    if w != enc_w || h != enc_h {
        let mut m = String::from_str("frame ");
        push_decimal(&mut m, w as u64);
        m.append("x");
        push_decimal(&mut m, h as u64);
        m.append(" != encoder ");
        push_decimal(&mut m, enc_w as u64);
        m.append("x");
        push_decimal(&mut m, enc_h as u64);
        m.append(" (recreate on resolution change)");
        return Err(m);
    }
    let need: usize = (w as usize) * (h as usize) * 3 / 2;
    if nv12_len < need {
        let mut m = String::from_str("NV12 buffer ");
        push_decimal(&mut m, nv12_len as u64);
        m.append(" bytes, need ");
        push_decimal(&mut m, need as u64);
        return Err(m);
    }
    Ok(need)
}

/// Duration of one frame in 100 ns units (a frame rate of 0 counts as 1).
pub fn frame_duration_100ns(fps: u32) -> (d: i64)
    ensures
        d as int == 10_000_000int / (if fps == 0 { 1int } else { fps as int }),
{
    let f: i64 = if fps == 0 {
        1
    } else {
        fps as i64
    };
    10_000_000 / f
}

/// Starting size of an output buffer: twice a frame's pixels plus 64 KiB,
/// so the first IDR (parameter sets plus a full picture) needs no regrow.
pub fn initial_output_buffer(w: u32, h: u32) -> (n: u32)
    requires
        w as int * h as int * 3 + 65536 <= u32::MAX,
    ensures
        n as int == w as int * h as int * 3 + 65536,
{
    w * h * 3 + 65536
}

/// Largest output buffer worth trying: beyond 32 MiB something structural
/// is wrong.
pub const MAX_OUTPUT_BUFFER: u32 = 32 * 1024 * 1024;

/// The next output buffer size after the encoder reported one too small:
/// doubled, capped at `MAX_OUTPUT_BUFFER`.
///
/// # Errors
/// The buffer is already at the cap.
pub fn grow_output_buffer(size: u32) -> (res: Result<u32, String>)
    ensures
        size >= MAX_OUTPUT_BUFFER ==> (res matches Err(e) && e@
            == "ProcessOutput still BUFFERTOOSMALL at 32MB"@),
        size < MAX_OUTPUT_BUFFER ==> res == Ok::<u32, String>(
            if 2 * size <= MAX_OUTPUT_BUFFER {
                (2 * size) as u32
            } else {
                MAX_OUTPUT_BUFFER
            },
        ),
{
    if size >= MAX_OUTPUT_BUFFER {
        return Err(String::from_str("ProcessOutput still BUFFERTOOSMALL at 32MB"));
    }
    let doubled = size * 2;
    if doubled <= MAX_OUTPUT_BUFFER {
        Ok(doubled)
    } else {
        Ok(MAX_OUTPUT_BUFFER)
    }
}

} // verus!
