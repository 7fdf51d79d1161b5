// Pixel logic: fit-to-cap sizing, nearest-neighbour downscale to RGB and to
// NV12, and the JPEG encode step. No capture APIs here, so every function is
// stated and proved.
use jpeg_encoder::{ColorType, Encoder, EncodingError};
use vstd::prelude::*;

use crate::text::{decimal, lemma_prefix_of_concat, push_decimal};

verus! {

#[verifier::external_type_specification]
#[verifier::external_body]
pub struct ExEncodingError(EncodingError);

/// Name for the JPEG that jpeg-encoder's `Encoder::encode` writes for a
/// tightly packed RGB buffer of the given size and quality (`None` when it
/// reports an error).
pub uninterp spec fn jpeg_encoding(rgb: Seq<u8>, width: u16, height: u16, quality: u8) -> Option<
    Seq<u8>,
>;

/// A JPEG stream framed by its start-of-image (`FF D8`) and end-of-image
/// (`FF D9`) markers, with content between them.
pub open spec fn has_jpeg_markers(b: Seq<u8>) -> bool {
    &&& b.len() > 4
    &&& b[0] == 0xFF && b[1] == 0xD8
    &&& b[b.len() - 2] == 0xFF && b[b.len() - 1] == 0xD9
}

/// jpeg-encoder's `Encoder::new(&mut buf, quality).encode(rgb, width, height,
/// ColorType::Rgb)` into a fresh buffer. Its source writes the SOI marker
/// first, then the JFIF APP0 segment, the frame and scan data, and the EOI
/// marker last. It refuses a buffer shorter than `width * height * 3`
/// (`BadImageData`) and a zero dimension (`ZeroImageDimensions`); every
/// other error it can return comes from the writer, and writing into a
/// `Vec<u8>` never fails, so on any other input it succeeds.
#[verifier::external_body]
fn encode_rgb(rgb: &[u8], width: u16, height: u16, quality: u8) -> (res: Result<
    Vec<u8>,
    EncodingError,
>)
    requires
        width as int * height as int * 3 <= usize::MAX,
    ensures
        match res {
            Ok(v) => jpeg_encoding(rgb@, width, height, quality) == Some(v@),
            Err(_) => jpeg_encoding(rgb@, width, height, quality) is None,
        },
        res matches Ok(v) ==> has_jpeg_markers(v@),
        width == 0 || height == 0 || rgb@.len() < width as int * height as int * 3 ==> res is Err,
        width > 0 && height > 0 && rgb@.len() >= width as int * height as int * 3 ==> res is Ok,
{
    let mut buf: Vec<u8> = Vec::new();
    match Encoder::new(&mut buf, quality).encode(rgb, width, height, ColorType::Rgb) {
        Ok(()) => Ok(buf),
        Err(e) => Err(e),
    }
}

/// jpeg-encoder's `Display` text for an `EncodingError`. Nothing is stated
/// of the text: it depends on the error's variant and fields, which are not
/// visible here.
#[verifier::external_body]
fn encoding_error_text(e: &EncodingError) -> String {
    format!("{}", e)
}

/// `max(v, 1)` for a non-negative integer, as a `u32`.
pub open spec fn at_least_one(v: nat) -> u32 {
    if v >= 1 {
        v as u32
    } else {
        1
    }
}

/// The size `fit_within` picks: `(1, 1)` for a degenerate input, the source
/// size when it already fits, else the cap on the tighter side and the other
/// side scaled by the same ratio (rounded down, at least 1).
pub open spec fn fit_size(src_w: u32, src_h: u32, max_w: u32, max_h: u32) -> (u32, u32) {
    if src_w == 0 || src_h == 0 || max_w == 0 || max_h == 0 {
        (1, 1)
    } else if src_w <= max_w && src_h <= max_h {
        (src_w, src_h)
    } else {
        let by_w = (src_h as nat * max_w as nat) / (src_w as nat);
        if by_w <= max_h {
            (max_w, at_least_one(by_w))
        } else {
            let by_h = (src_w as nat * max_h as nat) / (src_h as nat);
            (at_least_one(by_h), max_h)
        }
    }
}

proof fn lemma_fit_width_bound(src_w: nat, src_h: nat, max_w: nat, max_h: nat)
    requires
        src_w > 0,
        src_h > 0,
        max_w > 0,
        max_h > 0,
        !(src_w <= max_w && src_h <= max_h),
        (src_h * max_w) / src_w <= max_h,
    ensures
        max_w < src_w,
        (src_h * max_w) / src_w <= src_h,
{
    if src_w <= max_w {
        assert(src_h * max_w >= src_h * src_w) by (nonlinear_arith)
            requires
                src_w <= max_w,
        ;
        assert((src_h * max_w) / src_w >= (src_h * src_w) / src_w) by (nonlinear_arith)
            requires
                src_h * max_w >= src_h * src_w,
                src_w > 0,
        ;
        assert((src_h * src_w) / src_w == src_h) by (nonlinear_arith)
            requires
                src_w > 0,
        ;
    }
    assert((src_h * max_w) / src_w <= src_h) by (nonlinear_arith)
        requires
            max_w < src_w,
            src_w > 0,
    {
        assert(src_h * max_w <= src_h * src_w);
        assert((src_h * max_w) / src_w <= (src_h * src_w) / src_w);
        assert((src_h * src_w) / src_w == src_h);
    }
}

proof fn lemma_fit_height_bound(src_w: nat, src_h: nat, max_w: nat, max_h: nat)
    requires
        src_w > 0,
        src_h > 0,
        max_w > 0,
        max_h > 0,
        !(src_w <= max_w && src_h <= max_h),
        (src_h * max_w) / src_w > max_h,
    ensures
        max_h < src_h,
        (src_w * max_h) / src_h <= max_w,
        (src_w * max_h) / src_h <= src_w,
{
    let by_w = (src_h * max_w) / src_w;
    assert(src_h * max_w >= (max_h + 1) * src_w) by (nonlinear_arith)
        requires
            by_w == (src_h * max_w) / src_w,
            by_w >= max_h + 1,
            src_w > 0,
    {
        assert(src_w * by_w <= src_h * max_w);
        assert(src_w * (max_h + 1) <= src_w * by_w);
    }
    if src_h <= max_h {
        assert(max_w > src_w) by (nonlinear_arith)
            requires
                src_h * max_w >= (max_h + 1) * src_w,
                src_h <= max_h,
                src_w > 0,
                src_h > 0,
        {
            assert((max_h + 1) * src_w > src_h * src_w);
        }
    }
    assert((src_w * max_h) / src_h <= max_w) by (nonlinear_arith)
        requires
            src_h * max_w >= (max_h + 1) * src_w,
            src_h > 0,
            src_w > 0,
    {
        assert(src_w * max_h < src_h * max_w);
        assert(src_w * max_h <= max_w * src_h);
        assert((src_w * max_h) / src_h <= (max_w * src_h) / src_h);
        assert((max_w * src_h) / src_h == max_w);
    }
    assert((src_w * max_h) / src_h <= src_w) by (nonlinear_arith)
        requires
            max_h < src_h,
            src_h > 0,
    {
        assert(src_w * max_h <= src_w * src_h);
        assert((src_w * max_h) / src_h <= (src_w * src_h) / src_h);
        assert((src_w * src_h) / src_h == src_w);
    }
}

proof fn lemma_floor_bounds(x: nat, d: nat)
    requires
        d > 0,
    ensures
        (x / d) * d <= x < (x / d + 1) * d,
{
    assert((x / d) * d <= x < (x / d + 1) * d) by (nonlinear_arith)
        requires
            d > 0,
    {
        assert(x == d * (x / d) + x % d);
        assert(0 <= x % d < d);
    }
}

/// Aspect ratio: when the source has to shrink, the side that is not at its
/// cap is the proportional size rounded down (kept at 1 when that is 0), so
/// `fit_within` never stretches the picture by more than one pixel.
pub proof fn law_fit_keeps_aspect(src_w: u32, src_h: u32, max_w: u32, max_h: u32)
    requires
        src_w > 0 && src_h > 0 && max_w > 0 && max_h > 0,
        !(src_w <= max_w && src_h <= max_h),
    ensures
        ({
            let (w, h) = fit_size(src_w, src_h, max_w, max_h);
            ||| w == max_w && src_h as int * max_w < (h as int + 1) * src_w && (h == 1 || h as int
                * src_w <= src_h as int * max_w)
            ||| h == max_h && src_w as int * max_h < (w as int + 1) * src_h && (w == 1 || w as int
                * src_h <= src_w as int * max_h)
        }),
{
    lemma_floor_bounds(src_h as nat * max_w as nat, src_w as nat);
    lemma_floor_bounds(src_w as nat * max_h as nat, src_h as nat);
    let by_w = (src_h as nat * max_w as nat) / (src_w as nat);
    let by_h = (src_w as nat * max_h as nat) / (src_h as nat);
    if by_w <= max_h {
        let h = at_least_one(by_w);
        assert(src_h as int * max_w < (h as int + 1) * src_w && (h == 1 || h as int * src_w
            <= src_h as int * max_w)) by (nonlinear_arith)
            requires
                by_w * (src_w as nat) <= src_h as nat * max_w as nat,
                (src_h as nat * max_w as nat) < (by_w + 1) * (src_w as nat),
                h as nat == (if by_w >= 1 { by_w } else { 1 }),
        ;
    } else {
        lemma_fit_height_bound(src_w as nat, src_h as nat, max_w as nat, max_h as nat);
        let w = at_least_one(by_h);
        assert(src_w as int * max_h < (w as int + 1) * src_h && (w == 1 || w as int * src_h
            <= src_w as int * max_h)) by (nonlinear_arith)
            requires
                by_h * (src_h as nat) <= src_w as nat * max_h as nat,
                (src_w as nat * max_h as nat) < (by_h + 1) * (src_h as nat),
                w as nat == (if by_h >= 1 { by_h } else { 1 }),
        ;
    }
}

/// Largest w/h that fits inside `max_w` x `max_h` preserving aspect ratio.
/// Never upscales: a 800x600 source stays 800x600 under a 1280x720 cap.
pub fn fit_within(src_w: u32, src_h: u32, max_w: u32, max_h: u32) -> (r: (u32, u32))
    ensures
        r == fit_size(src_w, src_h, max_w, max_h),
        r.0 >= 1 && r.1 >= 1,
        src_w > 0 && src_h > 0 && max_w > 0 && max_h > 0 ==> {
            &&& r.0 <= max_w && r.1 <= max_h
            &&& r.0 <= src_w && r.1 <= src_h
        },
{
    if src_w == 0 || src_h == 0 || max_w == 0 || max_h == 0 {
        return (1, 1);
    }
    if src_w <= max_w && src_h <= max_h {
        return (src_w, src_h);
    }
    assert(src_h as u64 * max_w as u64 <= u64::MAX) by (nonlinear_arith)
        requires
            src_h <= u32::MAX,
            max_w <= u32::MAX,
    ;
    let by_w: u64 = (src_h as u64 * max_w as u64) / src_w as u64;
    if by_w <= max_h as u64 {
        proof {
            lemma_fit_width_bound(src_w as nat, src_h as nat, max_w as nat, max_h as nat);
        }
        let h: u32 = if by_w >= 1 {
            by_w as u32
        } else {
            1
        };
        (max_w, h)
    } else {
        proof {
            lemma_fit_height_bound(src_w as nat, src_h as nat, max_w as nat, max_h as nat);
        }
        assert(src_w as u64 * max_h as u64 <= u64::MAX) by (nonlinear_arith)
            requires
                src_w <= u32::MAX,
                max_h <= u32::MAX,
        ;
        let by_h: u64 = (src_w as u64 * max_h as u64) / src_h as u64;
        let w: u32 = if by_h >= 1 {
            by_h as u32
        } else {
            1
        };
        (w, max_h)
    }
}

/// Flat offset of channel `c` of pixel `(x, y)` in a tightly packed image
/// `w` pixels wide with `bpp` bytes per pixel.
pub open spec fn pixel_offset(w: nat, bpp: nat, x: nat, y: nat, c: nat) -> int {
    ((y * w + x) * bpp + c) as int
}

/// Source coordinate sampled for destination coordinate `i` (nearest
/// neighbour: `i * src / dst`, rounded down).
pub open spec fn nearest(i: nat, src: nat, dst: nat) -> nat {
    (i * src) / dst
}

/// Byte offset of the RGBA source pixel that destination pixel `(x, y)`
/// samples, for a source whose rows are `stride` bytes apart.
pub open spec fn source_offset(
    src_w: nat,
    src_h: nat,
    stride: nat,
    dst_w: nat,
    dst_h: nat,
    x: nat,
    y: nat,
) -> nat {
    nearest(y, src_h, dst_h) * stride + nearest(x, src_w, dst_w) * 4
}

/// Channel `c` (0 = R, 1 = G, 2 = B of the output) of destination pixel
/// `(x, y)` of `downscale_to_rgb`: the sampled source pixel's byte, with red
/// and blue taken from swapped positions when `swap_rb`; black (0) when the
/// source is empty or too short to hold the sampled pixel.
pub open spec fn rgb_sample(
    src: Seq<u8>,
    src_w: u32,
    src_h: u32,
    stride: usize,
    dst_w: u32,
    dst_h: u32,
    swap_rb: bool,
    x: nat,
    y: nat,
    c: nat,
) -> u8 {
    let si = source_offset(
        src_w as nat,
        src_h as nat,
        stride as nat,
        dst_w as nat,
        dst_h as nat,
        x,
        y,
    );
    let off: nat = if c == 1 {
        1
    } else if (c == 0) != swap_rb {
        0
    } else {
        2
    };
    if src_w == 0 || src_h == 0 || si + 2 >= src.len() {
        0
    } else {
        src[(si + off) as int]
    }
}

proof fn lemma_pixel_before(w: nat, bpp: nat, xx: nat, yy: nat, c: nat, x: nat, y: nat)
    requires
        xx < w,
        c < bpp,
        yy < y || (yy == y && xx < x),
    ensures
        pixel_offset(w, bpp, xx, yy, c) < ((y * w + x) * bpp) as int,
{
    assert(yy * w + xx < y * w + x) by (nonlinear_arith)
        requires
            xx < w,
            yy < y || (yy == y && xx < x),
    {
        if yy < y {
            assert(yy * w + w <= y * w);
        }
    }
    assert((yy * w + xx) * bpp + c < (y * w + x) * bpp) by (nonlinear_arith)
        requires
            yy * w + xx < y * w + x,
            c < bpp,
    {
        assert((yy * w + xx + 1) * bpp <= (y * w + x) * bpp);
    }
}

proof fn lemma_pixel_in_image(w: nat, h: nat, bpp: nat, x: nat, y: nat, c: nat)
    requires
        x < w,
        y < h,
        c < bpp,
    ensures
        0 <= pixel_offset(w, bpp, x, y, c) < w * h * bpp,
{
    lemma_pixel_before(w, bpp, x, y, c, 0, h);
    assert(h * w * bpp == w * h * bpp) by (nonlinear_arith);
}

proof fn lemma_nearest_below(i: nat, src: nat, dst: nat)
    requires
        i < dst,
    ensures
        nearest(i, src, dst) < src || src == 0,
        nearest(i, src, dst) <= src,
{
    assert((i * src) / dst <= src) by (nonlinear_arith)
        requires
            i < dst,
    {
        assert(i * src <= dst * src);
        assert((dst * src) / dst == src);
        assert((i * src) / dst <= (dst * src) / dst);
    }
    if src > 0 {
        assert((i * src) / dst < src) by (nonlinear_arith)
            requires
                i < dst,
                src > 0,
        {
            assert(i * src < dst * src);
            assert(i * src <= dst * src - src);
            assert((i * src) / dst * dst <= i * src);
        }
    }
}

/// Nearest-neighbour downscale from a padded RGBA/BGRA source into tight RGB.
///
/// `src_stride` is the row pitch in bytes; capture buffers are padded to a
/// multiple of the GPU pitch, so it is usually larger than `src_w * 4`. The
/// resize, the alpha strip and the channel swap happen in one pass. A short
/// or truncated source yields black pixels, never a panic.
#[verifier::rlimit(40)]
pub fn downscale_to_rgb(
    src: &[u8],
    src_w: u32,
    src_h: u32,
    src_stride: usize,
    dst_w: u32,
    dst_h: u32,
    swap_rb: bool,
) -> (out: Vec<u8>)
    requires
        dst_w as int * dst_h as int * 3 <= usize::MAX,
        dst_w as int * src_w as int <= usize::MAX,
        dst_h as int * src_h as int <= usize::MAX,
        src_h as int * src_stride as int + src_w as int * 4 <= usize::MAX,
    ensures
        out@.len() == dst_w as int * dst_h as int * 3,
        forall|x: nat, y: nat, c: nat|
            x < dst_w && y < dst_h && c < 3 ==> #[trigger] out@[pixel_offset(
                dst_w as nat,
                3,
                x,
                y,
                c,
            )] == rgb_sample(src@, src_w, src_h, src_stride, dst_w, dst_h, swap_rb, x, y, c),
{
    let n: usize = (dst_w as usize) * (dst_h as usize) * 3;
    let mut out: Vec<u8> = vec![0u8; n];
    let ghost w = dst_w as nat;
    let ghost h = dst_h as nat;
    if src_w == 0 || src_h == 0 || dst_w == 0 || dst_h == 0 {
        assert forall|x: nat, y: nat, c: nat| x < dst_w && y < dst_h && c < 3 implies #[trigger] out@[pixel_offset(
            w,
            3,
            x,
            y,
            c,
        )] == rgb_sample(src@, src_w, src_h, src_stride, dst_w, dst_h, swap_rb, x, y, c) by {
            lemma_pixel_in_image(w, h, 3, x, y, c);
        }
        return out;
    }
    let r_off: usize = if swap_rb {
        2
    } else {
        0
    };
    let b_off: usize = if swap_rb {
        0
    } else {
        2
    };
    let mut y: usize = 0;
    while y < dst_h as usize
        invariant
            n == w * h * 3,
            out@.len() == n,
            w == dst_w,
            h == dst_h,
            src_w > 0 && src_h > 0 && dst_w > 0 && dst_h > 0,
            r_off == (if swap_rb { 2usize } else { 0usize }),
            b_off == (if swap_rb { 0usize } else { 2usize }),
            y <= dst_h,
            dst_w as int * src_w as int <= usize::MAX,
            dst_h as int * src_h as int <= usize::MAX,
            src_h as int * src_stride as int + src_w as int * 4 <= usize::MAX,
            forall|k: int| (y * w * 3) <= k < n ==> out@[k] == 0,
            forall|xx: nat, yy: nat, c: nat|
                xx < w && yy < y && c < 3 ==> #[trigger] out@[pixel_offset(w, 3, xx, yy, c)]
                    == rgb_sample(src@, src_w, src_h, src_stride, dst_w, dst_h, swap_rb, xx, yy, c),
        decreases dst_h - y,
    {
        assert(y as int * src_h as int <= dst_h as int * src_h as int) by (nonlinear_arith)
            requires
                y < dst_h,
        ;
        let sy: usize = y * (src_h as usize) / (dst_h as usize);
        proof {
            lemma_nearest_below(y as nat, src_h as nat, dst_h as nat);
        }
        assert(sy as int * src_stride as int <= src_h as int * src_stride as int) by (nonlinear_arith)
            requires
                sy < src_h,
        ;
        let row: usize = sy * src_stride;
        assert(y as int * w * 3 + w * 3 <= n) by (nonlinear_arith)
            requires
                y < h,
                n == w * h * 3,
        {
            assert((y + 1) * w * 3 <= h * w * 3);
        }
        let dst_row: usize = y * (dst_w as usize) * 3;
        let mut x: usize = 0;
        while x < dst_w as usize
            invariant
                n == w * h * 3,
                out@.len() == n,
                w == dst_w,
                h == dst_h,
                src_w > 0 && src_h > 0 && dst_w > 0 && dst_h > 0,
                r_off == (if swap_rb { 2usize } else { 0usize }),
                b_off == (if swap_rb { 0usize } else { 2usize }),
                y < dst_h,
                x <= dst_w,
                sy == nearest(y as nat, src_h as nat, dst_h as nat),
                sy < src_h,
                row == sy * src_stride,
                dst_row == y * w * 3,
                dst_row + w * 3 <= n,
                dst_w as int * src_w as int <= usize::MAX,
                src_h as int * src_stride as int + src_w as int * 4 <= usize::MAX,
                row <= src_h as int * src_stride as int,
                forall|k: int| (y * w * 3 + x * 3) <= k < n ==> out@[k] == 0,
                forall|xx: nat, yy: nat, c: nat|
                    xx < w && c < 3 && (yy < y || (yy == y && xx < x)) ==> #[trigger] out@[pixel_offset(
                        w,
                        3,
                        xx,
                        yy,
                        c,
                    )] == rgb_sample(
                        src@,
                        src_w,
                        src_h,
                        src_stride,
                        dst_w,
                        dst_h,
                        swap_rb,
                        xx,
                        yy,
                        c,
                    ),
            decreases dst_w - x,
        {
            assert(x as int * src_w as int <= dst_w as int * src_w as int) by (nonlinear_arith)
                requires
                    x < dst_w,
            ;
            let sx: usize = x * (src_w as usize) / (dst_w as usize);
            proof {
                lemma_nearest_below(x as nat, src_w as nat, dst_w as nat);
            }
            let si: usize = row + sx * 4;
            let di: usize = dst_row + x * 3;
            assert(di == y * w * 3 + x * 3);
            assert(di + 3 <= n) by (nonlinear_arith)
                requires
                    di == y * w * 3 + x * 3,
                    x < w,
                    dst_row == y * w * 3,
                    dst_row + w * 3 <= n,
            ;
            assert(di as int == pixel_offset(w, 3, x as nat, y as nat, 0)) by (nonlinear_arith)
                requires
                    di == y * w * 3 + x * 3,
            ;
            assert(si as nat == source_offset(
                src_w as nat,
                src_h as nat,
                src_stride as nat,
                dst_w as nat,
                dst_h as nat,
                x as nat,
                y as nat,
            ));
            if si + 2 < src.len() {
                out.set(di, src[si + r_off]);
                out.set(di + 1, src[si + 1]);
                out.set(di + 2, src[si + b_off]);
            }
            assert forall|xx: nat, yy: nat, c: nat|
                xx < w && c < 3 && (yy < y || (yy == y && xx < x + 1)) implies #[trigger] out@[pixel_offset(
                w,
                3,
                xx,
                yy,
                c,
            )] == rgb_sample(
                src@,
                src_w,
                src_h,
                src_stride,
                dst_w,
                dst_h,
                swap_rb,
                xx,
                yy,
                c,
            ) by {
                if yy == y && xx == x {
                    assert(pixel_offset(w, 3, xx, yy, c) == di + c) by (nonlinear_arith)
                        requires
                            di as int == pixel_offset(w, 3, x as nat, y as nat, 0),
                            xx == x,
                            yy == y,
                    ;
                } else {
                    lemma_pixel_before(w, 3, xx, yy, c, x as nat, y as nat);
                    assert((y * w + x) * 3 == di) by (nonlinear_arith)
                        requires
                            di as int == pixel_offset(w, 3, x as nat, y as nat, 0),
                    ;
                }
            }
            x = x + 1;
        }
        assert(y * w * 3 + w * 3 == (y + 1) * w * 3) by (nonlinear_arith);
        y = y + 1;
    }
    assert forall|xx: nat, yy: nat, c: nat| xx < dst_w && yy < dst_h && c < 3 implies #[trigger] out@[pixel_offset(
        w,
        3,
        xx,
        yy,
        c,
    )] == rgb_sample(src@, src_w, src_h, src_stride, dst_w, dst_h, swap_rb, xx, yy, c) by {}
    out
}

/// Each output pixel of the RGB downscale is the source pixel that its
/// position samples (row `y * src_h / dst_h`, column `x * src_w / dst_w`),
/// alpha dropped, with red and blue exchanged when `swap_rb`.
pub proof fn law_rgb_pixel_is_sampled_pixel(
    out: Seq<u8>,
    src: Seq<u8>,
    src_w: u32,
    src_h: u32,
    stride: usize,
    dst_w: u32,
    dst_h: u32,
    swap_rb: bool,
    x: nat,
    y: nat,
    r: u8,
    g: u8,
    b: u8,
)
    requires
        forall|xx: nat, yy: nat, c: nat|
            xx < dst_w && yy < dst_h && c < 3 ==> #[trigger] out[pixel_offset(
                dst_w as nat,
                3,
                xx,
                yy,
                c,
            )] == rgb_sample(src, src_w, src_h, stride, dst_w, dst_h, swap_rb, xx, yy, c),
        src_w > 0,
        src_h > 0,
        x < dst_w,
        y < dst_h,
        source_pixel_is(
            src,
            sampled_offset(src_w, src_h, stride, dst_w as nat, dst_h as nat, x, y),
            r,
            g,
            b,
        ),
    ensures
        out[((y * dst_w as nat + x) * 3) as int] == (if swap_rb {
            b
        } else {
            r
        }),
        out[((y * dst_w as nat + x) * 3 + 1) as int] == g,
        out[((y * dst_w as nat + x) * 3 + 2) as int] == (if swap_rb {
            r
        } else {
            b
        }),
{
    assert(out[pixel_offset(dst_w as nat, 3, x, y, 0)] == rgb_sample(
        src,
        src_w,
        src_h,
        stride,
        dst_w,
        dst_h,
        swap_rb,
        x,
        y,
        0,
    ));
    assert(out[pixel_offset(dst_w as nat, 3, x, y, 1)] == rgb_sample(
        src,
        src_w,
        src_h,
        stride,
        dst_w,
        dst_h,
        swap_rb,
        x,
        y,
        1,
    ));
    assert(out[pixel_offset(dst_w as nat, 3, x, y, 2)] == rgb_sample(
        src,
        src_w,
        src_h,
        stride,
        dst_w,
        dst_h,
        swap_rb,
        x,
        y,
        2,
    ));
}

/// Byte size of an NV12 frame: full-size Y plane + half-size interleaved UV.
pub open spec fn nv12_size(w: nat, h: nat) -> nat {
    w * h * 3 / 2
}

/// Byte size of an NV12 frame: full-size Y plane + half-size interleaved UV.
pub fn nv12_frame_size(w: u32, h: u32) -> (n: usize)
    requires
        w as int * h as int * 3 <= usize::MAX,
    ensures
        n as nat == nv12_size(w as nat, h as nat),
{
    (w as usize) * (h as usize) * 3 / 2
}

/// NV12 needs even dimensions: an odd target is clamped down by one, and the
/// minimum is 2.
pub open spec fn even_dim(d: u32) -> nat {
    let e = (d as nat - (d as nat) % 2) as nat;
    if e >= 2 {
        e
    } else {
        2
    }
}

/// `even_dim`, computed.
pub fn even_dimension(d: u32) -> (e: u32)
    ensures
        e as nat == even_dim(d),
{
    let e = d & !1u32;
    assert(e == d - d % 2) by (bit_vector)
        requires
            e == d & !1u32,
    ;
    if e < 2 {
        2
    } else {
        e
    }
}

/// The R, G, B values NV12 conversion reads for target pixel `(x, y)` of a
/// `w` x `h` frame; black when the source is too short.
pub open spec fn rgb_in(
    src: Seq<u8>,
    src_w: u32,
    src_h: u32,
    stride: usize,
    w: nat,
    h: nat,
    x: nat,
    y: nat,
) -> (int, int, int) {
    let si = source_offset(src_w as nat, src_h as nat, stride as nat, w, h, x, y);
    if si + 2 < src.len() {
        (src[si as int] as int, src[si + 1 as int] as int, src[si + 2 as int] as int)
    } else {
        (0, 0, 0)
    }
}

/// Full-range BT.601 luma: `(77R + 150G + 29B) >> 8`.
pub open spec fn luma(p: (int, int, int)) -> int {
    (77 * p.0 + 150 * p.1 + 29 * p.2) / 256
}

/// Blue-difference term of one pixel: `(-43R - 84G + 127B) >> 8` (an
/// arithmetic shift, so rounded down).
pub open spec fn blue_diff(p: (int, int, int)) -> int {
    (-43 * p.0 - 84 * p.1 + 127 * p.2) / 256
}

/// Red-difference term of one pixel: `(127R - 106G - 21B) >> 8`.
pub open spec fn red_diff(p: (int, int, int)) -> int {
    (127 * p.0 - 106 * p.1 - 21 * p.2) / 256
}

/// A chroma byte from the sum of four pixel terms: the sum divided by 4
/// (rounded toward zero), plus 128, clamped to 0..=255.
pub open spec fn chroma_byte(sum: int) -> u8 {
    let q = if sum >= 0 {
        sum / 4
    } else {
        -((-sum) / 4)
    };
    let v = q + 128;
    if v < 0 {
        0
    } else if v > 255 {
        255
    } else {
        v as u8
    }
}

/// The U byte of chroma block `(bx, by)`: the 2x2 block's averaged
/// blue-difference.
#[verifier::opaque]
pub open spec fn block_u(
    src: Seq<u8>,
    src_w: u32,
    src_h: u32,
    stride: usize,
    w: nat,
    h: nat,
    bx: nat,
    by: nat,
) -> u8 {
    chroma_byte(
        blue_diff(rgb_in(src, src_w, src_h, stride, w, h, 2 * bx, 2 * by)) + blue_diff(
            rgb_in(src, src_w, src_h, stride, w, h, 2 * bx + 1, 2 * by),
        ) + blue_diff(rgb_in(src, src_w, src_h, stride, w, h, 2 * bx, 2 * by + 1)) + blue_diff(
            rgb_in(src, src_w, src_h, stride, w, h, 2 * bx + 1, 2 * by + 1),
        ),
    )
}

/// The V byte of chroma block `(bx, by)`: the 2x2 block's averaged
/// red-difference.
#[verifier::opaque]
pub open spec fn block_v(
    src: Seq<u8>,
    src_w: u32,
    src_h: u32,
    stride: usize,
    w: nat,
    h: nat,
    bx: nat,
    by: nat,
) -> u8 {
    chroma_byte(
        red_diff(rgb_in(src, src_w, src_h, stride, w, h, 2 * bx, 2 * by)) + red_diff(
            rgb_in(src, src_w, src_h, stride, w, h, 2 * bx + 1, 2 * by),
        ) + red_diff(rgb_in(src, src_w, src_h, stride, w, h, 2 * bx, 2 * by + 1)) + red_diff(
            rgb_in(src, src_w, src_h, stride, w, h, 2 * bx + 1, 2 * by + 1),
        ),
    )
}

/// Offset of the U byte of chroma block `(bx, by)` in a `w` x `h` NV12
/// frame (V follows it).
pub open spec fn uv_offset(w: nat, h: nat, bx: nat, by: nat) -> int {
    (w * h + by * w + 2 * bx) as int
}

/// Reads the RGB of target pixel `(x, y)`, or black past the source's end.
fn read_rgb(
    src: &[u8],
    src_w: u32,
    src_h: u32,
    stride: usize,
    w: usize,
    h: usize,
    x: usize,
    y: usize,
) -> (p: (u32, u32, u32))
    requires
        src_w > 0,
        src_h > 0,
        x < w,
        y < h,
        w as int * src_w as int <= usize::MAX,
        h as int * src_h as int <= usize::MAX,
        src_h as int * stride as int + src_w as int * 4 <= usize::MAX,
    ensures
        (p.0 as int, p.1 as int, p.2 as int) == rgb_in(
            src@,
            src_w,
            src_h,
            stride,
            w as nat,
            h as nat,
            x as nat,
            y as nat,
        ),
        p.0 <= 255 && p.1 <= 255 && p.2 <= 255,
{
    assert(y as int * src_h as int <= h as int * src_h as int) by (nonlinear_arith)
        requires
            y < h,
    ;
    assert(x as int * src_w as int <= w as int * src_w as int) by (nonlinear_arith)
        requires
            x < w,
    ;
    let sy: usize = y * (src_h as usize) / h;
    let sx: usize = x * (src_w as usize) / w;
    proof {
        lemma_nearest_below(y as nat, src_h as nat, h as nat);
        lemma_nearest_below(x as nat, src_w as nat, w as nat);
    }
    assert(sy as int * stride as int <= src_h as int * stride as int) by (nonlinear_arith)
        requires
            sy < src_h,
    ;
    let si: usize = sy * stride + sx * 4;
    if si + 2 < src.len() {
        (src[si] as u32, src[si + 1] as u32, src[si + 2] as u32)
    } else {
        (0, 0, 0)
    }
}

fn luma_byte(p: (u32, u32, u32)) -> (v: u8)
    requires
        p.0 <= 255 && p.1 <= 255 && p.2 <= 255,
    ensures
        v as int == luma((p.0 as int, p.1 as int, p.2 as int)),
{
    let t: u32 = 77 * p.0 + 150 * p.1 + 29 * p.2;
    assert(t / 256 <= 255);
    (t / 256) as u8
}

/// `blue_diff` of a pixel, computed without signed division: shifting the
/// numerator by 128 * 256 keeps it positive.
fn blue_diff_of(p: (u32, u32, u32)) -> (v: i32)
    requires
        p.0 <= 255 && p.1 <= 255 && p.2 <= 255,
    ensures
        v as int == blue_diff((p.0 as int, p.1 as int, p.2 as int)),
        -128 <= v <= 127,
{
    let t: u32 = 32768 + 127 * p.2 - 43 * p.0 - 84 * p.1;
    let q: u32 = t / 256;
    proof {
        let n: int = -43 * p.0 - 84 * p.1 + 127 * p.2;
        assert((n + 128 * 256) / 256 == n / 256 + 128) by (nonlinear_arith);
    }
    q as i32 - 128
}

/// `red_diff` of a pixel, computed like `blue_diff_of`.
fn red_diff_of(p: (u32, u32, u32)) -> (v: i32)
    requires
        p.0 <= 255 && p.1 <= 255 && p.2 <= 255,
    ensures
        v as int == red_diff((p.0 as int, p.1 as int, p.2 as int)),
        -128 <= v <= 127,
{
    let t: u32 = 32768 + 127 * p.0 - 106 * p.1 - 21 * p.2;
    let q: u32 = t / 256;
    proof {
        let n: int = 127 * p.0 - 106 * p.1 - 21 * p.2;
        assert((n + 128 * 256) / 256 == n / 256 + 128) by (nonlinear_arith);
    }
    q as i32 - 128
}

fn chroma_of(sum: i32) -> (v: u8)
    requires
        -1024 <= sum <= 1024,
    ensures
        v == chroma_byte(sum as int),
{
    let q: i32 = if sum >= 0 {
        (sum as u32 / 4) as i32
    } else {
        -(((-sum) as u32 / 4) as i32)
    };
    let v: i32 = q + 128;
    if v < 0 {
        0
    } else if v > 255 {
        255
    } else {
        v as u8
    }
}

/// The U and V bytes of chroma block `(bx, by)`.
fn block_chroma(
    src: &[u8],
    src_w: u32,
    src_h: u32,
    stride: usize,
    w: usize,
    h: usize,
    bx: usize,
    by: usize,
) -> (uv: (u8, u8))
    requires
        src_w > 0,
        src_h > 0,
        bx < w / 2,
        by < h / 2,
        w as int * src_w as int <= usize::MAX,
        h as int * src_h as int <= usize::MAX,
        src_h as int * stride as int + src_w as int * 4 <= usize::MAX,
    ensures
        uv.0 == block_u(src@, src_w, src_h, stride, w as nat, h as nat, bx as nat, by as nat),
        uv.1 == block_v(src@, src_w, src_h, stride, w as nat, h as nat, bx as nat, by as nat),
{
    let x0: usize = 2 * bx;
    let y0: usize = 2 * by;
    let p00 = read_rgb(src, src_w, src_h, stride, w, h, x0, y0);
    let p10 = read_rgb(src, src_w, src_h, stride, w, h, x0 + 1, y0);
    let p01 = read_rgb(src, src_w, src_h, stride, w, h, x0, y0 + 1);
    let p11 = read_rgb(src, src_w, src_h, stride, w, h, x0 + 1, y0 + 1);
    let su: i32 = blue_diff_of(p00) + blue_diff_of(p10) + blue_diff_of(p01) + blue_diff_of(p11);
    let sv: i32 = red_diff_of(p00) + red_diff_of(p10) + red_diff_of(p01) + red_diff_of(p11);
    proof {
        reveal(block_u);
        reveal(block_v);
    }
    (chroma_of(su), chroma_of(sv))
}

/// Both chroma bytes of block `(bx, by)` hold their values.
#[verifier::opaque]
spec fn chroma_ok(
    out: Seq<u8>,
    src: Seq<u8>,
    src_w: u32,
    src_h: u32,
    stride: usize,
    w: nat,
    h: nat,
    bx: nat,
    by: nat,
) -> bool {
    &&& out[uv_offset(w, h, bx, by)] == block_u(src, src_w, src_h, stride, w, h, bx, by)
    &&& out[uv_offset(w, h, bx, by) + 1] == block_v(src, src_w, src_h, stride, w, h, bx, by)
}

/// Writes the chroma bytes of block row `by`, leaving every other byte.
fn fill_chroma_row(
    out: &mut Vec<u8>,
    src: &[u8],
    src_w: u32,
    src_h: u32,
    stride: usize,
    w: usize,
    h: usize,
    by: usize,
    row_base: usize,
)
    requires
        src_w > 0,
        src_h > 0,
        w % 2 == 0,
        by < h / 2,
        row_base == w * h + by * w,
        row_base + w <= old(out)@.len(),
        w as int * src_w as int <= usize::MAX,
        h as int * src_h as int <= usize::MAX,
        stride as int * src_h as int + src_w as int * 4 <= usize::MAX,
    ensures
        final(out)@.len() == old(out)@.len(),
        forall|k: int|
            0 <= k < old(out)@.len() && (k < row_base || k >= row_base + w) ==> final(out)@[k]
                == old(out)@[k],
        forall|cx: nat|
            cx < w / 2 ==> #[trigger] chroma_ok(
                final(out)@,
                src@,
                src_w,
                src_h,
                stride,
                w as nat,
                h as nat,
                cx,
                by as nat,
            ),
{
    let hw: usize = w / 2;
    let len = out.len();
    let mut bx: usize = 0;
    while bx < hw
        invariant
            len == old(out)@.len(),
            hw == w / 2,
            w % 2 == 0,
            bx <= hw,
            src_w > 0,
            src_h > 0,
            by < h / 2,
            row_base == w * h + by * w,
            row_base + w <= old(out)@.len(),
            out@.len() == old(out)@.len(),
            w as int * src_w as int <= usize::MAX,
            h as int * src_h as int <= usize::MAX,
            stride as int * src_h as int + src_w as int * 4 <= usize::MAX,
            forall|k: int|
                0 <= k < old(out)@.len() && (k < row_base || k >= row_base + 2 * bx) ==> out@[k]
                    == old(out)@[k],
            forall|cx: nat|
                cx < bx ==> #[trigger] chroma_ok(
                    out@,
                    src@,
                    src_w,
                    src_h,
                    stride,
                    w as nat,
                    h as nat,
                    cx,
                    by as nat,
                ),
        decreases hw - bx,
    {
        let (u, v) = block_chroma(src, src_w, src_h, stride, w, h, bx, by);
        let di: usize = row_base + 2 * bx;
        assert(di as int == uv_offset(w as nat, h as nat, bx as nat, by as nat));
        let ghost prev = out@;
        out.set(di, u);
        out.set(di + 1, v);
        assert forall|cx: nat| cx < bx + 1 implies #[trigger] chroma_ok(
            out@,
            src@,
            src_w,
            src_h,
            stride,
            w as nat,
            h as nat,
            cx,
            by as nat,
        ) by {
            reveal(chroma_ok);
            if cx < bx {
                assert(chroma_ok(prev, src@, src_w, src_h, stride, w as nat, h as nat, cx, by as nat));
                assert(uv_offset(w as nat, h as nat, cx, by as nat) + 1 < di);
            }
        }
        bx = bx + 1;
    }
}

/// A `w` x `h` NV12 frame converted from `src`: the right size; all zero
/// for an empty source; otherwise a luma byte per pixel followed by an
/// interleaved U, V pair per 2x2 block.
pub open spec fn nv12_planes(
    out: Seq<u8>,
    src: Seq<u8>,
    src_w: u32,
    src_h: u32,
    stride: usize,
    w: nat,
    h: nat,
) -> bool {
    &&& out.len() == nv12_size(w, h)
    &&& (src_w == 0 || src_h == 0) ==> forall|k: int| 0 <= k < out.len() ==> out[k] == 0
    &&& (src_w > 0 && src_h > 0) ==> forall|x: nat, y: nat|
        x < w && y < h ==> #[trigger] out[pixel_offset(w, 1, x, y, 0)] as int == luma(
            rgb_in(src, src_w, src_h, stride, w, h, x, y),
        )
    &&& (src_w > 0 && src_h > 0) ==> forall|bx: nat, by: nat|
        bx < w / 2 && by < h / 2 ==> {
            &&& #[trigger] out[uv_offset(w, h, bx, by)] == block_u(
                src,
                src_w,
                src_h,
                stride,
                w,
                h,
                bx,
                by,
            )
            &&& out[uv_offset(w, h, bx, by) + 1] == block_v(src, src_w, src_h, stride, w, h, bx, by)
        }
}

/// The source holds the colour `(r, g, b)` at byte offset `si` (its R, G
/// and B bytes, all inside the buffer).
pub open spec fn source_pixel_is(src: Seq<u8>, si: int, r: u8, g: u8, b: u8) -> bool {
    &&& 0 <= si && si + 2 < src.len()
    &&& src[si] == r && src[si + 1] == g && src[si + 2] == b
}

/// Byte offset of the source pixel that target pixel `(x, y)` of a `w` x
/// `h` frame samples: row `y * src_h / h`, column `x * src_w / w`, both
/// rounded down.
pub open spec fn sampled_offset(src_w: u32, src_h: u32, stride: usize, w: nat, h: nat, x: nat, y: nat) -> int {
    (((y * src_h as nat) / h) * stride as nat + ((x * src_w as nat) / w) * 4) as int
}

proof fn lemma_uniform_chroma(d: int)
    requires
        -127 <= d <= 126,
    ensures
        chroma_byte(d + d + d + d) as int == d + 128,
{
}

/// The chroma of an NV12 block comes from its own 2x2 target pixels: when
/// the four pixels `(2bx, 2by)`, `(2bx + 1, 2by)`, `(2bx, 2by + 1)` and
/// `(2bx + 1, 2by + 1)` all sample one colour `(r, g, b)`, the block's U
/// and V are that colour's BT.601 chroma, `((-43R - 84G + 127B) >> 8) + 128`
/// and `((127R - 106G - 21B) >> 8) + 128`, whatever the other rows hold.
pub proof fn law_chroma_from_own_block(
    out: Seq<u8>,
    src: Seq<u8>,
    src_w: u32,
    src_h: u32,
    stride: usize,
    w: nat,
    h: nat,
    bx: nat,
    by: nat,
    r: u8,
    g: u8,
    b: u8,
)
    requires
        nv12_planes(out, src, src_w, src_h, stride, w, h),
        src_w > 0,
        src_h > 0,
        bx < w / 2,
        by < h / 2,
        forall|i: nat, j: nat|
            i < 2 && j < 2 ==> #[trigger] source_pixel_is(
                src,
                sampled_offset(src_w, src_h, stride, w, h, 2 * bx + i, 2 * by + j),
                r,
                g,
                b,
            ),
    ensures
        out[(w * h + by * w + 2 * bx) as int] as int == (-43 * r - 84 * g + 127 * b) / 256 + 128,
        out[(w * h + by * w + 2 * bx + 1) as int] as int == (127 * r - 106 * g - 21 * b) / 256 + 128,
{
    let c = (r as int, g as int, b as int);
    assert(rgb_in(src, src_w, src_h, stride, w, h, 2 * bx, 2 * by) == c) by {
        assert(source_pixel_is(
            src,
            sampled_offset(src_w, src_h, stride, w, h, 2 * bx + 0, 2 * by + 0),
            r,
            g,
            b,
        ));
    }
    assert(rgb_in(src, src_w, src_h, stride, w, h, 2 * bx + 1, 2 * by) == c) by {
        assert(source_pixel_is(
            src,
            sampled_offset(src_w, src_h, stride, w, h, 2 * bx + 1, 2 * by + 0),
            r,
            g,
            b,
        ));
    }
    assert(rgb_in(src, src_w, src_h, stride, w, h, 2 * bx, 2 * by + 1) == c) by {
        assert(source_pixel_is(
            src,
            sampled_offset(src_w, src_h, stride, w, h, 2 * bx + 0, 2 * by + 1),
            r,
            g,
            b,
        ));
    }
    assert(rgb_in(src, src_w, src_h, stride, w, h, 2 * bx + 1, 2 * by + 1) == c) by {
        assert(source_pixel_is(
            src,
            sampled_offset(src_w, src_h, stride, w, h, 2 * bx + 1, 2 * by + 1),
            r,
            g,
            b,
        ));
    }
    reveal(block_u);
    reveal(block_v);
    assert(out[uv_offset(w, h, bx, by)] == block_u(src, src_w, src_h, stride, w, h, bx, by));
    lemma_uniform_chroma(blue_diff(c));
    lemma_uniform_chroma(red_diff(c));
}

/// Each luma byte of an NV12 frame is the BT.601 luma of the source pixel
/// its target pixel samples: `(77R + 150G + 29B) >> 8`.
pub proof fn law_luma_of_sampled_pixel(
    out: Seq<u8>,
    src: Seq<u8>,
    src_w: u32,
    src_h: u32,
    stride: usize,
    w: nat,
    h: nat,
    x: nat,
    y: nat,
    r: u8,
    g: u8,
    b: u8,
)
    requires
        nv12_planes(out, src, src_w, src_h, stride, w, h),
        src_w > 0,
        src_h > 0,
        x < w,
        y < h,
        source_pixel_is(src, sampled_offset(src_w, src_h, stride, w, h, x, y), r, g, b),
    ensures
        out[(y * w + x) as int] as int == (77 * r + 150 * g + 29 * b) / 256,
{
    assert(out[pixel_offset(w, 1, x, y, 0)] as int == luma(
        rgb_in(src, src_w, src_h, stride, w, h, x, y),
    ));
}

/// Nearest-neighbour downscale from a padded RGBA source straight into NV12
/// (the H.264 input path): resize, alpha strip and BT.601 RGB to YCbCr in
/// one pass. Full-range BT.601: `Y = (77R + 150G + 29B) >> 8`,
/// `U = ((-43R - 84G + 127B) >> 8) + 128`, `V = ((127R - 106G - 21B) >> 8) + 128`,
/// chroma 2x2-box-averaged. Odd targets are clamped down to even, minimum
/// 2x2. An empty source gives an all-zero frame; a short source reads black.
#[verifier::rlimit(80)]
pub fn downscale_rgba_to_nv12(
    src: &[u8],
    src_w: u32,
    src_h: u32,
    src_stride: usize,
    dst_w: u32,
    dst_h: u32,
) -> (out: Vec<u8>)
    requires
        even_dim(dst_w) * even_dim(dst_h) * 3 <= usize::MAX,
        even_dim(dst_w) * src_w <= usize::MAX,
        even_dim(dst_h) * src_h <= usize::MAX,
        src_h as int * src_stride as int + src_w as int * 4 <= usize::MAX,
    ensures
        nv12_planes(out@, src@, src_w, src_h, src_stride, even_dim(dst_w), even_dim(dst_h)),
{
    let w32 = even_dimension(dst_w);
    let h32 = even_dimension(dst_h);
    let w: usize = w32 as usize;
    let h: usize = h32 as usize;
    let ghost gw = w as nat;
    let ghost gh = h as nat;
    assert(w * h * 3 / 2 == w * h + (w / 2) * h) by (nonlinear_arith)
        requires
            w % 2 == 0,
    {
        assert(w == 2 * (w / 2));
    }
    let n: usize = w * h * 3 / 2;
    let mut out: Vec<u8> = vec![0u8; n];
    if src_w == 0 || src_h == 0 {
        assert(nv12_planes(out@, src@, src_w, src_h, src_stride, gw, gh));
        return out;
    }
    let wh: usize = w * h;
    // Luma: one Y per pixel.
    let mut y: usize = 0;
    while y < h
        invariant
            gw == w,
            gh == h,
            w == even_dim(dst_w),
            h == even_dim(dst_h),
            w >= 2 && h >= 2 && w % 2 == 0 && h % 2 == 0,
            wh == w * h,
            n == w * h + (w / 2) * h,
            out@.len() == n,
            src_w > 0 && src_h > 0,
            y <= h,
            w as int * src_w as int <= usize::MAX,
            h as int * src_h as int <= usize::MAX,
            src_h as int * src_stride as int + src_w as int * 4 <= usize::MAX,
            forall|k: int| y * w <= k < n ==> out@[k] == 0,
            forall|xx: nat, yy: nat|
                xx < w && yy < y ==> #[trigger] out@[pixel_offset(gw, 1, xx, yy, 0)] as int
                    == luma(rgb_in(src@, src_w, src_h, src_stride, gw, gh, xx, yy)),
        decreases h - y,
    {
        assert(y * w + w <= w * h) by (nonlinear_arith)
            requires
                y < h,
        {
            assert((y + 1) * w <= h * w);
        }
        let dst_row: usize = y * w;
        let mut x: usize = 0;
        while x < w
            invariant
                gw == w,
                gh == h,
                w == even_dim(dst_w),
                h == even_dim(dst_h),
                w >= 2 && h >= 2 && w % 2 == 0 && h % 2 == 0,
                wh == w * h,
                n == w * h + (w / 2) * h,
                out@.len() == n,
                src_w > 0 && src_h > 0,
                y < h,
                x <= w,
                dst_row == y * w,
                dst_row + w <= w * h,
                w as int * src_w as int <= usize::MAX,
                h as int * src_h as int <= usize::MAX,
                src_h as int * src_stride as int + src_w as int * 4 <= usize::MAX,
                forall|k: int| y * w + x <= k < n ==> out@[k] == 0,
                forall|xx: nat, yy: nat|
                    xx < w && (yy < y || (yy == y && xx < x)) ==> #[trigger] out@[pixel_offset(
                        gw,
                        1,
                        xx,
                        yy,
                        0,
                    )] as int == luma(rgb_in(src@, src_w, src_h, src_stride, gw, gh, xx, yy)),
            decreases w - x,
        {
            let p = read_rgb(src, src_w, src_h, src_stride, w, h, x, y);
            let l = luma_byte(p);
            let di: usize = dst_row + x;
            assert(di as int == pixel_offset(gw, 1, x as nat, y as nat, 0)) by (nonlinear_arith)
                requires
                    di == dst_row + x,
                    dst_row == y * w,
                    gw == w,
            ;
            out.set(di, l);
            assert forall|xx: nat, yy: nat|
                xx < w && (yy < y || (yy == y && xx < x + 1)) implies #[trigger] out@[pixel_offset(
                gw,
                1,
                xx,
                yy,
                0,
            )] as int == luma(rgb_in(src@, src_w, src_h, src_stride, gw, gh, xx, yy)) by {
                if !(yy == y && xx == x) {
                    lemma_pixel_before(gw, 1, xx, yy, 0, x as nat, y as nat);
                    assert((y * gw + x) * 1 == di) by (nonlinear_arith)
                        requires
                            di as int == pixel_offset(gw, 1, x as nat, y as nat, 0),
                    ;
                }
            }
            x = x + 1;
        }
        assert(y * w + w == (y + 1) * w) by (nonlinear_arith);
        y = y + 1;
    }
    assert(h * w == wh) by (nonlinear_arith)
        requires
            wh == w * h,
    ;
    let ghost luma_plane = out@.subrange(0, wh as int);
    assert forall|xx: nat, yy: nat| xx < w && yy < h implies #[trigger] luma_plane[pixel_offset(
        gw,
        1,
        xx,
        yy,
        0,
    )] as int == luma(rgb_in(src@, src_w, src_h, src_stride, gw, gh, xx, yy)) by {
        lemma_pixel_in_image(gw, gh, 1, xx, yy, 0);
    }
    // Chroma: one interleaved U,V pair per 2x2 block, averaged.
    let hw: usize = w / 2;
    let hh: usize = h / 2;
    let mut by: usize = 0;
    while by < hh
        invariant
            gw == w,
            gh == h,
            w == even_dim(dst_w),
            h == even_dim(dst_h),
            w >= 2 && h >= 2 && w % 2 == 0 && h % 2 == 0,
            hw == w / 2,
            hh == h / 2,
            wh == w * h,
            n == w * h + (w / 2) * h,
            out@.len() == n,
            src_w > 0 && src_h > 0,
            by <= hh,
            w as int * src_w as int <= usize::MAX,
            h as int * src_h as int <= usize::MAX,
            src_h as int * src_stride as int + src_w as int * 4 <= usize::MAX,
            forall|k: int| wh + by * w <= k < n ==> out@[k] == 0,
            out@.subrange(0, wh as int) == luma_plane,
            forall|cx: nat, b: nat|
                cx < hw && b < by ==> chroma_ok(out@, src@, src_w, src_h, src_stride, gw, gh, cx, b),
        decreases hh - by,
    {
        assert(by * w + w <= hh * w) by (nonlinear_arith)
            requires
                by < hh,
        {
            assert((by + 1) * w <= hh * w);
        }
        assert(hh * w == (w / 2) * h) by (nonlinear_arith)
            requires
                hh == h / 2,
                h % 2 == 0,
                w % 2 == 0,
        {
            assert(h == 2 * hh);
            assert(w == 2 * (w / 2));
        }
        let row_base: usize = wh + by * w;
        let ghost before = out@;
        fill_chroma_row(&mut out, src, src_w, src_h, src_stride, w, h, by, row_base);
        assert(out@.subrange(0, wh as int) =~= luma_plane) by {
            assert forall|k: int| 0 <= k < wh implies out@[k] == before[k] by {}
        }
        assert forall|cx: nat, b: nat| cx < hw && b < by + 1 implies chroma_ok(
            out@,
            src@,
            src_w,
            src_h,
            src_stride,
            gw,
            gh,
            cx,
            b,
        ) by {
            if b < by {
                assert(uv_offset(gw, gh, cx, b) + 1 < row_base) by (nonlinear_arith)
                    requires
                        cx < hw,
                        hw == gw / 2,
                        gw % 2 == 0,
                        b < by,
                        row_base == gw * gh + by * gw,
                {
                    assert(b * gw + gw <= by * gw);
                }
                assert(chroma_ok(before, src@, src_w, src_h, src_stride, gw, gh, cx, b));
                reveal(chroma_ok);
                assert(out@[uv_offset(gw, gh, cx, b)] == before[uv_offset(gw, gh, cx, b)]);
                assert(out@[uv_offset(gw, gh, cx, b) + 1] == before[uv_offset(gw, gh, cx, b) + 1]);
            }
        }
        assert(wh + by * w + w == wh + (by + 1) * w) by (nonlinear_arith);
        by = by + 1;
    }
    assert forall|cx: nat, b: nat| cx < gw / 2 && b < gh / 2 implies {
        &&& #[trigger] out@[uv_offset(gw, gh, cx, b)] == block_u(
            src@,
            src_w,
            src_h,
            src_stride,
            gw,
            gh,
            cx,
            b,
        )
        &&& out@[uv_offset(gw, gh, cx, b) + 1] == block_v(
            src@,
            src_w,
            src_h,
            src_stride,
            gw,
            gh,
            cx,
            b,
        )
    } by {
        assert(chroma_ok(out@, src@, src_w, src_h, src_stride, gw, gh, cx, b));
        reveal(chroma_ok);
    }
    assert forall|xx: nat, yy: nat| xx < w && yy < h implies #[trigger] out@[pixel_offset(
        gw,
        1,
        xx,
        yy,
        0,
    )] as int == luma(rgb_in(src@, src_w, src_h, src_stride, gw, gh, xx, yy)) by {
        lemma_pixel_in_image(gw, gh, 1, xx, yy, 0);
        assert(out@[pixel_offset(gw, 1, xx, yy, 0)] == luma_plane[pixel_offset(gw, 1, xx, yy, 0)]);
    }
    assert(n == nv12_size(gw, gh));
    assert(nv12_planes(out@, src@, src_w, src_h, src_stride, gw, gh));
    out
}

/// The quality handed to the encoder: clamped to 1..=100.
pub open spec fn clamp_quality(q: u8) -> u8 {
    if q < 1 {
        1
    } else if q > 100 {
        100
    } else {
        q
    }
}

/// Encode tight RGB to baseline JPEG. Quality is clamped to 1-100.
///
/// # Errors
/// A buffer whose size is not `w * h * 3`, a zero or over-`u16` dimension, or
/// an encoder failure.
pub fn encode_jpeg(rgb: &[u8], w: u32, h: u32, quality: u8) -> (res: Result<Vec<u8>, String>)
    requires
        w as int * h as int * 3 <= usize::MAX,
    ensures
        rgb@.len() != w as int * h as int * 3 ==> (res matches Err(e) && e@ == "rgb buffer "@
            + decimal(rgb@.len()) + " bytes, expected "@ + decimal(w as nat * h as nat * 3)),
        rgb@.len() == w as int * h as int * 3 && (w == 0 || h == 0 || w > 65535 || h > 65535)
            ==> (res matches Err(e) && e@ == "unsupported dimensions "@ + decimal(w as nat) + "x"@
            + decimal(h as nat)),
        rgb@.len() == w as int * h as int * 3 && 0 < w <= 65535 && 0 < h <= 65535 ==> (jpeg_encoding(
            rgb@,
            w as u16,
            h as u16,
            clamp_quality(quality),
        ) matches Some(b) && res matches Ok(v) && v@ == b),
        res matches Ok(v) ==> has_jpeg_markers(v@),
{
    let expect: usize = (w as usize) * (h as usize) * 3;
    if rgb.len() != expect {
        let mut m = String::from_str("rgb buffer ");
        push_decimal(&mut m, rgb.len() as u64);
        m.append(" bytes, expected ");
        push_decimal(&mut m, expect as u64);
        return Err(m);
    }
    if w == 0 || h == 0 || w > 65535 || h > 65535 {
        let mut m = String::from_str("unsupported dimensions ");
        push_decimal(&mut m, w as u64);
        m.append("x");
        push_decimal(&mut m, h as u64);
        return Err(m);
    }
    let q: u8 = if quality < 1 {
        1
    } else if quality > 100 {
        100
    } else {
        quality
    };
    match encode_rgb(rgb, w as u16, h as u16, q) {
        Ok(v) => Ok(v),
        Err(e) => {
            let mut m = String::from_str("jpeg encode failed: ");
            let detail = encoding_error_text(&e);
            m.append(detail.as_str());
            proof {
                lemma_prefix_of_concat("jpeg encode failed: "@, detail@);
            }
            Err(m)
        },
    }
}

} // verus!
