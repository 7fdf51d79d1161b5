use extendo_core::frame::{
    downscale_rgba_to_nv12, downscale_to_rgb, encode_jpeg, fit_within, nv12_frame_size,
};

#[test]
fn fit_within_caps_1080p_to_720p() {
    assert_eq!(fit_within(1920, 1080, 1280, 720), (1280, 720));
}

#[test]
fn fit_within_preserves_aspect_when_height_bound() {
    assert_eq!(fit_within(1920, 1200, 1280, 720), (1152, 720));
}

#[test]
fn fit_within_never_upscales() {
    assert_eq!(fit_within(800, 600, 1280, 720), (800, 600));
}

#[test]
fn fit_within_survives_zero_and_tiny_inputs() {
    assert_eq!(fit_within(0, 0, 1280, 720), (1, 1));
    assert_eq!(fit_within(1920, 1080, 0, 0), (1, 1));
    let (w, h) = fit_within(10_000, 2, 100, 100);
    assert!(w >= 1 && h >= 1, "got {w}x{h}");
}

#[test]
fn downscale_strips_alpha_and_honours_stride() {
    let src_w = 2;
    let src_h = 1;
    let stride = src_w * 4 + 4;
    let mut src = vec![0u8; stride * src_h];
    src[0..4].copy_from_slice(&[10, 20, 30, 255]);
    src[4..8].copy_from_slice(&[40, 50, 60, 255]);
    let out = downscale_to_rgb(&src, 2, 1, stride, 2, 1, false);
    assert_eq!(out, vec![10, 20, 30, 40, 50, 60]);
}

#[test]
fn downscale_swaps_red_and_blue_when_asked() {
    let mut src = vec![0u8; 8];
    src[0..4].copy_from_slice(&[10, 20, 30, 255]);
    src[4..8].copy_from_slice(&[40, 50, 60, 255]);
    let out = downscale_to_rgb(&src, 2, 1, 8, 2, 1, true);
    assert_eq!(out, vec![30, 20, 10, 60, 50, 40]);
}

#[test]
fn downscale_halves_dimensions_by_nearest_neighbour() {
    let (w, h) = (4usize, 4usize);
    let stride = w * 4;
    let mut src = vec![0u8; stride * h];
    for y in 0..h {
        for x in 0..w {
            let i = y * stride + x * 4;
            src[i] = (x * 10) as u8;
            src[i + 1] = (y * 10) as u8;
            src[i + 2] = 7;
            src[i + 3] = 255;
        }
    }
    let out = downscale_to_rgb(&src, 4, 4, stride, 2, 2, false);
    assert_eq!(out.len(), 2 * 2 * 3);
    assert_eq!(&out[0..3], &[0, 0, 7]);
    assert_eq!(&out[3..6], &[20, 0, 7]);
    assert_eq!(&out[6..9], &[0, 20, 7]);
}

#[test]
fn downscale_truncated_source_yields_black_not_panic() {
    let src = vec![0u8; 4];
    let out = downscale_to_rgb(&src, 64, 64, 64 * 4, 8, 8, false);
    assert_eq!(out.len(), 8 * 8 * 3);
}

#[test]
fn encode_jpeg_emits_valid_soi_eoi_markers() {
    let rgb = vec![128u8; 16 * 16 * 3];
    let jpg = encode_jpeg(&rgb, 16, 16, 70).expect("encode");
    assert!(jpg.len() > 4, "jpeg too small: {}", jpg.len());
    assert_eq!(&jpg[0..2], &[0xFF, 0xD8], "missing SOI");
    assert_eq!(&jpg[jpg.len() - 2..], &[0xFF, 0xD9], "missing EOI");
}

#[test]
fn encode_jpeg_rejects_mismatched_buffer() {
    let rgb = vec![0u8; 10];
    assert!(encode_jpeg(&rgb, 16, 16, 70).is_err());
}

#[test]
fn encode_jpeg_quality_affects_size() {
    let (w, h) = (64u32, 64u32);
    let mut rgb = vec![0u8; (w * h * 3) as usize];
    for (i, px) in rgb.chunks_exact_mut(3).enumerate() {
        px[0] = (i % 251) as u8;
        px[1] = (i % 97) as u8;
        px[2] = (i % 37) as u8;
    }
    let low = encode_jpeg(&rgb, w, h, 20).expect("low");
    let high = encode_jpeg(&rgb, w, h, 95).expect("high");
    assert!(high.len() > low.len(), "q95 {} !> q20 {}", high.len(), low.len());
}

fn rgba_frame(w: usize, h: usize, px: [u8; 4]) -> Vec<u8> {
    let mut src = vec![0u8; w * h * 4];
    for chunk in src.chunks_exact_mut(4) {
        chunk.copy_from_slice(&px);
    }
    src
}

#[test]
fn nv12_size_is_y_plus_half_uv() {
    assert_eq!(nv12_frame_size(1280, 720), 1280 * 720 * 3 / 2);
    assert_eq!(nv12_frame_size(1920, 1080), 1920 * 1080 * 3 / 2);
}

#[test]
fn nv12_primary_colors_match_bt601() {
    for (px, y, u, v) in [
        ([0u8, 0, 0, 255], 0u8, 128u8, 128u8),
        ([255, 255, 255, 255], 255, 128, 128),
        ([255, 0, 0, 255], 76, 85, 254),
        ([0, 255, 0, 255], 149, 44, 22),
        ([0, 0, 255, 255], 28, 254, 107),
    ] {
        let nv12 = downscale_rgba_to_nv12(&rgba_frame(2, 2, px), 2, 2, 2 * 4, 2, 2);
        assert_eq!(nv12.len(), 6, "2x2 NV12 is 4 Y + 2 UV");
        assert!(nv12[0..4].iter().all(|&p| p == y), "{px:?}: Y={:?}, want {y}", &nv12[0..4]);
        assert_eq!((nv12[4], nv12[5]), (u, v), "{px:?}: UV mismatch");
    }
}

#[test]
fn nv12_honours_stride_and_downscales() {
    let (w, h) = (4usize, 4usize);
    let stride = w * 4 + 16;
    let mut src = vec![0u8; stride * h];
    for y in 0..h {
        for x in 0..w {
            let i = y * stride + x * 4;
            src[i..i + 4].copy_from_slice(&[255, 0, 0, 255]);
        }
    }
    let nv12 = downscale_rgba_to_nv12(&src, 4, 4, stride, 2, 2);
    assert_eq!(nv12.len(), 6);
    assert!(nv12[0..4].iter().all(|&p| p == 76));
    assert_eq!((nv12[4], nv12[5]), (85, 254));
}

#[test]
fn nv12_clamps_odd_dimensions_to_even() {
    let nv12 = downscale_rgba_to_nv12(&rgba_frame(8, 8, [9, 9, 9, 255]), 8, 8, 8 * 4, 5, 7);
    assert_eq!(nv12.len(), nv12_frame_size(4, 6));
}

#[test]
fn nv12_truncated_source_yields_black_not_panic() {
    let nv12 = downscale_rgba_to_nv12(&[1, 2, 3], 64, 64, 64 * 4, 8, 8);
    assert_eq!(nv12.len(), nv12_frame_size(8, 8));
}

#[test]
fn fit_within_width_bound_exact_values() {
    // 4:3 under a 16:9 cap is bound by height: 720 * 4/3 = 960.
    assert_eq!(fit_within(1600, 1200, 1280, 720), (960, 720));
    // Very wide source: width bound, height rounds down.
    assert_eq!(fit_within(3000, 1000, 1280, 720), (1280, 426));
    // Extreme ratio keeps the minimum of 1.
    assert_eq!(fit_within(10_000, 2, 100, 100), (100, 1));
}

#[test]
fn downscale_zero_sizes() {
    assert_eq!(downscale_to_rgb(&[1, 2, 3, 4], 0, 1, 4, 2, 2, false), vec![0u8; 12]);
    assert!(downscale_to_rgb(&[1, 2, 3, 4], 1, 1, 4, 0, 5, false).is_empty());
}

#[test]
fn nv12_of_empty_source_is_all_zero() {
    let nv12 = downscale_rgba_to_nv12(&[], 0, 0, 0, 4, 4);
    assert_eq!(nv12, vec![0u8; 24]);
}

#[test]
fn nv12_minimum_is_two_by_two() {
    let nv12 = downscale_rgba_to_nv12(&rgba_frame(4, 4, [255, 255, 255, 255]), 4, 4, 16, 1, 0);
    assert_eq!(nv12.len(), 6);
    assert_eq!(nv12, vec![255, 255, 255, 255, 128, 128]);
}

#[test]
fn nv12_chroma_rounds_toward_zero() {
    // Red: U term per pixel is (-43*255)>>8 = -43, so U = -43 + 128 = 85.
    // A 2x2 block mixing one red and three black pixels sums to -43;
    // -43 / 4 rounds toward zero to -10, giving U = 118.
    let mut src = vec![0u8; 2 * 2 * 4];
    src[0..4].copy_from_slice(&[255, 0, 0, 255]);
    let nv12 = downscale_rgba_to_nv12(&src, 2, 2, 8, 2, 2);
    assert_eq!(nv12[0], 76);
    assert_eq!(nv12[4], 118);
    // V term of red is (127*255)>>8 = 126; 126/4 = 31; V = 159.
    assert_eq!(nv12[5], 159);
}

#[test]
fn encode_jpeg_error_messages() {
    assert_eq!(
        encode_jpeg(&[0u8; 10], 16, 16, 70).unwrap_err(),
        "rgb buffer 10 bytes, expected 768"
    );
    assert_eq!(encode_jpeg(&[], 0, 16, 70).unwrap_err(), "unsupported dimensions 0x16");
    assert_eq!(
        encode_jpeg(&vec![0u8; 70000 * 3], 70000, 1, 70).unwrap_err(),
        "unsupported dimensions 70000x1"
    );
}

#[test]
fn encode_jpeg_clamps_quality() {
    let rgb = vec![50u8; 8 * 8 * 3];
    let zero = encode_jpeg(&rgb, 8, 8, 0).expect("q0");
    let one = encode_jpeg(&rgb, 8, 8, 1).expect("q1");
    assert_eq!(zero, one);
    let over = encode_jpeg(&rgb, 8, 8, 200).expect("q200");
    let hundred = encode_jpeg(&rgb, 8, 8, 100).expect("q100");
    assert_eq!(over, hundred);
}
