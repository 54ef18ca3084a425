use raster::circle::{draw_halo_circle, fill_solid_circle};

const FG: u32 = 0xFF0000;
const BG: u32 = 0x000000;

fn lit(pixels: &[u32]) -> Vec<usize> {
    (0..pixels.len()).filter(|&i| pixels[i] == FG).collect()
}

#[test]
fn solid_circle_radius_one_in_four_by_four() {
    let mut pixels = vec![7u32; 16];
    fill_solid_circle(&mut pixels, 1, 4, 4, 1, 0);
    assert_eq!(
        pixels,
        vec![0, 0, 0, 0, 0, 1, 1, 0, 0, 1, 1, 0, 0, 0, 0, 0]
    );
}

#[test]
fn solid_circle_radius_two_in_four_by_four() {
    let mut pixels = vec![7u32; 16];
    fill_solid_circle(&mut pixels, 2, 4, 4, 1, 0);
    assert_eq!(
        pixels,
        vec![0, 1, 1, 0, 1, 1, 1, 1, 1, 1, 1, 1, 0, 1, 1, 0]
    );
}

#[test]
fn solid_circle_centre_lit_and_corners_dark() {
    let (w, h) = (5usize, 7usize);
    let mut pixels = vec![7u32; w * h];
    fill_solid_circle(&mut pixels, 2, h, w, FG, BG);
    assert_eq!(pixels[(h / 2) * w + w / 2], FG);
    assert_eq!(pixels[0], BG);
    assert_eq!(pixels[w - 1], BG);
    assert_eq!(pixels[(h - 1) * w], BG);
    assert_eq!(pixels[(h - 1) * w + w - 1], BG);
}

#[test]
fn solid_circle_radius_zero_odd_buffer() {
    let mut pixels = vec![7u32; 9];
    fill_solid_circle(&mut pixels, 0, 3, 3, FG, BG);
    assert_eq!(lit(&pixels), vec![4]);
}

#[test]
fn solid_circle_radius_zero_even_buffer() {
    let mut pixels = vec![7u32; 16];
    fill_solid_circle(&mut pixels, 0, 4, 4, FG, BG);
    assert!(lit(&pixels).is_empty());
    assert!(pixels.iter().all(|&p| p == BG));
}

#[test]
fn solid_circle_huge_radius_fills_everything() {
    let mut pixels = vec![7u32; 6];
    fill_solid_circle(&mut pixels, usize::MAX, 2, 3, FG, BG);
    assert_eq!(pixels, vec![FG; 6]);
}

#[test]
fn halo_circle_radius_three_in_eight_by_eight() {
    let mut pixels = vec![7u32; 64];
    draw_halo_circle(&mut pixels, 3, 8, 8, FG, BG);
    let expected = vec![19, 20, 21, 26, 30, 34, 38, 42, 46, 51, 52, 53];
    assert_eq!(lit(&pixels), expected);
    // two stepped points, at most eight pixels each
    assert!(lit(&pixels).len() <= 8 * 2);
    assert!(pixels.iter().all(|&p| p == FG || p == BG));
}

#[test]
fn halo_circle_radius_zero_clears() {
    let mut pixels = vec![FG; 36];
    draw_halo_circle(&mut pixels, 0, 6, 6, FG, BG);
    assert!(pixels.iter().all(|&p| p == BG));
}

#[test]
fn halo_circle_outside_buffer_is_skipped() {
    let mut pixels = vec![FG; 16];
    draw_halo_circle(&mut pixels, 3, 4, 4, FG, BG);
    assert!(pixels.iter().all(|&p| p == BG));
}

#[test]
fn halo_circle_pixels_near_radius() {
    for (n, r, count) in [(64usize, 20usize, 108usize), (9, 4, 16), (33, 15, 80)] {
        let mut pixels = vec![0u32; n * n];
        draw_halo_circle(&mut pixels, r, n, n, FG, BG);
        let on = lit(&pixels);
        assert_eq!(on.len(), count);
        for i in on {
            let (x, y) = ((i % n) as i64, (i / n) as i64);
            // doubled offsets from the centre of the buffer to the pixel's centre
            let (dx, dy) = (2 * x + 1 - n as i64, 2 * y + 1 - n as i64);
            let d2 = dx * dx + dy * dy;
            let (lo, hi) = (2 * (r as i64 - 3), 2 * (r as i64 + 1));
            assert!(lo * lo <= d2 && d2 < hi * hi);
        }
    }
}
