use raster::pattern::{checker_pattern, fill_rectangle, striped_pattern};

const FG: u32 = 0xFF0000;
const BG: u32 = 0x000000;

#[test]
fn rectangle_fill_covers_every_pixel() {
    let mut pixels = vec![7u32; 3 * 2];
    fill_rectangle(&mut pixels, FG);
    assert_eq!(pixels, vec![FG; 6]);
}

#[test]
fn rectangle_fill_on_empty_buffer() {
    let mut pixels: Vec<u32> = Vec::new();
    fill_rectangle(&mut pixels, FG);
    assert!(pixels.is_empty());
}

#[test]
fn stripes_small_buffer() {
    let mut pixels = vec![9u32; 4 * 2];
    striped_pattern(&mut pixels, 2, 4, 1, 0, 2);
    assert_eq!(pixels, vec![0, 0, 1, 1, 0, 1, 1, 0]);
}

#[test]
fn stripes_follow_band_parity() {
    let (w, h, tile) = (13usize, 9usize, 3usize);
    let mut pixels = vec![5u32; w * h];
    striped_pattern(&mut pixels, h, w, FG, BG, tile);
    for y in 0..h {
        for x in 0..w {
            let expected = if ((x + y) / tile) % 2 == 0 { BG } else { FG };
            assert_eq!(pixels[y * w + x], expected);
        }
    }
    // (0, 0) and (6, 0) share an even band; (3, 0) and (1, 2) an odd one
    assert_eq!(pixels[0], pixels[6]);
    assert_eq!(pixels[3], pixels[2 * w + 1]);
    assert_ne!(pixels[0], pixels[3]);
}

#[test]
fn checker_small_buffer() {
    let mut pixels = vec![9u32; 4 * 4];
    checker_pattern(&mut pixels, 4, 4, 1, 0, 2);
    assert_eq!(
        pixels,
        vec![0, 0, 1, 1, 0, 0, 1, 1, 1, 1, 0, 0, 1, 1, 0, 0]
    );
}

#[test]
fn checker_follows_tile_parity() {
    let (w, h, tile) = (10usize, 7usize, 4usize);
    let mut pixels = vec![5u32; w * h];
    checker_pattern(&mut pixels, h, w, FG, BG, tile);
    for y in 0..h {
        for x in 0..w {
            let expected = if (x / tile + y / tile) % 2 == 0 { BG } else { FG };
            assert_eq!(pixels[y * w + x], expected);
        }
    }
    // tiles (0, 0) and (1, 1) match; tile (1, 0) differs
    assert_eq!(pixels[0], pixels[5 * w + 5]);
    assert_ne!(pixels[0], pixels[4]);
}

#[test]
fn tile_larger_than_buffer_gives_all_background() {
    let mut pixels = vec![FG; 16 * 16];
    striped_pattern(&mut pixels, 16, 16, FG, BG, 32);
    assert!(pixels.iter().all(|&p| p == BG));
    let mut pixels = vec![FG; 16 * 16];
    checker_pattern(&mut pixels, 16, 16, FG, BG, 32);
    assert!(pixels.iter().all(|&p| p == BG));
}

#[test]
fn tile_of_one_alternates_every_pixel() {
    let mut pixels = vec![0u32; 3 * 3];
    checker_pattern(&mut pixels, 3, 3, 1, 0, 1);
    assert_eq!(pixels, vec![0, 1, 0, 1, 0, 1, 0, 1, 0]);
    let mut pixels = vec![0u32; 3 * 3];
    striped_pattern(&mut pixels, 3, 3, 1, 0, 1);
    assert_eq!(pixels, vec![0, 1, 0, 1, 0, 1, 0, 1, 0]);
}
