use vstd::prelude::*;

verus! {

/// The image of a `width` × `height` buffer whose pixel (x, y), stored at
/// linear index `y * width + x`, has the color `color(x, y)`.
pub open spec fn raster(width: int, height: int, color: spec_fn(int, int) -> u32) -> Seq<u32> {
    Seq::new((width * height) as nat, |i: int| color(i % width, i / width))
}

/// The pixel `(x, y)` of a `width` × `height` buffer sits at linear index
/// `y * width + x`, inside the buffer, and is read back from that index.
pub proof fn lemma_raster_cell(width: int, height: int, x: int, y: int)
    requires
        0 <= x < width,
        0 <= y < height,
    ensures
        0 <= y * width <= y * width + x < width * height,
        (y * width + x) % width == x,
        (y * width + x) / width == y,
        x + y < width * height,
        (y + 1) * width == y * width + width,
{
    assert(0 <= y * width) by (nonlinear_arith)
        requires
            0 <= y,
            0 <= width,
    ;
    assert(y * width + x < width * height) by (nonlinear_arith)
        requires
            0 <= x < width,
            0 <= y < height,
    ;
    assert(x + y < width * height) by (nonlinear_arith)
        requires
            0 <= x < width,
            0 <= y < height,
    ;
    assert((y + 1) * width == y * width + width) by (nonlinear_arith);
    vstd::arithmetic::div_mod::lemma_fundamental_div_mod_converse(y * width + x, width, y, x);
}

/// The color of pixel `(x, y)` in diagonal stripes: bands of `tile_size`
/// along `x + y`, background on even bands and foreground on odd ones.
pub open spec fn stripe_color(x: int, y: int, tile_size: int, foreground: u32, background: u32) -> u32 {
    if ((x + y) / tile_size) % 2 == 0 {
        background
    } else {
        foreground
    }
}

/// The image drawn by `striped_pattern`.
pub open spec fn striped_image(
    width: int,
    height: int,
    foreground: u32,
    background: u32,
    tile_size: int,
) -> Seq<u32> {
    raster(width, height, |x: int, y: int| stripe_color(x, y, tile_size, foreground, background))
}

/// The color of pixel `(x, y)` on a checkerboard of `tile_size` squares:
/// background where the tile column and tile row add up to an even number.
pub open spec fn checker_color(x: int, y: int, tile_size: int, foreground: u32, background: u32) -> u32 {
    if (x / tile_size + y / tile_size) % 2 == 0 {
        background
    } else {
        foreground
    }
}

/// The image drawn by `checker_pattern`.
pub open spec fn checker_image(
    width: int,
    height: int,
    foreground: u32,
    background: u32,
    tile_size: int,
) -> Seq<u32> {
    raster(width, height, |x: int, y: int| checker_color(x, y, tile_size, foreground, background))
}

/// Sets every pixel of the buffer to `foreground`.
pub fn fill_rectangle(pixels: &mut [u32], foreground: u32)
    ensures
        final(pixels)@.len() == old(pixels)@.len(),
        forall|i: int| 0 <= i < final(pixels)@.len() ==> final(pixels)@[i] == foreground,
{
    let n = pixels.len();
    let mut i: usize = 0;
    while i < n
        invariant
            n == pixels@.len(),
            n == old(pixels)@.len(),
            i <= n,
            forall|k: int| 0 <= k < i ==> pixels@[k] == foreground,
        decreases n - i,
    {
        pixels[i] = foreground;
        i += 1;
    }
}

/// Fills the buffer with diagonal stripes `tile_size` pixels thick.
pub fn striped_pattern(
    pixels: &mut [u32],
    height: usize,
    width: usize,
    foreground: u32,
    background: u32,
    tile_size: usize,
)
    requires
        old(pixels)@.len() == width * height,
        tile_size > 0,
    ensures
        final(pixels)@ == striped_image(
            width as int,
            height as int,
            foreground,
            background,
            tile_size as int,
        ),
{
    let ghost image = striped_image(
        width as int,
        height as int,
        foreground,
        background,
        tile_size as int,
    );
    let n = pixels.len();
    let mut y: usize = 0;
    while y < height
        invariant
            pixels@.len() == width * height,
            n == width * height,
            tile_size > 0,
            y <= height,
            image == striped_image(
                width as int,
                height as int,
                foreground,
                background,
                tile_size as int,
            ),
            forall|i: int| 0 <= i < y * width ==> #[trigger] pixels@[i] == image[i],
        decreases height - y,
    {
        let mut x: usize = 0;
        while x < width
            invariant
                pixels@.len() == width * height,
                n == width * height,
                tile_size > 0,
                x <= width,
                y < height,
                image == striped_image(
                    width as int,
                    height as int,
                    foreground,
                    background,
                    tile_size as int,
                ),
                forall|i: int| 0 <= i < y * width + x ==> #[trigger] pixels@[i] == image[i],
            decreases width - x,
        {
            proof {
                lemma_raster_cell(width as int, height as int, x as int, y as int);
            }
            pixels[y * width + x] = if ((x + y) / tile_size) % 2 == 0 {
                background
            } else {
                foreground
            };
            x += 1;
        }
        proof {
            if width > 0 {
                lemma_raster_cell(width as int, height as int, 0, y as int);
            }
        }
        y += 1;
    }
    proof {
        if width == 0 {
            assert(width * height == 0);
        } else {
            assert(y * width == width * height) by (nonlinear_arith)
                requires
                    y == height,
            ;
        }
    }
    assert(pixels@ =~= image);
}

/// Fills the buffer with a checkerboard of `tile_size` × `tile_size` tiles.
pub fn checker_pattern(
    pixels: &mut [u32],
    height: usize,
    width: usize,
    foreground: u32,
    background: u32,
    tile_size: usize,
)
    requires
        old(pixels)@.len() == width * height,
        tile_size > 0,
    ensures
        final(pixels)@ == checker_image(
            width as int,
            height as int,
            foreground,
            background,
            tile_size as int,
        ),
{
    let ghost image = checker_image(
        width as int,
        height as int,
        foreground,
        background,
        tile_size as int,
    );
    let n = pixels.len();
    let mut y: usize = 0;
    while y < height
        invariant
            pixels@.len() == width * height,
            n == width * height,
            tile_size > 0,
            y <= height,
            image == checker_image(
                width as int,
                height as int,
                foreground,
                background,
                tile_size as int,
            ),
            forall|i: int| 0 <= i < y * width ==> #[trigger] pixels@[i] == image[i],
        decreases height - y,
    {
        let mut x: usize = 0;
        while x < width
            invariant
                pixels@.len() == width * height,
                n == width * height,
                tile_size > 0,
                x <= width,
                y < height,
                image == checker_image(
                    width as int,
                    height as int,
                    foreground,
                    background,
                    tile_size as int,
                ),
                forall|i: int| 0 <= i < y * width + x ==> #[trigger] pixels@[i] == image[i],
            decreases width - x,
        {
            proof {
                lemma_raster_cell(width as int, height as int, x as int, y as int);
            }
            pixels[y * width + x] = if (x / tile_size + y / tile_size) % 2 == 0 {
                background
            } else {
                foreground
            };
            x += 1;
        }
        proof {
            if width > 0 {
                lemma_raster_cell(width as int, height as int, 0, y as int);
            }
        }
        y += 1;
    }
    proof {
        if width == 0 {
            assert(width * height == 0);
        } else {
            assert(y * width == width * height) by (nonlinear_arith)
                requires
                    y == height,
            ;
        }
    }
    assert(pixels@ =~= image);
}

/// In diagonal stripes a pixel's color depends only on the parity of its
/// band `(x + y) / tile_size`: two pixels whose bands have the same parity
/// have the same color.
pub proof fn lemma_stripes_follow_band_parity(
    width: usize,
    height: usize,
    foreground: u32,
    background: u32,
    tile_size: usize,
    x1: int,
    y1: int,
    x2: int,
    y2: int,
)
    requires
        tile_size > 0,
        0 <= x1 < width,
        0 <= y1 < height,
        0 <= x2 < width,
        0 <= y2 < height,
        ((x1 + y1) / tile_size as int) % 2 == ((x2 + y2) / tile_size as int) % 2,
    ensures
        ({
            let image = striped_image(
                width as int,
                height as int,
                foreground,
                background,
                tile_size as int,
            );
            image[y1 * width + x1] == image[y2 * width + x2]
        }),
{
    lemma_raster_cell(width as int, height as int, x1, y1);
    lemma_raster_cell(width as int, height as int, x2, y2);
}

/// On a checkerboard a pixel's color depends only on the parity of
/// `x / tile_size + y / tile_size`: two pixels where it has the same parity
/// have the same color.
pub proof fn lemma_checker_follows_tile_parity(
    width: usize,
    height: usize,
    foreground: u32,
    background: u32,
    tile_size: usize,
    x1: int,
    y1: int,
    x2: int,
    y2: int,
)
    requires
        tile_size > 0,
        0 <= x1 < width,
        0 <= y1 < height,
        0 <= x2 < width,
        0 <= y2 < height,
        (x1 / tile_size as int + y1 / tile_size as int) % 2 == (x2 / tile_size as int + y2
            / tile_size as int) % 2,
    ensures
        ({
            let image = checker_image(
                width as int,
                height as int,
                foreground,
                background,
                tile_size as int,
            );
            image[y1 * width + x1] == image[y2 * width + x2]
        }),
{
    lemma_raster_cell(width as int, height as int, x1, y1);
    lemma_raster_cell(width as int, height as int, x2, y2);
}

} // verus!
