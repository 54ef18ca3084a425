use vstd::prelude::*;

use crate::pattern::{fill_rectangle, lemma_raster_cell, raster};

verus! {

/// Whether the centre of pixel `(x, y)` lies within `radius` of the centre of
/// a `width` × `height` buffer. Lengths are doubled so that every centre has
/// integer coordinates: the buffer's centre is `(width, height)` and the
/// pixel's is `(2x + 1, 2y + 1)`.
pub open spec fn in_disk(width: int, height: int, radius: int, x: int, y: int) -> bool {
    let dx = width - (2 * x + 1);
    let dy = height - (2 * y + 1);
    dx * dx + dy * dy <= (2 * radius) * (2 * radius)
}

/// The image drawn by `fill_solid_circle`.
pub open spec fn disk_image(
    width: int,
    height: int,
    radius: int,
    foreground: u32,
    background: u32,
) -> Seq<u32> {
    raster(
        width,
        height,
        |x: int, y: int|
            if in_disk(width, height, radius, x, y) {
                foreground
            } else {
                background
            },
    )
}

/// Two offsets inside a buffer whose pixel count fits in 64 bits have a sum
/// of squares that fits in a `u128`.
proof fn lemma_offsets_fit(a: int, b: int, width: int, height: int)
    requires
        0 <= a < width,
        0 <= b < height,
        width * height <= 0xffff_ffff_ffff_ffff,
    ensures
        a * a + b * b <= 0xffff_ffff_ffff_ffff * 0xffff_ffff_ffff_ffff,
{
    assert((a + 1) * (b + 1) <= width * height) by (nonlinear_arith)
        requires
            0 <= a < width,
            0 <= b < height,
    ;
    assert(a + b < (a + 1) * (b + 1)) by (nonlinear_arith)
        requires
            0 <= a,
            0 <= b,
    ;
    assert(a * a + b * b <= (a + b) * (a + b)) by (nonlinear_arith)
        requires
            0 <= a,
            0 <= b,
    ;
    assert((a + b) * (a + b) <= 0xffff_ffff_ffff_ffff * 0xffff_ffff_ffff_ffff) by (nonlinear_arith)
        requires
            0 <= a + b <= 0xffff_ffff_ffff_ffff,
    ;
}

/// The distance along one axis, in doubled units, between the centre of a
/// buffer of the given extent and the centre of pixel `p`.
fn doubled_offset(extent: usize, p: usize) -> (d: u128)
    requires
        p < extent,
    ensures
        d == if 2 * p + 1 <= extent { extent - (2 * p + 1) } else { 2 * p + 1 - extent },
        d < extent,
{
    let centre = (p as u128) * 2 + 1;
    if centre <= extent as u128 {
        extent as u128 - centre
    } else {
        centre - extent as u128
    }
}

/// Fills a disk of the given radius around the centre of the buffer with
/// `foreground` and the rest with `background`: a pixel is in the disk when
/// its centre lies within `radius` of the buffer's centre.
pub fn fill_solid_circle(
    pixels: &mut [u32],
    radius: usize,
    height: usize,
    width: usize,
    foreground: u32,
    background: u32,
)
    requires
        old(pixels)@.len() == width * height,
    ensures
        final(pixels)@ == disk_image(
            width as int,
            height as int,
            radius as int,
            foreground,
            background,
        ),
{
    let ghost image = disk_image(width as int, height as int, radius as int, foreground, background);
    let n = pixels.len();
    let diameter: u128 = (radius as u128) * 2;
    let huge = diameter > 0xffff_ffff_ffff_ffff;
    let reach: u128 = if huge {
        0
    } else {
        proof {
            lemma_square_fits(diameter, diameter);
        }
        diameter * diameter
    };
    let mut y: usize = 0;
    while y < height
        invariant
            pixels@.len() == width * height,
            n == width * height,
            y <= height,
            diameter == 2 * radius,
            huge == (diameter > 0xffff_ffff_ffff_ffff),
            !huge ==> reach == diameter * diameter,
            image == disk_image(width as int, height as int, radius as int, foreground, background),
            forall|i: int| 0 <= i < y * width ==> #[trigger] pixels@[i] == image[i],
        decreases height - y,
    {
        let dy = doubled_offset(height, y);
        let mut x: usize = 0;
        while x < width
            invariant
                pixels@.len() == width * height,
                n == width * height,
                x <= width,
                y < height,
                diameter == 2 * radius,
                huge == (diameter > 0xffff_ffff_ffff_ffff),
                !huge ==> reach == diameter * diameter,
                dy == if 2 * y + 1 <= height { height - (2 * y + 1) } else { 2 * y + 1 - height },
                dy < height,
                image == disk_image(
                    width as int,
                    height as int,
                    radius as int,
                    foreground,
                    background,
                ),
                forall|i: int| 0 <= i < y * width + x ==> #[trigger] pixels@[i] == image[i],
            decreases width - x,
        {
            proof {
                lemma_raster_cell(width as int, height as int, x as int, y as int);
            }
            let dx = doubled_offset(width, x);
            proof {
                lemma_offsets_fit(dx as int, dy as int, width as int, height as int);
                let (ex, ey) = (width - (2 * x + 1), height - (2 * y + 1));
                assert(ex * ex == dx * dx && ey * ey == dy * dy) by (nonlinear_arith)
                    requires
                        ex == dx || ex == -dx,
                        ey == dy || ey == -dy,
                ;
                if huge {
                    assert(dx * dx + dy * dy <= diameter * diameter) by (nonlinear_arith)
                        requires
                            dx * dx + dy * dy <= 0xffff_ffff_ffff_ffff * 0xffff_ffff_ffff_ffff,
                            diameter > 0xffff_ffff_ffff_ffff,
                    ;
                }
            }
            let inside = huge || dx * dx + dy * dy <= reach;
            pixels[y * width + x] = if inside {
                foreground
            } else {
                background
            };
            x += 1;
        }
        proof {
            if width > 0 {
                lemma_raster_cell(width as int, height as int, 0, y as int);
            }
        }
        y += 1;
    }
    proof {
        if width == 0 {
            assert(width * height == 0);
        } else {
            assert(y * width == width * height) by (nonlinear_arith)
                requires
                    y == height,
            ;
        }
    }
    assert(pixels@ =~= image);
}

/// A disk of radius at least one covers the pixel at the centre of the
/// buffer, `(width / 2, height / 2)`.
pub proof fn lemma_disk_covers_centre(
    width: usize,
    height: usize,
    radius: usize,
    foreground: u32,
    background: u32,
)
    requires
        width >= 1,
        height >= 1,
        radius >= 1,
    ensures
        disk_image(width as int, height as int, radius as int, foreground, background)[(height
            / 2) * width + width / 2] == foreground,
{
    let (w, h, r) = (width as int, height as int, radius as int);
    lemma_raster_cell(w, h, w / 2, h / 2);
    let (dx, dy) = (w - (2 * (w / 2) + 1), h - (2 * (h / 2) + 1));
    assert(-1 <= dx <= 0 && -1 <= dy <= 0);
    assert(dx * dx + dy * dy <= (2 * r) * (2 * r)) by (nonlinear_arith)
        requires
            -1 <= dx <= 0,
            -1 <= dy <= 0,
            r >= 1,
    ;
}

/// A disk whose radius is under half the smaller side of the buffer leaves
/// the four corner pixels in the background, unless the buffer is a single
/// pixel, which is its own centre.
pub proof fn lemma_disk_misses_corners(
    width: usize,
    height: usize,
    radius: usize,
    foreground: u32,
    background: u32,
)
    requires
        width >= 1,
        height >= 1,
        width * height > 1,
        2 * radius < width,
        2 * radius < height,
    ensures
        ({
            let image = disk_image(width as int, height as int, radius as int, foreground, background);
            &&& image[0] == background
            &&& image[width - 1] == background
            &&& image[(height - 1) * width] == background
            &&& image[(height - 1) * width + width - 1] == background
        }),
{
    let (w, h, r) = (width as int, height as int, radius as int);
    lemma_raster_cell(w, h, 0, 0);
    lemma_raster_cell(w, h, w - 1, 0);
    lemma_raster_cell(w, h, 0, h - 1);
    lemma_raster_cell(w, h, w - 1, h - 1);
    assert(w > 1 || h > 1) by (nonlinear_arith)
        requires
            w * h > 1,
            w >= 1,
            h >= 1,
    ;
    assert((2 * r) * (2 * r) < (w - 1) * (w - 1) + (h - 1) * (h - 1)) by (nonlinear_arith)
        requires
            0 <= 2 * r <= w - 1,
            0 <= 2 * r <= h - 1,
            w > 1 || h > 1,
    ;
    assert((1 - w) * (1 - w) == (w - 1) * (w - 1)) by (nonlinear_arith);
    assert((1 - h) * (1 - h) == (h - 1) * (h - 1)) by (nonlinear_arith);
}

/// A disk of radius zero covers only a pixel whose centre is the buffer's
/// centre, which exists exactly when both sides are odd.
pub proof fn lemma_disk_of_radius_zero(width: int, height: int, x: int, y: int)
    ensures
        in_disk(width, height, 0, x, y) <==> (2 * x + 1 == width && 2 * y + 1 == height),
{
    let (dx, dy) = (width - (2 * x + 1), height - (2 * y + 1));
    assert(dx * dx + dy * dy <= 0 <==> (dx == 0 && dy == 0)) by (nonlinear_arith);
    assert((2 * 0int) * (2 * 0int) == 0) by (nonlinear_arith);
    assert(in_disk(width, height, 0, x, y) == (dx * dx + dy * dy <= 0));
}

/// The vertical step of the outline walk. After the walk has moved to column
/// `x`, its row `t` drops by one when the point `(x, t - 1/2)` lies strictly
/// outside the circle, that is when `x² + (t - 1/2)² > radius²`, which over
/// integers reads `x² + t(t - 1) >= radius²`.
pub open spec fn halo_next_row(radius: int, x: int, t: int) -> int {
    if x * x + t * (t - 1) >= radius * radius {
        t - 1
    } else {
        t
    }
}

/// The points stepped through by the outline walk from `(x, t)` on, while
/// `x <= t - 1/2`. A point `(x, t)` stands for the offset `(x, t - 1/2)`
/// from the centre of the buffer, in the octant between the vertical axis
/// and the diagonal.
pub open spec fn halo_walk(radius: int, x: int, t: int) -> Seq<(int, int)>
    decreases t + 1 - x,
{
    if x < t {
        seq![(x, t)] + halo_walk(radius, x + 1, halo_next_row(radius, x + 1, t))
    } else {
        seq![]
    }
}

/// All points stepped through for a circle of the given radius: the walk
/// starts at offset `(0, radius - 1/2)`.
pub open spec fn halo_points(radius: int) -> Seq<(int, int)> {
    halo_walk(radius, 0, radius)
}

/// Whether the stepped point `p` lands inside a `width` × `height` buffer once
/// moved to its centre `(width/2, height/2)`.
pub open spec fn halo_lands(width: int, height: int, p: (int, int)) -> bool {
    2 * p.0 < width && 2 * p.1 <= height
}

/// A product of two numbers below 2^64 fits in a `u128`.
proof fn lemma_square_fits(a: u128, b: u128)
    requires
        a <= 0xffff_ffff_ffff_ffff,
        b <= a,
    ensures
        a * b <= a * a <= 0xffff_ffff_ffff_fffe_0000_0000_0000_0001,
{
    assert(a * b <= a * a) by (nonlinear_arith)
        requires
            b <= a,
    ;
    assert(a * a <= 0xffff_ffff_ffff_ffff * 0xffff_ffff_ffff_ffff) by (nonlinear_arith)
        requires
            a <= 0xffff_ffff_ffff_ffff,
    ;
}

/// A pixel `(col, row)` of a `width` × `height` buffer has its linear index
/// `row * width + col` inside the buffer.
proof fn lemma_index_in_buffer(col: int, row: int, width: int, height: int)
    requires
        0 <= col < width,
        0 <= row < height,
    ensures
        0 <= row * width <= row * width + col < width * height,
{
    assert(0 <= row * width) by (nonlinear_arith)
        requires
            0 <= row,
            0 <= width,
    ;
    assert(row * width + col < width * height) by (nonlinear_arith)
        requires
            0 <= col < width,
            0 <= row < height,
    ;
}

/// The eight linear indices plotted for the stepped point `p`: the pixel
/// `(dx, dy)` under the moved point and its reflections, or none when the
/// point does not land in the buffer. The reflections pair width-based and
/// height-based terms, so they are mirror images only in a square buffer.
pub open spec fn halo_pixels(width: int, height: int, p: (int, int)) -> Seq<int> {
    if halo_lands(width, height, p) {
        let dx = p.0 + width / 2;
        let dy = p.1 + (height - 1) / 2;
        seq![
            dy * width + dx,
            dx * height + dy,
            (height - dy) * width + dx,
            (height - dx) * height + dy,
            dy * width + (width - dx),
            dx * height + (width - dy),
            (height - dy) * width + (width - dx),
            (height - dx) * height + (width - dy),
        ]
    } else {
        seq![]
    }
}

/// The indices plotted for a sequence of stepped points, in order.
pub open spec fn halo_cells(width: int, height: int, points: Seq<(int, int)>) -> Seq<int>
    decreases points.len(),
{
    if points.len() == 0 {
        seq![]
    } else {
        halo_cells(width, height, points.drop_last()) + halo_pixels(width, height, points.last())
    }
}

/// The indices of the outline of a circle of the given radius.
pub open spec fn halo_outline(width: int, height: int, radius: int) -> Seq<int> {
    halo_cells(width, height, halo_points(radius))
}

/// The image drawn by `draw_halo_circle`: the outline in `foreground`,
/// every other pixel in `background`.
pub open spec fn halo_image(
    width: int,
    height: int,
    radius: int,
    foreground: u32,
    background: u32,
) -> Seq<u32> {
    Seq::new(
        (width * height) as nat,
        |i: int|
            if halo_outline(width, height, radius).contains(i) {
                foreground
            } else {
                background
            },
    )
}

/// Clears the buffer to `background`, then plots the outline of a circle of
/// the given radius around the centre of the square buffer in `foreground`.
/// Points of the outline that fall outside the buffer are skipped.
pub fn draw_halo_circle(
    pixels: &mut [u32],
    radius: usize,
    height: usize,
    width: usize,
    foreground: u32,
    background: u32,
)
    requires
        old(pixels)@.len() == width * height,
        width == height,
    ensures
        final(pixels)@ == halo_image(
            width as int,
            height as int,
            radius as int,
            foreground,
            background,
        ),
{
    fill_rectangle(pixels, background);
    let n = pixels.len();
    let ghost w = width as int;
    let ghost h = height as int;
    let ghost r = radius as int;
    let ghost mut done: Seq<(int, int)> = seq![];
    let ghost mut plotted: Seq<int> = seq![];
    proof {
        lemma_square_fits(radius as u128, radius as u128);
    }
    let rr: u128 = (radius as u128) * (radius as u128);
    let mut x: usize = 0;
    let mut t: usize = radius;
    while x < t
        invariant
            pixels@.len() == width * height,
            n == width * height,
            width == height,
            x <= t + 1,
            t <= radius,
            w == width,
            h == height,
            r == radius,
            rr == r * r,
            halo_points(r) == done + halo_walk(r, x as int, t as int),
            plotted == halo_cells(w, h, done),
            forall|i: int|
                0 <= i < pixels@.len() ==> #[trigger] pixels@[i] == if plotted.contains(i) {
                    foreground
                } else {
                    background
                },
        decreases t + 1 - x,
    {
        let ghost p = (x as int, t as int);
        let ghost cells = halo_pixels(w, h, p);
        if x < width - width / 2 && t <= height / 2 {
            let dx = x + width / 2;
            let dy = t + (height - 1) / 2;
            assert(w == 2 * (w / 2) + w % 2 && 0 <= w % 2 < 2);
            assert(h == 2 * (h / 2) + h % 2 && 0 <= h % 2 < 2);
            assert(halo_lands(w, h, p));
            assert(dx < width);
            assert(dy < height);
            assert(cells.len() == 8);
            proof {
                lemma_index_in_buffer(dx as int, dy as int, w, h);
                lemma_index_in_buffer(dy as int, dx as int, w, h);
                lemma_index_in_buffer(dx as int, h - dy, w, h);
                lemma_index_in_buffer(dy as int, h - dx, w, h);
                lemma_index_in_buffer(w - dx, dy as int, w, h);
                lemma_index_in_buffer(w - dy, dx as int, w, h);
                lemma_index_in_buffer(w - dx, h - dy, w, h);
                lemma_index_in_buffer(w - dy, h - dx, w, h);
            }
            let targets: [usize; 8] = [
                dy * width + dx,
                dx * height + dy,
                (height - dy) * width + dx,
                (height - dx) * height + dy,
                dy * width + (width - dx),
                dx * height + (width - dy),
                (height - dy) * width + (width - dx),
                (height - dx) * height + (width - dy),
            ];
            let mut k: usize = 0;
            while k < 8
                invariant
                    pixels@.len() == width * height,
                    n == width * height,
                    k <= 8,
                    cells.len() == 8,
                    targets@.len() == 8,
                    forall|m: int| 0 <= m < 8 ==> targets@[m] as int == cells[m],
                    forall|m: int| 0 <= m < 8 ==> targets@[m] < width * height,
                    forall|i: int|
                        0 <= i < pixels@.len() ==> #[trigger] pixels@[i] == if (plotted
                            + cells.take(k as int)).contains(i) {
                            foreground
                        } else {
                            background
                        },
                decreases 8 - k,
            {
                let ghost before = plotted + cells.take(k as int);
                pixels[targets[k]] = foreground;
                proof {
                    assert(plotted + cells.take(k + 1) =~= before.push(cells[k as int]));
                    assert forall|i: int| #[trigger]
                        before.push(cells[k as int]).contains(i) <==> before.contains(i) || i
                            == cells[k as int] by {
                        if before.contains(i) {
                            let j = choose|j: int| 0 <= j < before.len() && before[j] == i;
                            assert(before.push(cells[k as int])[j] == i);
                        }
                        if i == cells[k as int] {
                            assert(before.push(cells[k as int])[before.len() as int] == i);
                        }
                        if before.push(cells[k as int]).contains(i) && i != cells[k as int] {
                            let j = choose|j: int|
                                0 <= j < before.len() + 1 && before.push(cells[k as int])[j] == i;
                            assert(before[j] == i);
                        }
                    }
                }
                k += 1;
            }
            assert(cells.take(8) =~= cells);
        } else {
            assert(plotted + cells =~= plotted);
        }
        proof {
            assert(done.push(p).drop_last() =~= done);
            assert(halo_points(r) == done.push(p) + halo_walk(
                r,
                x + 1,
                halo_next_row(r, x + 1, t as int),
            )) by {
                assert(done + halo_walk(r, x as int, t as int) =~= done.push(p) + halo_walk(
                    r,
                    x + 1,
                    halo_next_row(r, x + 1, t as int),
                ));
            }
            done = done.push(p);
            plotted = plotted + cells;
            lemma_square_fits((x + 1) as u128, (x + 1) as u128);
            lemma_square_fits(t as u128, (t - 1) as u128);
            assert(t * t <= r * r) by (nonlinear_arith)
                requires
                    0 <= t <= r,
            ;
        }
        x += 1;
        let xx: u128 = (x as u128) * (x as u128);
        let tt: u128 = (t as u128) * ((t - 1) as u128);
        if xx >= rr - tt {
            t -= 1;
        }
    }
    assert(done == halo_points(r));
    assert(pixels@ =~= halo_image(w, h, r, foreground, background));
}

/// Where the outline walk stands at `(x, t)`: the row above the point lies
/// outside the circle, and while the walk goes on the point itself lies
/// inside it.
pub open spec fn halo_walk_state(radius: int, x: int, t: int) -> bool {
    &&& radius * radius <= x * x + t * (t + 1)
    &&& x < t ==> x * x + t * (t - 1) < radius * radius
}

proof fn lemma_halo_walk_band(radius: int, x: int, t: int)
    requires
        0 <= x,
        t <= radius,
        halo_walk_state(radius, x, t),
    ensures
        forall|j: int|
            0 <= j < halo_walk(radius, x, t).len() ==> {
                let p = #[trigger] halo_walk(radius, x, t)[j];
                &&& 0 <= p.0 < p.1 <= radius
                &&& p.0 * p.0 + p.1 * (p.1 - 1) < radius * radius
                &&& radius * radius <= p.0 * p.0 + p.1 * (p.1 + 1)
            },
    decreases t + 1 - x,
{
    if x < t {
        let u = halo_next_row(radius, x + 1, t);
        assert(halo_walk_state(radius, x + 1, u)) by {
            assert(x * x <= (x + 1) * (x + 1)) by (nonlinear_arith)
                requires
                    0 <= x,
            ;
            assert((x + 1) * (x + 1) == x * x + 2 * x + 1) by (nonlinear_arith);
            assert((t - 1) * (t - 2) == t * (t - 1) - 2 * (t - 1)) by (nonlinear_arith);
            assert((t - 1) * t == t * (t - 1)) by (nonlinear_arith);
        }
        lemma_halo_walk_band(radius, x + 1, u);
        let rest = halo_walk(radius, x + 1, u);
        assert forall|j: int| 0 <= j < halo_walk(radius, x, t).len() implies {
            let p = #[trigger] halo_walk(radius, x, t)[j];
            &&& 0 <= p.0 < p.1 <= radius
            &&& p.0 * p.0 + p.1 * (p.1 - 1) < radius * radius
            &&& radius * radius <= p.0 * p.0 + p.1 * (p.1 + 1)
        } by {
            if j > 0 {
                assert(halo_walk(radius, x, t)[j] == rest[j - 1]);
            }
        }
    }
}

/// Every point stepped through by the outline walk lies on the circle to
/// within one row: `(x, t - 1/2)` lies inside the circle of the given radius
/// and `(x, t + 1/2)` outside it, and the walk stays between the vertical
/// axis and the diagonal (`0 <= x < t <= radius`).
pub proof fn lemma_halo_points_hug_circle(radius: usize)
    ensures
        forall|j: int|
            0 <= j < halo_points(radius as int).len() ==> {
                let p = #[trigger] halo_points(radius as int)[j];
                &&& 0 <= p.0 < p.1 <= radius
                &&& p.0 * p.0 + p.1 * (p.1 - 1) < radius * radius
                &&& radius * radius <= p.0 * p.0 + p.1 * (p.1 + 1)
            },
{
    let r = radius as int;
    assert(r * r <= r * (r + 1) && (0 < r ==> r * (r - 1) < r * r)) by (nonlinear_arith)
        requires
            0 <= r,
    ;
    lemma_halo_walk_band(r, 0, r);
}

proof fn lemma_halo_cells_len(width: int, height: int, points: Seq<(int, int)>)
    ensures
        halo_cells(width, height, points).len() <= 8 * points.len(),
    decreases points.len(),
{
    if points.len() > 0 {
        lemma_halo_cells_len(width, height, points.drop_last());
    }
}

/// The outline marks at most eight pixels for each stepped point: when the
/// two colors differ, the foreground pixels of the drawn image number at most
/// eight times the points of the walk.
pub proof fn lemma_halo_foreground_count(
    width: usize,
    height: usize,
    radius: usize,
    foreground: u32,
    background: u32,
)
    requires
        foreground != background,
    ensures
        ({
            let image = halo_image(width as int, height as int, radius as int, foreground, background);
            let lit = Set::new(|i: int| 0 <= i < image.len() && image[i] == foreground);
            &&& lit.finite()
            &&& lit.len() <= 8 * halo_points(radius as int).len()
        }),
{
    let (w, h, r) = (width as int, height as int, radius as int);
    let image = halo_image(w, h, r, foreground, background);
    let lit = Set::new(|i: int| 0 <= i < image.len() && image[i] == foreground);
    let outline = halo_outline(w, h, r);
    lemma_halo_cells_len(w, h, halo_points(r));
    outline.lemma_cardinality_of_set();
    assert(lit.subset_of(outline.to_set()));
    vstd::set_lib::lemma_len_subset(lit, outline.to_set());
}

/// An index plotted for a sequence of points is plotted for one of them.
proof fn lemma_halo_cells_source(width: int, height: int, points: Seq<(int, int)>, i: int)
    requires
        halo_cells(width, height, points).contains(i),
    ensures
        exists|j: int|
            0 <= j < points.len() && (#[trigger] halo_pixels(width, height, points[j])).contains(i),
    decreases points.len(),
{
    let front = points.drop_last();
    let last = halo_pixels(width, height, points.last());
    let k = choose|k: int|
        0 <= k < halo_cells(width, height, points).len() && halo_cells(width, height, points)[k]
            == i;
    if k < halo_cells(width, height, front).len() {
        assert(halo_cells(width, height, front)[k] == i);
        lemma_halo_cells_source(width, height, front, i);
        let j = choose|j: int|
            0 <= j < front.len() && (#[trigger] halo_pixels(width, height, front[j])).contains(i);
        assert(points[j] == front[j]);
    } else {
        let m = k - halo_cells(width, height, front).len();
        assert(last[m] == i);
        assert(halo_pixels(width, height, points[points.len() - 1]).contains(i));
    }
}

/// A pixel built from a stepped point `(x, t)` by taking one coordinate from
/// `{dx, size - dx}` and the other from `{dy, size - dy}` has its centre less
/// than `radius + 1` from the centre of the buffer (in doubled units).
proof fn lemma_reflection_near_circle(size: int, radius: int, x: int, t: int, col: int, row: int)
    requires
        0 <= x < t <= radius,
        x * x + t * (t - 1) < radius * radius,
        2 * x < size,
        2 * t <= size,
        ({
            let dx = x + size / 2;
            let dy = t + (size - 1) / 2;
            ||| (col == dx || col == size - dx) && (row == dy || row == size - dy)
            ||| (col == dy || col == size - dy) && (row == dx || row == size - dx)
        }),
    ensures
        (2 * col + 1 - size) * (2 * col + 1 - size) + (2 * row + 1 - size) * (2 * row + 1 - size)
            < (2 * radius + 2) * (2 * radius + 2),
{
    let dx = x + size / 2;
    let dy = t + (size - 1) / 2;
    let a = 2 * dx + 1 - size;
    let b = 2 * dy + 1 - size;
    assert(size == 2 * (size / 2) + size % 2 && 0 <= size % 2 < 2);
    assert(size - 1 == 2 * ((size - 1) / 2) + (size - 1) % 2 && 0 <= (size - 1) % 2 < 2);
    assert(0 <= a <= 2 * x + 1);
    assert(1 <= b <= 2 * t);
    // the doubled offsets of dx and size - dx are a and 2 - a; likewise for dy
    let (u, v) = if (col == dx || col == size - dx) {
        (2 * col + 1 - size, 2 * row + 1 - size)
    } else {
        (2 * row + 1 - size, 2 * col + 1 - size)
    };
    assert(u == a || u == 2 - a);
    assert(v == b || v == 2 - b);
    let m = 2 * x + 1;
    if a >= 2 || u == a {
        assert(-a <= u <= a);
        assert(u * u <= m * m + 3) by (nonlinear_arith)
            requires
                -a <= u <= a,
                0 <= a <= m,
        ;
    } else {
        assert(1 <= u <= 2);
        assert(u * u <= m * m + 3) by (nonlinear_arith)
            requires
                1 <= u <= 2,
                1 <= m,
        ;
    }
    assert(v * v <= (2 * t) * (2 * t)) by (nonlinear_arith)
        requires
            -2 * t <= v <= 2 * t,
    ;
    assert(u * u + v * v < (2 * radius + 2) * (2 * radius + 2)) by (nonlinear_arith)
        requires
            m == 2 * x + 1,
            u * u <= m * m + 3,
            v * v <= (2 * t) * (2 * t),
            x * x + t * (t - 1) < radius * radius,
            0 <= x < t <= radius,
    ;
}

/// Every pixel of the outline in a square buffer lies less than one pixel
/// outside the circle: its centre is closer than `radius + 1` to the centre
/// of the buffer, in doubled units `(2·col + 1 - size, 2·row + 1 - size)`.
pub proof fn lemma_halo_outline_within_reach(size: usize, radius: usize, i: int)
    requires
        halo_outline(size as int, size as int, radius as int).contains(i),
    ensures
        0 <= i < size * size,
        ({
            let col = i % size as int;
            let row = i / size as int;
            (2 * col + 1 - size) * (2 * col + 1 - size) + (2 * row + 1 - size) * (2 * row + 1
                - size) < (2 * radius + 2) * (2 * radius + 2)
        }),
{
    let (n, r) = (size as int, radius as int);
    let points = halo_points(r);
    lemma_halo_cells_source(n, n, points, i);
    let j = choose|j: int| 0 <= j < points.len() && (#[trigger] halo_pixels(n, n, points[j])).contains(i);
    lemma_halo_points_hug_circle(radius);
    let p = points[j];
    let (x, t) = (p.0, p.1);
    let cells = halo_pixels(n, n, p);
    assert(halo_lands(n, n, p));
    let dx = x + n / 2;
    let dy = t + (n - 1) / 2;
    assert(1 <= dx < n && 1 <= dy < n);
    let k = choose|k: int| 0 <= k < cells.len() && cells[k] == i;
    let (col, row) = if k == 0 {
        (dx, dy)
    } else if k == 1 {
        (dy, dx)
    } else if k == 2 {
        (dx, n - dy)
    } else if k == 3 {
        (dy, n - dx)
    } else if k == 4 {
        (n - dx, dy)
    } else if k == 5 {
        (n - dy, dx)
    } else if k == 6 {
        (n - dx, n - dy)
    } else {
        (n - dy, n - dx)
    };
    assert(i == row * n + col);
    lemma_raster_cell(n, n, col, row);
    lemma_reflection_near_circle(n, r, x, t, col, row);
}

} // verus!
