use vstd::prelude::*;

verus! {

/// The ASCII decimal digits of `n` (`0` is 0x30), most significant first,
/// with no leading zero.
pub open spec fn decimal(n: nat) -> Seq<u8>
    decreases n,
{
    if n < 10 {
        seq![(0x30 + n) as u8]
    } else {
        decimal(n / 10).push((0x30 + n % 10) as u8)
    }
}

/// The header of a raw pixel map, `"P6\n<width> <height> 255\n"` in ASCII:
/// the magic `P6`, the width and the height, and the largest channel value
/// 255, each followed by one separator.
pub open spec fn ppm_header(width: nat, height: nat) -> Seq<u8> {
    seq![0x50u8, 0x36, 0x0a] + decimal(width) + seq![0x20u8] + decimal(height) + seq![
        0x20,
        0x32,
        0x35,
        0x35,
        0x0a,
    ]
}

/// The red channel of a packed color: bits 16 to 23.
pub open spec fn red(color: u32) -> u8 {
    ((color / 0x10000) % 0x100) as u8
}

/// The green channel of a packed color: bits 8 to 15.
pub open spec fn green(color: u32) -> u8 {
    ((color / 0x100) % 0x100) as u8
}

/// The blue channel of a packed color: bits 0 to 7.
pub open spec fn blue(color: u32) -> u8 {
    (color % 0x100) as u8
}

/// The bytes of a sequence of pixels: one red, green, blue triple per pixel,
/// in order.
pub open spec fn rgb_bytes(pixels: Seq<u32>) -> Seq<u8>
    decreases pixels.len(),
{
    if pixels.len() == 0 {
        seq![]
    } else {
        let p = pixels.last();
        rgb_bytes(pixels.drop_last()) + seq![red(p), green(p), blue(p)]
    }
}

/// The whole file for a `width` × `height` buffer: the header, then the
/// pixels row by row.
pub open spec fn ppm_file(width: nat, height: nat, pixels: Seq<u32>) -> Seq<u8> {
    ppm_header(width, height) + rgb_bytes(pixels)
}

/// Appends the decimal digits of `n`.
fn push_decimal(out: &mut Vec<u8>, n: usize)
    ensures
        final(out)@ == old(out)@ + decimal(n as nat),
    decreases n,
{
    if n >= 10 {
        push_decimal(out, n / 10);
    }
    let digit = (n % 10) as u8;
    out.push(0x30 + digit);
    proof {
        if n < 10 {
            assert(old(out)@ + decimal(n as nat) =~= old(out)@.push((0x30 + n) as u8));
        } else {
            assert(old(out)@ + decimal(n as nat) =~= (old(out)@ + decimal(
                (n / 10) as nat,
            )).push((0x30 + n % 10) as u8));
        }
    }
}

/// Encodes the buffer as a raw pixel map: the header, then the red, green and
/// blue bytes of every pixel, row by row.
pub fn ppm_bytes(pixels: &[u32], height: usize, width: usize) -> (bytes: Vec<u8>)
    requires
        pixels@.len() == width * height,
    ensures
        bytes@ == ppm_file(width as nat, height as nat, pixels@),
{
    let mut out: Vec<u8> = Vec::new();
    out.push(0x50);
    out.push(0x36);
    out.push(0x0a);
    push_decimal(&mut out, width);
    out.push(0x20);
    push_decimal(&mut out, height);
    out.push(0x20);
    out.push(0x32);
    out.push(0x35);
    out.push(0x35);
    out.push(0x0a);
    let ghost header = ppm_header(width as nat, height as nat);
    assert(out@ =~= header + rgb_bytes(pixels@.take(0)));
    let n = pixels.len();
    let mut y: usize = 0;
    while y < height
        invariant
            pixels@.len() == width * height,
            n == width * height,
            y <= height,
            header == ppm_header(width as nat, height as nat),
            out@ == header + rgb_bytes(pixels@.take(y * width)),
        decreases height - y,
    {
        let mut x: usize = 0;
        while x < width
            invariant
                pixels@.len() == width * height,
                n == width * height,
                x <= width,
                y < height,
                header == ppm_header(width as nat, height as nat),
                out@ == header + rgb_bytes(pixels@.take(y * width + x)),
            decreases width - x,
        {
            proof {
                crate::pattern::lemma_raster_cell(width as int, height as int, x as int, y as int);
            }
            let i = y * width + x;
            let pixel = pixels[i];
            let r = ((pixel >> 16) & 0xff) as u8;
            let g = ((pixel >> 8) & 0xff) as u8;
            let b = (pixel & 0xff) as u8;
            proof {
                assert((pixel >> 16u32) & 0xffu32 == (pixel / 0x10000u32) % 0x100u32)
                    by (bit_vector);
                assert((pixel >> 8u32) & 0xffu32 == (pixel / 0x100u32) % 0x100u32) by (bit_vector);
                assert(pixel & 0xffu32 == pixel % 0x100u32) by (bit_vector);
                let done = pixels@.take(i as int);
                let next = pixels@.take(i + 1);
                assert(next.drop_last() =~= done);
                assert(next.last() == pixel);
            }
            out.push(r);
            out.push(g);
            out.push(b);
            proof {
                assert(out@ =~= header + rgb_bytes(pixels@.take(i + 1)));
            }
            x += 1;
        }
        proof {
            if width > 0 {
                crate::pattern::lemma_raster_cell(width as int, height as int, 0, y as int);
            }
        }
        y += 1;
    }
    proof {
        if width == 0 {
            assert(width * height == 0);
        } else {
            assert(y * width == width * height) by (nonlinear_arith)
                requires
                    y == height,
            ;
        }
        assert(pixels@.take(y * width) =~= pixels@);
    }
    out
}

/// The pixel bytes hold one triple per pixel, in order: pixel `i` is
/// written as bytes `3i`, `3i + 1` and `3i + 2`, its red, green and blue
/// channels.
pub proof fn lemma_rgb_bytes_layout(pixels: Seq<u32>)
    ensures
        rgb_bytes(pixels).len() == 3 * pixels.len(),
        forall|i: int|
            0 <= i < pixels.len() ==> {
                &&& rgb_bytes(pixels)[3 * i] == red(#[trigger] pixels[i])
                &&& rgb_bytes(pixels)[3 * i + 1] == green(pixels[i])
                &&& rgb_bytes(pixels)[3 * i + 2] == blue(pixels[i])
            },
    decreases pixels.len(),
{
    if pixels.len() > 0 {
        let front = pixels.drop_last();
        lemma_rgb_bytes_layout(front);
        let p = pixels.last();
        let bytes = rgb_bytes(pixels);
        assert(bytes == rgb_bytes(front) + seq![red(p), green(p), blue(p)]);
        assert forall|i: int| 0 <= i < pixels.len() implies {
            &&& bytes[3 * i] == red(#[trigger] pixels[i])
            &&& bytes[3 * i + 1] == green(pixels[i])
            &&& bytes[3 * i + 2] == blue(pixels[i])
        } by {
            if i < front.len() {
                assert(pixels[i] == front[i]);
            }
        }
    }
}

} // verus!
