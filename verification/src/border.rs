//! Print bleed for card images: a border around the image made by repeating
//! its edge pixels outward, and a faint mark in the top left corner that
//! makes each copy of an image differ from the others.
use vstd::prelude::*;

use vstd::arithmetic::div_mod::{
    lemma_div_pos_is_pos, lemma_fundamental_div_mod, lemma_fundamental_div_mod_converse,
    lemma_mod_pos_bound,
};

verus! {

/// An image of `width` by `height` pixels, three bytes (red, green, blue)
/// per pixel, row by row from the top left.
#[derive(Clone, Debug, PartialEq, Eq)]
pub struct RgbImageData {
    pub width: u32,
    pub height: u32,
    pub pixels: Vec<u8>,
}

impl RgbImageData {
    /// A copy of the image.
    pub fn duplicate(&self) -> (r: Self)
        ensures
            r.width == self.width,
            r.height == self.height,
            r.pixels@ == self.pixels@,
    {
        let mut pixels: Vec<u8> = Vec::with_capacity(self.pixels.len());
        let mut i: usize = 0;
        while i < self.pixels.len()
            invariant
                i <= self.pixels@.len(),
                pixels@ == self.pixels@.take(i as int),
            decreases self.pixels.len() - i,
        {
            pixels.push(self.pixels[i]);
            i = i + 1;
            assert(pixels@ =~= self.pixels@.take(i as int));
        }
        assert(pixels@ =~= self.pixels@);
        RgbImageData { width: self.width, height: self.height, pixels }
    }

    /// The pixel bytes are exactly as many as the size says.
    pub open spec fn well_formed(&self) -> bool {
        self.pixels@.len() == self.width as int * self.height as int * 3
    }

    /// Channel `c` of the pixel at column `x`, row `y`.
    pub open spec fn channel(&self, x: int, y: int, c: int) -> u8 {
        self.pixels@[(y * self.width + x) * 3 + c]
    }
}

/// The sizes of a bordered image: the border repeats on every side.
#[derive(Clone, Copy, Debug, PartialEq, Eq)]
pub struct BorderConfig {
    pub output_width: u32,
    pub output_height: u32,
    pub border_size: u32,
}

impl BorderConfig {
    /// The sizes for an image of the given size with the given border.
    pub fn with_border(width: u32, height: u32, border_size: u32) -> (r: Self)
        requires
            width + 2 * border_size <= u32::MAX,
            height + 2 * border_size <= u32::MAX,
        ensures
            r.output_width == width + 2 * border_size,
            r.output_height == height + 2 * border_size,
            r.border_size == border_size,
    {
        BorderConfig {
            output_width: width + border_size * 2,
            output_height: height + border_size * 2,
            border_size,
        }
    }
}

/// `v` moved into `0 .. n`: below it to `0`, above it to `n - 1`.
pub open spec fn clamped(v: int, n: int) -> int {
    if v < 0 {
        0
    } else if v >= n {
        n - 1
    } else {
        v
    }
}

/// The byte at flat position `k` of the bordered image: the byte of the
/// source pixel nearest to where the position falls once the border is
/// taken away.
pub open spec fn bordered_byte(img: RgbImageData, b: int, ow: int, k: int) -> u8 {
    let c = k % 3;
    let p = k / 3;
    let x = clamped(p % ow - b, img.width as int);
    let y = clamped(p / ow - b, img.height as int);
    img.channel(x, y, c)
}

proof fn lemma_flat_position(w: int, h: int, x: int, y: int, c: int)
    requires
        0 <= x < w,
        0 <= y < h,
        0 <= c < 3,
    ensures
        0 <= (y * w + x) * 3 + c < w * h * 3,
        ((y * w + x) * 3 + c) % 3 == c,
        ((y * w + x) * 3 + c) / 3 == y * w + x,
        (y * w + x) % w == x,
        (y * w + x) / w == y,
{
    lemma_fundamental_div_mod_converse((y * w + x) * 3 + c, 3, y * w + x, c);
    lemma_fundamental_div_mod_converse(y * w + x, w, y, x);
    assert(0 <= y * w) by (nonlinear_arith)
        requires
            0 <= y,
            0 <= w,
    ;
    assert(y * w + x < w * h) by (nonlinear_arith)
        requires
            0 <= x < w,
            0 <= y < h,
    ;
}

/// Adds a border of `border_size` pixels on every side, each border pixel a
/// copy of the nearest edge pixel of the image.
pub fn create_bordered_base(img: &RgbImageData, border_size: u32) -> (r: RgbImageData)
    requires
        img.well_formed(),
        img.width > 0,
        img.height > 0,
        (img.width + 2 * border_size) * (img.height + 2 * border_size) * 3 <= u32::MAX,
    ensures
        r.width == img.width + 2 * border_size,
        r.height == img.height + 2 * border_size,
        r.well_formed(),
        forall|x: int, y: int, c: int|
            0 <= x < img.width && 0 <= y < img.height && 0 <= c < 3 ==> #[trigger] r.channel(
                x + border_size,
                y + border_size,
                c,
            ) == img.channel(x, y, c),
        forall|x: int, y: int, c: int|
            0 <= x < r.width && 0 <= y < r.height && 0 <= c < 3 ==> #[trigger] r.channel(x, y, c) == img.channel(
                clamped(x - border_size, img.width as int),
                clamped(y - border_size, img.height as int),
                c,
            ),
{
    let ghost b = border_size as int;
    assert(img.width + 2 * border_size <= u32::MAX && img.height + 2 * border_size <= u32::MAX) by (nonlinear_arith)
        requires
            (img.width + 2 * border_size) * (img.height + 2 * border_size) * 3 <= u32::MAX,
            img.width > 0,
            img.height > 0,
    ;
    let config = BorderConfig::with_border(img.width, img.height, border_size);
    let ow = config.output_width as usize;
    let oh = config.output_height as usize;
    let w = img.width as usize;
    let h = img.height as usize;
    let bs = border_size as usize;
    let ghost total = ow * oh * 3;
    let mut dest: Vec<u8> = Vec::new();
    let mut y: usize = 0;
    while y < oh
        invariant
            ow == img.width + 2 * border_size,
            oh == img.height + 2 * border_size,
            w == img.width,
            h == img.height,
            bs == border_size,
            b == border_size,
            w > 0,
            h > 0,
            img.well_formed(),
            ow * oh * 3 <= u32::MAX,
            y <= oh,
            dest@.len() == y * ow * 3,
            forall|k: int| 0 <= k < dest@.len() ==> #[trigger] dest@[k] == bordered_byte(*img, b, ow as int, k),
        decreases oh - y,
    {
        let sy: usize = if y < bs {
            0
        } else if y - bs >= h {
            h - 1
        } else {
            y - bs
        };
        let mut x: usize = 0;
        while x < ow
            invariant
                ow == img.width + 2 * border_size,
                oh == img.height + 2 * border_size,
                w == img.width,
                h == img.height,
                bs == border_size,
                b == border_size,
                w > 0,
                h > 0,
                img.well_formed(),
                ow * oh * 3 <= u32::MAX,
                y < oh,
                x <= ow,
                sy == clamped(y - b, h as int),
                dest@.len() == (y * ow + x) * 3,
                forall|k: int| 0 <= k < dest@.len() ==> #[trigger] dest@[k] == bordered_byte(*img, b, ow as int, k),
            decreases ow - x,
        {
            let sx: usize = if x < bs {
                0
            } else if x - bs >= w {
                w - 1
            } else {
                x - bs
            };
            let n = img.pixels.len();
            proof {
                lemma_flat_position(w as int, h as int, sx as int, sy as int, 0);
                lemma_flat_position(w as int, h as int, sx as int, sy as int, 2);
                assert(y * ow + x < ow * oh) by (nonlinear_arith)
                    requires
                        x < ow,
                        y < oh,
                ;
            }
            let base = (sy * w + sx) * 3;
            let mut c: usize = 0;
            while c < 3
                invariant
                    ow == img.width + 2 * border_size,
                    oh == img.height + 2 * border_size,
                    w == img.width,
                    h == img.height,
                    b == border_size,
                    img.well_formed(),
                    x < ow,
                    y < oh,
                    sx == clamped(x - b, w as int),
                    sy == clamped(y - b, h as int),
                    sx < w,
                    sy < h,
                    base == (sy * w + sx) * 3,
                    base + 3 <= img.pixels@.len(),
                    n == img.pixels@.len(),
                    c <= 3,
                    y * ow + x < ow * oh,
                    ow * oh * 3 <= u32::MAX,
                    dest@.len() == (y * ow + x) * 3 + c,
                    forall|k: int| 0 <= k < dest@.len() ==> #[trigger] dest@[k] == bordered_byte(*img, b, ow as int, k),
                decreases 3 - c,
            {
                proof {
                    lemma_flat_position(ow as int, oh as int, x as int, y as int, c as int);
                }
                dest.push(img.pixels[base + c]);
                c = c + 1;
            }
            x = x + 1;
        }
        proof {
            assert((y * ow + ow) * 3 == (y + 1) * ow * 3) by (nonlinear_arith);
        }
        y = y + 1;
    }
    let r = RgbImageData { width: config.output_width, height: config.output_height, pixels: dest };
    assert forall|x: int, y: int, c: int|
        0 <= x < r.width && 0 <= y < r.height && 0 <= c < 3 implies #[trigger] r.channel(x, y, c) == img.channel(
            clamped(x - border_size, img.width as int),
            clamped(y - border_size, img.height as int),
            c,
        ) by {
        lemma_flat_position(ow as int, oh as int, x, y, c);
        assert(oh * ow * 3 == ow * oh * 3) by (nonlinear_arith);
    }
    assert forall|x: int, y: int, c: int|
        0 <= x < img.width && 0 <= y < img.height && 0 <= c < 3 implies #[trigger] r.channel(
            x + border_size,
            y + border_size,
            c,
        ) == img.channel(x, y, c) by {
        assert(r.channel(x + border_size, y + border_size, c) == img.channel(
            clamped(x + border_size - border_size, img.width as int),
            clamped(y + border_size - border_size, img.height as int),
            c,
        ));
    }
    assert(r.well_formed()) by {
        assert(oh * ow * 3 == ow * oh * 3) by (nonlinear_arith);
    }
    r
}

/// What the mark adds to red, green and blue for a given position.
pub open spec fn marker_add(position: u32, c: int) -> int {
    if c == 0 {
        (position * 73) % 256
    } else if c == 1 {
        (position * 137) % 256
    } else {
        (position * 193) % 256
    }
}

/// Whether pixel `(x, y)` is one the mark changes: the top left two by two
/// pixels, where the image has them.
pub open spec fn marked(img: RgbImageData, x: int, y: int) -> bool {
    0 <= x < 2 && 0 <= y < 2 && x < img.width && y < img.height
}

/// Byte `k` of the image once marked: the bytes of the top left two by two
/// pixels gain the amount of their channel, wrapping past 255.
pub open spec fn marked_byte(img: RgbImageData, position: u32, k: int) -> u8 {
    let p = k / 3;
    if p % (img.width as int) < 2 && p / (img.width as int) < 2 {
        ((img.pixels@[k] + marker_add(position, k % 3)) % 256) as u8
    } else {
        img.pixels@[k]
    }
}

/// The bytes of the image once marked.
pub open spec fn marked_pixels(img: RgbImageData, position: u32) -> Seq<u8> {
    Seq::new(img.pixels@.len(), |k: int| marked_byte(img, position, k))
}

proof fn lemma_split_flat(k: int, w: int, h: int)
    requires
        w > 0,
        0 <= k < w * h * 3,
    ensures
        k == ((k / 3) / w * w + (k / 3) % w) * 3 + k % 3,
        0 <= (k / 3) % w < w,
        0 <= (k / 3) / w < h,
        0 <= k % 3 < 3,
{
    lemma_fundamental_div_mod(k, 3);
    lemma_mod_pos_bound(k, 3);
    lemma_div_pos_is_pos(k, 3);
    let p = k / 3;
    lemma_fundamental_div_mod(p, w);
    lemma_mod_pos_bound(p, w);
    lemma_div_pos_is_pos(p, w);
    assert(p < w * h) by (nonlinear_arith)
        requires
            k == 3 * p + k % 3,
            0 <= k % 3,
            k < w * h * 3,
    ;
    assert(p / w < h) by (nonlinear_arith)
        requires
            p == w * (p / w) + p % w,
            0 <= p % w,
            p < w * h,
            w > 0,
    ;
    assert(w * (p / w) == (p / w) * w) by (nonlinear_arith);
}

/// Adds the three amounts to the three channels of pixel `(x, y)`, wrapping
/// past 255; every other byte stays.
fn add_to_pixel(img: &mut RgbImageData, x: usize, y: usize, r_add: u8, g_add: u8, b_add: u8)
    requires
        old(img).well_formed(),
        x < old(img).width,
        y < old(img).height,
    ensures
        final(img).width == old(img).width,
        final(img).height == old(img).height,
        final(img).pixels@.len() == old(img).pixels@.len(),
        forall|px: int, py: int, c: int|
            0 <= px < old(img).width && 0 <= py < old(img).height && 0 <= c < 3 ==> #[trigger] final(img).channel(px, py, c) == (
            if px == x && py == y {
                ((old(img).channel(px, py, c) + (if c == 0 { r_add } else if c == 1 { g_add } else { b_add })) % 256) as u8
            } else {
                old(img).channel(px, py, c)
            }),
{
    let ghost before = *img;
    let w = img.width as usize;
    let n = img.pixels.len();
    proof {
        lemma_flat_position(w as int, before.height as int, x as int, y as int, 0);
        lemma_flat_position(w as int, before.height as int, x as int, y as int, 2);
    }
    let i = (y * w + x) * 3;
    let r0 = img.pixels[i].wrapping_add(r_add);
    img.pixels.set(i, r0);
    let g0 = img.pixels[i + 1].wrapping_add(g_add);
    img.pixels.set(i + 1, g0);
    let b0 = img.pixels[i + 2].wrapping_add(b_add);
    img.pixels.set(i + 2, b0);
    assert forall|px: int, py: int, c: int|
        0 <= px < before.width && 0 <= py < before.height && 0 <= c < 3 implies #[trigger] img.channel(px, py, c) == (
        if px == x && py == y {
            ((before.channel(px, py, c) + (if c == 0 { r_add } else if c == 1 { g_add } else { b_add })) % 256) as u8
        } else {
            before.channel(px, py, c)
        }) by {
        lemma_flat_position(w as int, before.height as int, px, py, c);
        if px != x || py != y {
            assert((py * w + px) != (y * w + x));
        }
    }
}

/// Adds to each channel of the top left two by two pixels an amount that
/// depends on `position`, wrapping past 255; every other byte stays.
pub fn apply_uniqueness_marker(img: &mut RgbImageData, position: u32)
    requires
        old(img).well_formed(),
        position * 193 <= u32::MAX,
    ensures
        final(img).width == old(img).width,
        final(img).height == old(img).height,
        final(img).well_formed(),
        final(img).pixels@ == marked_pixels(*old(img), position),
        forall|x: int, y: int, c: int|
            0 <= x < old(img).width && 0 <= y < old(img).height && 0 <= c < 3 ==> #[trigger] final(img).channel(x, y, c) == (
            if marked(*old(img), x, y) {
                ((old(img).channel(x, y, c) + marker_add(position, c)) % 256) as u8
            } else {
                old(img).channel(x, y, c)
            }),
{
    let r_add = ((position * 73) % 256) as u8;
    let g_add = ((position * 137) % 256) as u8;
    let b_add = ((position * 193) % 256) as u8;
    let ghost before = *img;
    let w = img.width as usize;
    let mut y: usize = 0;
    while y < 2
        invariant
            img.width == before.width,
            img.height == before.height,
            w == before.width,
            before.well_formed(),
            img.pixels@.len() == before.pixels@.len(),
            y <= 2,
            r_add == marker_add(position, 0),
            g_add == marker_add(position, 1),
            b_add == marker_add(position, 2),
            forall|px: int, py: int, c: int|
                0 <= px < before.width && 0 <= py < before.height && 0 <= c < 3 ==> #[trigger] img.channel(px, py, c) == (
                if marked(before, px, py) && py < y {
                    ((before.channel(px, py, c) + marker_add(position, c)) % 256) as u8
                } else {
                    before.channel(px, py, c)
                }),
        decreases 2 - y,
    {
        let mut x: usize = 0;
        while x < 2
            invariant
                img.width == before.width,
                img.height == before.height,
                w == before.width,
                before.well_formed(),
                img.pixels@.len() == before.pixels@.len(),
                y < 2,
                x <= 2,
                r_add == marker_add(position, 0),
                g_add == marker_add(position, 1),
                b_add == marker_add(position, 2),
                forall|px: int, py: int, c: int|
                    0 <= px < before.width && 0 <= py < before.height && 0 <= c < 3 ==> #[trigger] img.channel(px, py, c) == (
                    if marked(before, px, py) && (py < y || (py == y && px < x)) {
                        ((before.channel(px, py, c) + marker_add(position, c)) % 256) as u8
                    } else {
                        before.channel(px, py, c)
                    }),
            decreases 2 - x,
        {
            if x < img.width as usize && y < img.height as usize {
                add_to_pixel(img, x, y, r_add, g_add, b_add);
            }
            x = x + 1;
        }
        y = y + 1;
    }
    assert forall|k: int| 0 <= k < img.pixels@.len() implies img.pixels@[k] == marked_byte(before, position, k) by {
        if w == 0 {
            assert(before.width as int * before.height as int * 3 == 0) by (nonlinear_arith)
                requires
                    before.width == 0,
            ;
        }
        lemma_split_flat(k, w as int, before.height as int);
        let c = k % 3;
        let x = (k / 3) % (w as int);
        let yy = (k / 3) / (w as int);
        assert(img.channel(x, yy, c) == img.pixels@[k]);
    }
    assert(img.pixels@ =~= marked_pixels(before, position));
}

} // verus!
