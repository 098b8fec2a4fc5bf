//! Images of four bytes for each pixel, and the outlines drawn on them.

use vstd::prelude::*;
use crate::decode::PixelRect;
use crate::error::PipelineError;

verus! {

/// What an image is: its size and its bytes, four for each pixel (red,
/// green, blue, alpha), row after row from the top.
pub struct Raster {
    pub width: nat,
    pub height: nat,
    pub pixels: Seq<u8>,
}

/// An image in memory. It always holds four bytes for each of its pixels.
#[derive(Debug)]
pub struct Image {
    width: u32,
    height: u32,
    data: Vec<u8>,
}

impl View for Image {
    type V = Raster;

    closed spec fn view(&self) -> Raster {
        Raster { width: self.width as nat, height: self.height as nat, pixels: self.data@ }
    }
}

/// The column of the pixel that byte `k` belongs to.
pub open spec fn column_of(k: int, width: nat) -> int {
    (k / 4) % (width as int)
}

/// The row of the pixel that byte `k` belongs to.
pub open spec fn row_of(k: int, width: nat) -> int {
    (k / 4) / (width as int)
}

/// The pixel at column `x` and row `y` lies on the outline of `rect`: inside
/// the rectangle and on its first or last column or row. A rectangle without
/// width or height has no outline.
pub open spec fn on_outline(rect: PixelRect, x: int, y: int) -> bool {
    let right = rect.x + rect.width - 1;
    let bottom = rect.y + rect.height - 1;
    &&& rect.width > 0
    &&& rect.height > 0
    &&& rect.x <= x <= right
    &&& rect.y <= y <= bottom
    &&& (x == rect.x || x == right || y == rect.y || y == bottom)
}

/// The bytes of an image after the outline of `rect` was drawn in `color`:
/// the pixels on the outline take the colour, all others stay.
pub open spec fn painted(pixels: Seq<u8>, width: nat, rect: PixelRect, color: Seq<u8>) -> Seq<u8> {
    Seq::new(
        pixels.len(),
        |k: int|
            if on_outline(rect, column_of(k, width), row_of(k, width)) {
                color[k % 4]
            } else {
                pixels[k]
            },
    )
}

/// Solid white.
pub open spec fn white() -> Seq<u8> {
    seq![255u8, 255u8, 255u8, 255u8]
}

/// The bytes of an image after the outlines of all of `rects` were drawn in
/// white: a pixel on the outline of any of them is white, all others stay.
pub open spec fn annotated(pixels: Seq<u8>, width: nat, rects: Seq<PixelRect>) -> Seq<u8> {
    Seq::new(
        pixels.len(),
        |k: int|
            if exists|j: int|
                0 <= j < rects.len() && on_outline(
                    #[trigger] rects[j],
                    column_of(k, width),
                    row_of(k, width),
                ) {
                255u8
            } else {
                pixels[k]
            },
    )
}

/// Without rectangles nothing is drawn.
pub proof fn lemma_no_rectangles_no_change(pixels: Seq<u8>, width: nat)
    ensures
        annotated(pixels, width, Seq::empty()) == pixels,
{
    assert(annotated(pixels, width, Seq::empty()) =~= pixels);
}

/// The largest coordinate that the drawing primitive, which works in single
/// precision, tells from its neighbours.
pub open spec fn exact_range() -> int {
    0x100_0000
}

/// Draws the outline of `rect` with `imageproc::drawing::draw_hollow_rect_mut`
/// on the image that `image::ImageBuffer::from_raw` makes of the bytes, and
/// hands the bytes back. The primitive draws four line segments between the
/// corners, pixel by pixel, and skips the pixels outside the image; it takes
/// the corners as single-precision numbers, which is exact for the
/// coordinates admitted here. Believed, not proved.
#[verifier::external_body]
fn draw_hollow_rect(data: Vec<u8>, width: u32, height: u32, rect: PixelRect, color: [u8; 4]) -> (out:
    Vec<u8>)
    requires
        data@.len() == width * height * 4,
        width <= exact_range(),
        height <= exact_range(),
        rect.width > 0,
        rect.height > 0,
        -exact_range() <= rect.x,
        -exact_range() <= rect.y,
        rect.x + rect.width - 1 <= exact_range(),
        rect.y + rect.height - 1 <= exact_range(),
    ensures
        out@ == painted(data@, width as nat, rect, color@),
{
    let mut canvas = image::RgbaImage::from_raw(width, height, data).unwrap();
    let shape = imageproc::rect::Rect::at(rect.x, rect.y).of_size(rect.width, rect.height);
    imageproc::drawing::draw_hollow_rect_mut(&mut canvas, shape, image::Rgba(color));
    canvas.into_raw()
}

/// Whether the pixel at column `x` and row `y` lies on the outline of `rect`.
fn is_on_outline(rect: &PixelRect, x: u32, y: u32) -> (r: bool)
    ensures
        r == on_outline(*rect, x as int, y as int),
{
    if rect.width == 0 || rect.height == 0 {
        return false;
    }
    let px = x as i64;
    let py = y as i64;
    let left = rect.x as i64;
    let top = rect.y as i64;
    let right = left + (rect.width as i64) - 1;
    let bottom = top + (rect.height as i64) - 1;
    left <= px && px <= right && top <= py && py <= bottom && (px == left || px == right || py
        == top || py == bottom)
}

/// Draws the outline of `rect` in white by asking of each pixel whether it
/// lies on it.
fn scan_outline(data: Vec<u8>, width: u32, height: u32, rect: &PixelRect) -> (out: Vec<u8>)
    requires
        data@.len() == width * height * 4,
    ensures
        out@ == painted(data@, width as nat, *rect, white()),
{
    let mut out = data;
    let len = out.len();
    let mut k: usize = 0;
    while k < len
        invariant
            k <= len,
            len == data@.len(),
            out@.len() == data@.len(),
            data@.len() == width * height * 4,
            forall|j: int| 0 <= j < k ==> out@[j] == painted(data@, width as nat, *rect, white())[j],
            forall|j: int| k <= j < len ==> out@[j] == data@[j],
        decreases len - k,
    {
        proof {
            lemma_pixel_in_image(k as int, width as nat, height as nat);
        }
        let pixel = k / 4;
        let x = (pixel % (width as usize)) as u32;
        let y = (pixel / (width as usize)) as u32;
        if is_on_outline(rect, x, y) {
            out.set(k, 255u8);
        }
        k = k + 1;
    }
    out
}

/// The pixel of a byte of an image lies in the image.
pub proof fn lemma_pixel_in_image(k: int, width: nat, height: nat)
    requires
        0 <= k < width * height * 4,
    ensures
        width > 0,
        height > 0,
        0 <= column_of(k, width) < width,
        0 <= row_of(k, width) < height,
{
    assert(width > 0 && height > 0) by (nonlinear_arith)
        requires
            0 <= k < width * height * 4,
    ;
    let p = k / 4;
    let w = width as int;
    assert(p < width * height);
    vstd::arithmetic::div_mod::lemma_fundamental_div_mod(p, w);
    vstd::arithmetic::div_mod::lemma_mod_pos_bound(p, w);
    assert(0 <= p / w < height) by (nonlinear_arith)
        requires
            0 <= p < w * height,
            p == w * (p / w) + p % w,
            0 <= p % w < w,
            w > 0,
    ;
}

/// A rectangle cut to the frame one pixel around an image has the same
/// outline inside the image; one that lies outside that frame has none there.
pub proof fn lemma_clipped_outline(rect: PixelRect, clipped: PixelRect, width: nat, height: nat)
    requires
        rect.width > 0,
        rect.height > 0,
        clipped.x == if rect.x < -1 {
            -1
        } else {
            rect.x as int
        },
        clipped.y == if rect.y < -1 {
            -1
        } else {
            rect.y as int
        },
        clipped.x + clipped.width - 1 == if rect.x + rect.width - 1 > width {
            width as int
        } else {
            rect.x + rect.width - 1
        },
        clipped.y + clipped.height - 1 == if rect.y + rect.height - 1 > height {
            height as int
        } else {
            rect.y + rect.height - 1
        },
        clipped.width > 0,
        clipped.height > 0,
    ensures
        forall|x: int, y: int|
            0 <= x < width && 0 <= y < height ==> on_outline(rect, x, y) == on_outline(
                clipped,
                x,
                y,
            ),
{
}

impl Image {
    #[verifier::type_invariant]
    spec fn sized(&self) -> bool {
        self.data@.len() == self.width * self.height * 4
    }

    /// An image of the given size from its bytes; `InvalidInput` unless there
    /// are four bytes for each pixel.
    pub fn new(width: u32, height: u32, data: Vec<u8>) -> (r: Result<Image, PipelineError>)
        ensures
            match r {
                Ok(image) => data@.len() == width * height * 4 && image@ == (Raster {
                    width: width as nat,
                    height: height as nat,
                    pixels: data@,
                }),
                Err(e) => e == PipelineError::InvalidInput && data@.len() != width * height * 4,
            },
    {
        assert(width * height * 4 <= 0x4_0000_0000_0000_0000) by (nonlinear_arith)
            requires
                width <= 0xffff_ffff,
                height <= 0xffff_ffff,
        ;
        let wanted: u128 = (width as u128) * (height as u128) * 4;
        if data.len() as u128 == wanted {
            Ok(Image { width, height, data })
        } else {
            Err(PipelineError::InvalidInput)
        }
    }

    pub fn width(&self) -> (w: u32)
        ensures
            w == self@.width,
    {
        self.width
    }

    pub fn height(&self) -> (h: u32)
        ensures
            h == self@.height,
    {
        self.height
    }

    /// The bytes of the image.
    pub fn data(&self) -> (d: &Vec<u8>)
        ensures
            d@ == self@.pixels,
            d@.len() == self@.width * self@.height * 4,
    {
        proof {
            use_type_invariant(self);
        }
        &self.data
    }

    /// The bytes of the image, giving the image up.
    pub fn into_raw(self) -> (d: Vec<u8>)
        ensures
            d@ == self@.pixels,
            d@.len() == self@.width * self@.height * 4,
    {
        proof {
            use_type_invariant(&self);
        }
        self.data
    }
}

/// The bytes with the outline of one rectangle drawn in white.
fn outline(data: Vec<u8>, width: u32, height: u32, rect: &PixelRect) -> (out: Vec<u8>)
    requires
        data@.len() == width * height * 4,
    ensures
        out@ == painted(data@, width as nat, *rect, white()),
{
    if rect.width == 0 || rect.height == 0 {
        assert(data@ =~= painted(data@, width as nat, *rect, white()));
        return data;
    }
    if width > 0x100_0000 || height > 0x100_0000 {
        return scan_outline(data, width, height, rect);
    }
    let left = rect.x as i64;
    let top = rect.y as i64;
    let right = left + (rect.width as i64) - 1;
    let bottom = top + (rect.height as i64) - 1;
    let l = if left < -1 {
        -1
    } else {
        left
    };
    let t = if top < -1 {
        -1
    } else {
        top
    };
    let r = if right > width as i64 {
        width as i64
    } else {
        right
    };
    let b = if bottom > height as i64 {
        height as i64
    } else {
        bottom
    };
    if l > r || t > b {
        assert(data@ =~= painted(data@, width as nat, *rect, white())) by {
            assert forall|k: int| 0 <= k < data@.len() implies !on_outline(
                *rect,
                column_of(k, width as nat),
                row_of(k, width as nat),
            ) by {
                lemma_pixel_in_image(k, width as nat, height as nat);
            }
        }
        return data;
    }
    let clipped = PixelRect {
        x: l as i32,
        y: t as i32,
        width: (r - l + 1) as u32,
        height: (b - t + 1) as u32,
    };
    let color: [u8; 4] = [255u8, 255u8, 255u8, 255u8];
    let out = draw_hollow_rect(data, width, height, clipped, color);
    proof {
        lemma_clipped_outline(*rect, clipped, width as nat, height as nat);
        assert(color@ =~= white());
        assert(out@ =~= painted(data@, width as nat, *rect, white())) by {
            assert forall|k: int| 0 <= k < data@.len() implies on_outline(
                *rect,
                column_of(k, width as nat),
                row_of(k, width as nat),
            ) == on_outline(clipped, column_of(k, width as nat), row_of(k, width as nat)) by {
                lemma_pixel_in_image(k, width as nat, height as nat);
            }
        }
    }
    out
}

/// A copy of the image with the outline of each rectangle drawn in solid
/// white, as far as it lies inside the image.
pub fn annotate(image: &Image, rects: &Vec<PixelRect>) -> (out: Image)
    ensures
        out@.width == image@.width,
        out@.height == image@.height,
        out@.pixels == annotated(image@.pixels, image@.width, rects@),
{
    let width = image.width();
    let height = image.height();
    let mut data = image.data().clone();
    assert(data@ =~= image@.pixels);
    let mut i: usize = 0;
    assert(data@ =~= annotated(image@.pixels, width as nat, rects@.take(0)));
    while i < rects.len()
        invariant
            i <= rects.len(),
            width == image@.width,
            height == image@.height,
            data@.len() == width * height * 4,
            data@.len() == image@.pixels.len(),
            data@ == annotated(image@.pixels, width as nat, rects@.take(i as int)),
        decreases rects.len() - i,
    {
        let ghost before = data@;
        data = outline(data, width, height, &rects[i]);
        proof {
            let earlier = rects@.take(i as int);
            let now = rects@.take(i + 1);
            assert(data@ =~= annotated(image@.pixels, width as nat, now)) by {
                assert forall|k: int| 0 <= k < data@.len() implies data@[k] == annotated(
                    image@.pixels,
                    width as nat,
                    now,
                )[k] by {
                    let x = column_of(k, width as nat);
                    let y = row_of(k, width as nat);
                    if on_outline(rects@[i as int], x, y) {
                        assert(now[i as int] == rects@[i as int]);
                    } else if exists|j: int| 0 <= j < earlier.len() && on_outline(#[trigger] earlier[j], x, y) {
                        let j = choose|j: int| 0 <= j < earlier.len() && on_outline(#[trigger] earlier[j], x, y);
                        assert(now[j] == earlier[j]);
                    } else {
                        assert forall|j: int| 0 <= j < now.len() implies !on_outline(#[trigger] now[j], x, y) by {
                            if j < i {
                                assert(now[j] == earlier[j]);
                            }
                        }
                    }
                }
            }
        }
        i = i + 1;
    }
    assert(rects@.take(rects@.len() as int) =~= rects@);
    Image { width, height, data }
}

} // verus!
