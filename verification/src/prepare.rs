//! Preparing an image for the detector: resampling to the detector's fixed
//! size and laying the normalized colour levels out channel by channel.

use vstd::prelude::*;
use crate::error::PipelineError;
use crate::raster::Image;
use crate::raster::Raster;
use crate::single::denoted;
use crate::single::Single;
use crate::value::Value;

verus! {

/// The width of the detector's input.
pub const TARGET_WIDTH: u32 = 640;

/// The height of the detector's input.
pub const TARGET_HEIGHT: u32 = 480;

/// The number of pixels of the detector's input.
pub const PLANE: usize = 307200;

/// A tensor of rank four that holds single-precision patterns, the last
/// index running fastest.
#[derive(Debug)]
pub struct Tensor4 {
    pub batch: usize,
    pub channels: usize,
    pub height: usize,
    pub width: usize,
    pub data: Vec<u32>,
}

impl Tensor4 {
    /// The tensor has the shape that the detector takes: one image of three
    /// channels, 480 rows and 640 columns.
    pub open spec fn has_detector_shape(&self) -> bool {
        &&& self.batch == 1
        &&& self.channels == 3
        &&& self.height == 480
        &&& self.width == 640
        &&& self.data@.len() == 3 * PLANE
    }
}

/// The pattern of the mean by which a channel is centred: 0.485 for red,
/// 0.456 for green and 0.406 for blue, each rounded to single precision.
pub open spec fn mean_bits(channel: int) -> u32 {
    if channel == 0 {
        0x3ef8_51ec
    } else if channel == 1 {
        0x3ee9_78d5
    } else {
        0x3ecf_df3b
    }
}

/// The pattern of the deviation by which a channel is scaled: 0.229 for red,
/// 0.224 for green and 0.225 for blue, each rounded to single precision.
pub open spec fn deviation_bits(channel: int) -> u32 {
    if channel == 0 {
        0x3e6a_7efa
    } else if channel == 1 {
        0x3e65_6042
    } else {
        0x3e66_6666
    }
}

/// The normalized value of a colour level: `(level / 255 - mean) / deviation`
/// with the channel's constants, each step rounded to single precision.
pub open spec fn normalized(level: u8, channel: int) -> Value {
    Value::of_integer(level as nat).quotient(Value::of_integer(255)).difference(
        denoted(mean_bits(channel)),
    ).quotient(denoted(deviation_bits(channel)))
}

/// The three colour bytes of each pixel, without the fourth.
pub open spec fn rgb_of(pixels: Seq<u8>) -> Seq<u8> {
    Seq::new((pixels.len() / 4 * 3) as nat, |k: int| pixels[k / 3 * 4 + k % 3])
}

/// What entry `k` of the tensor denotes: the normalized level of channel
/// `k / PLANE` at pixel `k % PLANE` of the resampled image, whose bytes run
/// pixel by pixel with three channels each.
pub open spec fn tensor_entry(resized: Seq<u8>, k: int) -> Value {
    let channel = k / (PLANE as int);
    let pixel = k % (PLANE as int);
    normalized(resized[pixel * 3 + channel], channel)
}

/// The bytes that `image::imageops::resize` with the triangle filter gives
/// for an image of three bytes per pixel: a function of the bytes, the
/// image's size and the new size.
pub uninterp spec fn resampled(rgb: Seq<u8>, width: u32, height: u32, new_width: u32, new_height: u32) -> Seq<u8>;

/// Resamples an image of three bytes per pixel to the detector's size with
/// `image::imageops::resize` and the triangle filter. The result has three
/// bytes for each pixel of the new size; which bytes, the contract only
/// names. Only the detector's size is admitted as the new size: towards much
/// larger sizes the filter's weights, computed in single precision, can all
/// be zero, and the outside function then fails. Believed, not proved.
#[verifier::external_body]
fn resample(rgb: Vec<u8>, width: u32, height: u32, new_width: u32, new_height: u32) -> (out: Vec<u8>)
    requires
        rgb@.len() == width * height * 3,
        width > 0,
        height > 0,
        new_width == TARGET_WIDTH,
        new_height == TARGET_HEIGHT,
        width * new_height * 3 <= usize::MAX,
    ensures
        out@ == resampled(rgb@, width, height, new_width, new_height),
        out@.len() == new_width * new_height * 3,
{
    let source = image::RgbImage::from_raw(width, height, rgb).unwrap();
    let filter = image::imageops::FilterType::Triangle;
    image::imageops::resize(&source, new_width, new_height, filter).into_raw()
}

/// The normalized value of a colour level of a channel.
pub fn normalize(level: u8, channel: usize) -> (r: Single)
    requires
        channel < 3,
    ensures
        r@ == normalized(level, channel as int),
{
    let mean: u32 = if channel == 0 {
        0x3ef8_51ec
    } else if channel == 1 {
        0x3ee9_78d5
    } else {
        0x3ecf_df3b
    };
    let deviation: u32 = if channel == 0 {
        0x3e6a_7efa
    } else if channel == 1 {
        0x3e65_6042
    } else {
        0x3e66_6666
    };
    let unit = Single::from_u32(level as u32).over(Single::from_u32(255));
    unit.minus(Single::from_bits(mean)).over(Single::from_bits(deviation))
}

/// The normalized values of all levels of all channels: entry
/// `channel * 256 + level`.
fn normalization_table() -> (table: Vec<u32>)
    ensures
        table@.len() == 768,
        forall|c: int, v: int|
            0 <= c < 3 && 0 <= v < 256 ==> denoted(#[trigger] table@[c * 256 + v]) == normalized(
                v as u8,
                c,
            ),
{
    let mut table: Vec<u32> = Vec::new();
    let mut i: usize = 0;
    while i < 768
        invariant
            i <= 768,
            table@.len() == i,
            forall|j: int|
                0 <= j < i ==> denoted(#[trigger] table@[j]) == normalized((j % 256) as u8, j / 256),
        decreases 768 - i,
    {
        let value = normalize((i % 256) as u8, i / 256);
        table.push(value.to_bits());
        i = i + 1;
    }
    assert forall|c: int, v: int| 0 <= c < 3 && 0 <= v < 256 implies denoted(
        #[trigger] table@[c * 256 + v],
    ) == normalized(v as u8, c) by {
        let j = c * 256 + v;
        assert(j % 256 == v && j / 256 == c);
    }
    table
}

/// The three colour bytes of each pixel of an image of four bytes per pixel.
fn strip_alpha(pixels: &Vec<u8>) -> (rgb: Vec<u8>)
    requires
        pixels@.len() % 4 == 0,
    ensures
        rgb@ == rgb_of(pixels@),
{
    let count = pixels.len() / 4;
    let mut rgb: Vec<u8> = Vec::new();
    let mut p: usize = 0;
    while p < count
        invariant
            p <= count,
            count == pixels@.len() / 4,
            pixels@.len() <= usize::MAX,
            pixels@.len() % 4 == 0,
            rgb@.len() == 3 * p,
            forall|k: int| 0 <= k < 3 * p ==> rgb@[k] == pixels@[k / 3 * 4 + k % 3],
        decreases count - p,
    {
        rgb.push(pixels[4 * p]);
        rgb.push(pixels[4 * p + 1]);
        rgb.push(pixels[4 * p + 2]);
        p = p + 1;
    }
    assert(rgb@ =~= rgb_of(pixels@));
    rgb
}

/// Lays a resampled image out as the detector's input: the normalized
/// levels of the red channel row by row, then green, then blue.
/// `InvalidInput` unless the image has three bytes for each of the 640 by
/// 480 pixels.
pub fn to_tensor(resized: &Vec<u8>) -> (r: Result<Tensor4, PipelineError>)
    ensures
        match r {
            Ok(tensor) => {
                &&& resized@.len() == 3 * PLANE
                &&& tensor.has_detector_shape()
                &&& forall|k: int|
                    0 <= k < 3 * PLANE ==> denoted(#[trigger] tensor.data@[k]) == tensor_entry(
                        resized@,
                        k,
                    )
            },
            Err(e) => e == PipelineError::InvalidInput && resized@.len() != 3 * PLANE,
        },
{
    if resized.len() != 3 * PLANE {
        return Err(PipelineError::InvalidInput);
    }
    let table = normalization_table();
    let mut data: Vec<u32> = Vec::new();
    let mut k: usize = 0;
    while k < 3 * PLANE
        invariant
            k <= 3 * PLANE,
            resized@.len() == 3 * PLANE,
            data@.len() == k,
            table@.len() == 768,
            forall|c: int, v: int|
                0 <= c < 3 && 0 <= v < 256 ==> denoted(#[trigger] table@[c * 256 + v])
                    == normalized(v as u8, c),
            forall|j: int| 0 <= j < k ==> denoted(#[trigger] data@[j]) == tensor_entry(resized@, j),
        decreases 3 * PLANE - k,
    {
        let channel = k / PLANE;
        let pixel = k % PLANE;
        let level = resized[pixel * 3 + channel];
        let entry = table[channel * 256 + level as usize];
        assert(denoted(table@[channel * 256 + level]) == normalized(level, channel as int));
        data.push(entry);
        k = k + 1;
    }
    Ok(Tensor4 { batch: 1, channels: 3, height: 480, width: 640, data })
}

/// Whether an image can be prepared: it has pixels, and it is not too wide
/// for the resampler's buffers to be addressed on this machine.
pub open spec fn preparable(width: nat, height: nat) -> bool {
    &&& width > 0
    &&& height > 0
    &&& width * TARGET_HEIGHT * 3 <= usize::MAX
}

/// `tensor` is the detector's input for `image`: it has the detector's
/// shape, and each entry denotes the normalized level of the image
/// resampled to 640 by 480.
pub open spec fn is_input_for(tensor: Tensor4, image: Raster) -> bool {
    &&& tensor.has_detector_shape()
    &&& forall|k: int|
        0 <= k < 3 * PLANE ==> denoted(#[trigger] tensor.data@[k]) == tensor_entry(
            resampled(
                rgb_of(image.pixels),
                image.width as u32,
                image.height as u32,
                TARGET_WIDTH,
                TARGET_HEIGHT,
            ),
            k,
        )
}

/// Where `usize` has 64 bits, every image with pixels can be prepared.
pub proof fn lemma_images_with_pixels_are_preparable(width: u32, height: u32)
    requires
        width > 0,
        height > 0,
        usize::MAX >= 0xffff_ffff_ffff_ffff,
    ensures
        preparable(width as nat, height as nat),
{
}

/// The detector's input for an image: the image resampled to 640 by 480
/// with a triangle filter, its three colour channels normalized and laid out
/// channel by channel. `InvalidInput` for an image that cannot be prepared.
pub fn prepare(image: &Image) -> (r: Result<Tensor4, PipelineError>)
    ensures
        match r {
            Ok(tensor) => preparable(image@.width, image@.height) && is_input_for(tensor, image@),
            Err(e) => e == PipelineError::InvalidInput && !preparable(
                image@.width,
                image@.height,
            ),
        },
{
    let width = image.width();
    let height = image.height();
    if width == 0 || height == 0 {
        return Err(PipelineError::InvalidInput);
    }
    if (width as u64) * 1440 > usize::MAX as u64 {
        return Err(PipelineError::InvalidInput);
    }
    let pixels = image.data();
    assert(pixels@.len() % 4 == 0 && pixels@.len() / 4 * 3 == width * height * 3)
        by (nonlinear_arith)
        requires
            pixels@.len() == width * height * 4,
    ;
    let rgb = strip_alpha(pixels);
    let resized = resample(rgb, width, height, TARGET_WIDTH, TARGET_HEIGHT);
    to_tensor(&resized)
}

} // verus!
