use ultraface::error::PipelineError;
use ultraface::prepare::normalize;
use ultraface::prepare::prepare;
use ultraface::prepare::to_tensor;
use ultraface::prepare::Tensor4;
use ultraface::raster::Image;

const MEAN: [f32; 3] = [0.485, 0.456, 0.406];
const STD: [f32; 3] = [0.229, 0.224, 0.225];

fn patterned(width: u32, height: u32) -> Image {
    let len = width as usize * height as usize * 4;
    let data: Vec<u8> = (0..len).map(|k| ((k * 7 + k / 13) % 256) as u8).collect();
    Image::new(width, height, data).unwrap()
}

fn has_detector_shape(t: &Tensor4) -> bool {
    (t.batch, t.channels, t.height, t.width) == (1, 3, 480, 640) && t.data.len() == 3 * 480 * 640
}

/// The tensor as the image crate and single-precision hardware give it.
fn reference(image: &Image) -> Vec<u32> {
    let rgba = image::RgbaImage::from_raw(image.width(), image.height(), image.data().clone()).unwrap();
    let rgb = image::DynamicImage::ImageRgba8(rgba).to_rgb8();
    let resized = image::imageops::resize(&rgb, 640, 480, image::imageops::FilterType::Triangle);
    let mut out = Vec::with_capacity(3 * 480 * 640);
    for c in 0..3usize {
        for y in 0..480u32 {
            for x in 0..640u32 {
                let level = resized.get_pixel(x, y)[c];
                out.push(((level as f32 / 255.0 - MEAN[c]) / STD[c]).to_bits());
            }
        }
    }
    out
}

#[test]
fn normalize_agrees_with_hardware() {
    for c in 0..3usize {
        for level in 0..=255u8 {
            let native = (level as f32 / 255.0 - MEAN[c]) / STD[c];
            assert_eq!(normalize(level, c).to_bits(), native.to_bits(), "{} {}", level, c);
        }
    }
}

#[test]
fn normalize_exact_values() {
    // (0 / 255 - 0.485) / 0.229 and (255 / 255 - 0.406) / 0.225.
    assert_eq!(normalize(0, 0).to_bits(), (-0.485f32 / 0.229f32).to_bits());
    assert_eq!(normalize(0, 0).to_bits(), 0xc007_8bbd);
    assert_eq!(normalize(255, 2).to_bits(), ((1.0f32 - 0.406f32) / 0.225f32).to_bits());
    assert_eq!(normalize(255, 2).to_bits(), 0x4028_f5c3);
    assert_eq!(normalize(128, 1).to_bits(), ((128f32 / 255.0 - 0.456f32) / 0.224f32).to_bits());
    assert_eq!(normalize(128, 1).to_bits(), 0x3e52_1b48);
}

#[test]
fn prepare_yields_the_detector_shape() {
    for (width, height) in [(1, 1), (640, 480), (1000, 800), (37, 911), (3, 2000), (1281, 5)] {
        let tensor = prepare(&patterned(width, height)).unwrap();
        assert!(has_detector_shape(&tensor), "{}x{}", width, height);
    }
}

#[test]
fn prepare_refuses_an_image_without_pixels() {
    for (width, height) in [(0, 0), (0, 5), (7, 0)] {
        let image = Image::new(width, height, Vec::new()).unwrap();
        match prepare(&image) {
            Err(e) => assert_eq!(e, PipelineError::InvalidInput),
            Ok(_) => panic!("prepared {}x{}", width, height),
        }
    }
}

#[test]
fn prepare_agrees_with_the_image_crate() {
    for (width, height) in [(640, 480), (1000, 800), (50, 40), (1, 1), (333, 777)] {
        let image = patterned(width, height);
        let tensor = prepare(&image).unwrap();
        assert!(tensor.data == reference(&image), "{}x{}", width, height);
    }
}

#[test]
fn prepare_of_one_colour_is_that_colour_everywhere() {
    let mut data = Vec::new();
    for _ in 0..12 * 9 {
        data.extend_from_slice(&[200, 100, 50, 255]);
    }
    let tensor = prepare(&Image::new(12, 9, data).unwrap()).unwrap();
    let plane = 480 * 640;
    for (c, level) in [200u8, 100, 50].iter().enumerate() {
        let wanted = normalize(*level, c).to_bits();
        assert!(tensor.data[c * plane..(c + 1) * plane].iter().all(|v| *v == wanted));
    }
}

#[test]
fn prepare_ignores_alpha() {
    let image = patterned(30, 20);
    let mut data = image.data().clone();
    for k in (3..data.len()).step_by(4) {
        data[k] = data[k].wrapping_mul(31).wrapping_add(5);
    }
    let other = Image::new(30, 20, data).unwrap();
    assert!(prepare(&image).unwrap().data == prepare(&other).unwrap().data);
}

#[test]
fn to_tensor_lays_the_channels_out_one_after_the_other() {
    let plane = 480 * 640;
    let resized: Vec<u8> = (0..3 * plane).map(|k| ((k * 5 + k / 640) % 256) as u8).collect();
    let tensor = to_tensor(&resized).unwrap();
    assert!(has_detector_shape(&tensor));
    for (c, y, x) in [(0, 0, 0), (1, 0, 0), (2, 0, 0), (0, 479, 639), (2, 479, 639), (1, 240, 320), (2, 17, 601)] {
        let level = resized[(y * 640 + x) * 3 + c];
        assert_eq!(tensor.data[(c * 480 + y) * 640 + x], normalize(level, c).to_bits());
    }
    for k in 0..3 * plane {
        let (c, p) = (k / plane, k % plane);
        assert_eq!(tensor.data[k], normalize(resized[p * 3 + c], c).to_bits());
    }
}

#[test]
fn to_tensor_refuses_another_size() {
    for len in [0, 1, 3 * 480 * 640 - 1, 3 * 480 * 640 + 1, 4 * 480 * 640] {
        match to_tensor(&vec![0u8; len]) {
            Err(e) => assert_eq!(e, PipelineError::InvalidInput),
            Ok(_) => panic!("accepted {} bytes", len),
        }
    }
}
