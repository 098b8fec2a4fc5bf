use ultraface::decode::PixelRect;
use ultraface::error::PipelineError;
use ultraface::raster::annotate;
use ultraface::raster::Image;

fn rect(x: i32, y: i32, width: u32, height: u32) -> PixelRect {
    PixelRect { x, y, width, height }
}

/// An image whose bytes all differ from white and from their neighbours.
fn patterned(width: u32, height: u32) -> Image {
    let len = width as usize * height as usize * 4;
    let data: Vec<u8> = (0..len).map(|k| (k % 251) as u8).collect();
    Image::new(width, height, data).unwrap()
}

/// The outline drawn pixel by pixel, from the definition.
fn expected(image: &Image, rects: &[PixelRect]) -> Vec<u8> {
    let mut data = image.data().clone();
    let width = image.width() as i64;
    for k in 0..data.len() {
        let x = (k / 4) as i64 % width;
        let y = (k / 4) as i64 / width;
        for r in rects {
            let right = r.x as i64 + r.width as i64 - 1;
            let bottom = r.y as i64 + r.height as i64 - 1;
            let inside = r.x as i64 <= x && x <= right && r.y as i64 <= y && y <= bottom;
            let edge = x == r.x as i64 || x == right || y == r.y as i64 || y == bottom;
            if r.width > 0 && r.height > 0 && inside && edge {
                data[k] = 255;
            }
        }
    }
    data
}

fn white_pixels(image: &Image) -> Vec<(u32, u32)> {
    let mut found = Vec::new();
    for y in 0..image.height() {
        for x in 0..image.width() {
            let k = (y as usize * image.width() as usize + x as usize) * 4;
            if image.data()[k..k + 4] == [255, 255, 255, 255] {
                found.push((x, y));
            }
        }
    }
    found
}

#[test]
fn annotate_draws_a_hollow_rectangle() {
    let image = patterned(5, 5);
    let out = annotate(&image, &vec![rect(2, 2, 3, 3)]);
    assert_eq!(
        white_pixels(&out),
        vec![(2, 2), (3, 2), (4, 2), (2, 3), (4, 3), (2, 4), (3, 4), (4, 4)]
    );
    // The pixel inside and all pixels outside stay as they were.
    for k in 0..image.data().len() {
        let (x, y) = ((k / 4) % 5, (k / 4) / 5);
        if x < 2 || y < 2 || (x == 3 && y == 3) {
            assert_eq!(out.data()[k], image.data()[k]);
        }
    }
}

#[test]
fn annotate_keeps_the_size_and_the_input() {
    let image = patterned(7, 3);
    let before = image.data().clone();
    for rects in [vec![], vec![rect(1, 1, 2, 2)], vec![rect(-5, -5, 100, 100), rect(0, 0, 7, 3)]] {
        let out = annotate(&image, &rects);
        assert_eq!((out.width(), out.height()), (7, 3));
        assert_eq!(out.data().len(), 7 * 3 * 4);
        assert_eq!(image.data(), &before);
    }
}

#[test]
fn annotate_without_rectangles_changes_nothing() {
    let image = patterned(4, 6);
    let out = annotate(&image, &Vec::new());
    assert_eq!(out.data(), image.data());
}

#[test]
fn annotate_clips_at_the_border() {
    let image = patterned(6, 6);
    let out = annotate(&image, &vec![rect(-2, -2, 5, 5)]);
    assert_eq!(white_pixels(&out), vec![(2, 0), (2, 1), (0, 2), (1, 2), (2, 2)]);
    let out = annotate(&image, &vec![rect(4, 3, 10, 10)]);
    assert_eq!(white_pixels(&out), vec![(4, 3), (5, 3), (4, 4), (4, 5)]);
    // Wholly outside.
    for r in [rect(6, 0, 3, 3), rect(0, 6, 3, 3), rect(-3, 0, 3, 3), rect(0, -3, 3, 3), rect(-9, -9, 2, 2)] {
        assert_eq!(annotate(&image, &vec![r]).data(), image.data());
    }
    // Around the image: the outline lies outside on all four sides.
    assert_eq!(annotate(&image, &vec![rect(-1, -1, 8, 8)]).data(), image.data());
}

#[test]
fn annotate_skips_a_rectangle_without_extent() {
    let image = patterned(6, 6);
    for r in [rect(2, 2, 0, 3), rect(2, 2, 3, 0), rect(2, 2, 0, 0)] {
        assert_eq!(annotate(&image, &vec![r]).data(), image.data());
    }
}

#[test]
fn annotate_draws_thin_rectangles() {
    let image = patterned(6, 6);
    assert_eq!(white_pixels(&annotate(&image, &vec![rect(3, 4, 1, 1)])), vec![(3, 4)]);
    assert_eq!(white_pixels(&annotate(&image, &vec![rect(1, 2, 3, 1)])), vec![(1, 2), (2, 2), (3, 2)]);
    assert_eq!(white_pixels(&annotate(&image, &vec![rect(5, 3, 1, 9)])), vec![(5, 3), (5, 4), (5, 5)]);
    assert_eq!(
        white_pixels(&annotate(&image, &vec![rect(1, 1, 2, 2)])),
        vec![(1, 1), (2, 1), (1, 2), (2, 2)]
    );
}

#[test]
fn annotate_takes_rectangles_at_the_ends_of_the_range() {
    let image = patterned(6, 4);
    // One row through the whole range of columns.
    let out = annotate(&image, &vec![rect(i32::MIN, 1, u32::MAX, 1)]);
    assert_eq!(white_pixels(&out), vec![(0, 1), (1, 1), (2, 1), (3, 1), (4, 1), (5, 1)]);
    let out = annotate(&image, &vec![rect(2, i32::MIN, 1, u32::MAX)]);
    assert_eq!(white_pixels(&out), vec![(2, 0), (2, 1), (2, 2), (2, 3)]);
    // Past the largest coordinate.
    for r in [
        rect(i32::MAX, i32::MAX, u32::MAX, u32::MAX),
        rect(i32::MIN, i32::MIN, u32::MAX, u32::MAX),
        rect(i32::MAX, 0, 1, 1),
        rect(3, 3, u32::MAX, u32::MAX),
    ] {
        assert_eq!(annotate(&image, &vec![r]).data(), &expected(&image, &[r]));
    }
    assert_eq!(white_pixels(&annotate(&image, &vec![rect(3, 3, u32::MAX, u32::MAX)])), vec![(3, 3), (4, 3), (5, 3)]);
}

#[test]
fn annotate_agrees_with_the_definition() {
    let mut state: u64 = 0x4d59_5df4_d0f3_3173;
    let mut next = move || {
        state ^= state << 13;
        state ^= state >> 7;
        state ^= state << 17;
        (state >> 11) as u32
    };
    for _ in 0..300 {
        let width = next() % 20;
        let height = next() % 20;
        let image = patterned(width, height);
        let mut rects = Vec::new();
        for _ in 0..next() % 4 {
            rects.push(rect(
                (next() % 40) as i32 - 10,
                (next() % 40) as i32 - 10,
                next() % 30,
                next() % 30,
            ));
        }
        let out = annotate(&image, &rects);
        assert_eq!((out.width(), out.height()), (width, height));
        assert_eq!(out.data(), &expected(&image, &rects), "{}x{} {:?}", width, height, rects);
    }
}

#[test]
fn annotate_on_an_image_wider_than_single_precision_counts() {
    let width: u32 = 16_777_219;
    let image = Image::new(width, 1, vec![7u8; width as usize * 4]).unwrap();
    let out = annotate(&image, &vec![rect(16_777_217, 0, 1, 1), rect(-4, -4, 6, 6)]);
    assert_eq!((out.width(), out.height()), (width, 1));
    let data = out.data();
    let whites: Vec<usize> = (0..width as usize).filter(|p| data[p * 4] == 255).collect();
    assert_eq!(whites, vec![1, 16_777_217]);
    assert_eq!(&data[16_777_217 * 4..16_777_218 * 4], &[255, 255, 255, 255]);
    assert_eq!(&data[16_777_216 * 4..16_777_217 * 4], &[7, 7, 7, 7]);
    assert_eq!(&data[16_777_218 * 4..], &[7, 7, 7, 7]);
}

#[test]
fn image_needs_four_bytes_for_each_pixel() {
    assert!(Image::new(2, 3, vec![0; 24]).is_ok());
    assert!(Image::new(0, 0, Vec::new()).is_ok());
    assert!(Image::new(0, 9, Vec::new()).is_ok());
    for len in [0, 23, 25, 6, 18] {
        match Image::new(2, 3, vec![0; len]) {
            Err(e) => assert_eq!(e, PipelineError::InvalidInput),
            Ok(_) => panic!("accepted {} bytes", len),
        }
    }
    let image = Image::new(2, 1, vec![1, 2, 3, 4, 5, 6, 7, 8]).unwrap();
    assert_eq!((image.width(), image.height()), (2, 1));
    assert_eq!(image.data(), &vec![1, 2, 3, 4, 5, 6, 7, 8]);
    assert_eq!(image.into_raw(), vec![1, 2, 3, 4, 5, 6, 7, 8]);
}
