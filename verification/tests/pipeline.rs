use std::cell::Cell;
use ultraface::decode::Tensor3;
use ultraface::error::PipelineError;
use ultraface::pipeline::Engine;
use ultraface::pipeline::RawOutput;
use ultraface::pipeline::UltraFace;
use ultraface::prepare::Tensor4;
use ultraface::raster::Image;
use ultraface::single::Single;

/// An engine that reports given detections and counts its runs.
struct Fixed {
    scores: Vec<[f32; 2]>,
    boxes: Vec<[f32; 4]>,
    runs: Cell<usize>,
}

impl Fixed {
    fn new(scores: Vec<[f32; 2]>, boxes: Vec<[f32; 4]>) -> Fixed {
        Fixed { scores, boxes, runs: Cell::new(0) }
    }

    fn output(&self) -> RawOutput {
        let scores: Vec<u32> = self.scores.iter().flatten().map(|v| v.to_bits()).collect();
        let boxes: Vec<u32> = self.boxes.iter().flatten().map(|v| v.to_bits()).collect();
        RawOutput {
            scores: Tensor3 { batch: 1, rows: self.scores.len(), columns: 2, data: scores },
            boxes: Tensor3 { batch: 1, rows: self.boxes.len(), columns: 4, data: boxes },
        }
    }
}

impl Engine for Fixed {
    fn run(&self, input: &Tensor4) -> Option<RawOutput> {
        assert_eq!((input.batch, input.channels, input.height, input.width), (1, 3, 480, 640));
        assert_eq!(input.data.len(), 3 * 480 * 640);
        self.runs.set(self.runs.get() + 1);
        Some(self.output())
    }
}

/// An engine that cannot run.
struct Broken;

impl Engine for Broken {
    fn run(&self, _input: &Tensor4) -> Option<RawOutput> {
        None
    }
}

fn grey(width: u32, height: u32) -> Image {
    Image::new(width, height, vec![90u8; width as usize * height as usize * 4]).unwrap()
}

fn is_white(image: &Image, x: u32, y: u32) -> bool {
    let k = (y as usize * image.width() as usize + x as usize) * 4;
    image.data()[k..k + 4] == [255, 255, 255, 255]
}

#[test]
fn default() {
    let ultraface = UltraFace::default();
    assert_eq!(ultraface.threshold.to_bits(), 0.9f32.to_bits());
    assert_eq!(UltraFace::new().threshold.to_bits(), 0.9f32.to_bits());
    let engine = Fixed::new(vec![[0.1, 0.9], [0.05, 0.95]], vec![[0.0, 0.0, 0.5, 0.5], [0.5, 0.5, 0.75, 0.75]]);
    let out = ultraface.process(&engine, &grey(80, 80)).unwrap();
    assert_eq!((out.width(), out.height()), (80, 80));
    // Only the second detection is above 0.9.
    assert!(is_white(&out, 40, 40) && is_white(&out, 59, 59) && !is_white(&out, 0, 0));
}

#[test]
fn process_outlines_the_known_face() {
    let engine = Fixed::new(vec![[0.05, 0.95]], vec![[0.3, 0.25, 0.6, 0.75]]);
    let image = grey(1000, 800);
    let out = UltraFace::new().process(&engine, &image).unwrap();
    assert_eq!((out.width(), out.height()), (1000, 800));
    assert_eq!(engine.runs.get(), 1);
    // Exactly the outline of the rectangle at (300, 200) of size (300, 400) is white.
    let mut count = 0;
    for y in 0..800 {
        for x in 0..1000 {
            let inside = (300..600).contains(&x) && (200..600).contains(&y);
            let edge = x == 300 || x == 599 || y == 200 || y == 599;
            assert_eq!(is_white(&out, x, y), inside && edge, "({}, {})", x, y);
            if inside && edge {
                count += 1;
            } else {
                let k = (y as usize * 1000 + x as usize) * 4;
                assert_eq!(out.data()[k..k + 4], [90, 90, 90, 90]);
            }
        }
    }
    assert_eq!(count, 2 * 300 + 2 * 398);
    // The input is as it was.
    assert!(image.data().iter().all(|v| *v == 90));
}

#[test]
fn process_without_faces_returns_a_copy() {
    let engine = Fixed::new(vec![[0.6, 0.4], [0.1, 0.9]], vec![[0.1, 0.1, 0.2, 0.2], [0.3, 0.3, 0.4, 0.4]]);
    let image = grey(64, 48);
    let out = UltraFace::new().process(&engine, &image).unwrap();
    assert_eq!(out.data(), image.data());
}

#[test]
fn process_keeps_overlapping_detections() {
    let engine = Fixed::new(
        vec![[0.01, 0.99], [0.02, 0.98]],
        vec![[0.25, 0.25, 0.75, 0.75], [0.26, 0.25, 0.75, 0.75]],
    );
    let out = UltraFace::new().process(&engine, &grey(100, 100)).unwrap();
    assert!(is_white(&out, 25, 50) && is_white(&out, 26, 50) && !is_white(&out, 27, 50));
}

#[test]
fn process_refuses_an_image_without_pixels_before_the_engine_runs() {
    let engine = Fixed::new(vec![[0.05, 0.95]], vec![[0.3, 0.25, 0.6, 0.75]]);
    let image = Image::new(0, 0, Vec::new()).unwrap();
    match UltraFace::new().process(&engine, &image) {
        Err(e) => assert_eq!(e, PipelineError::InvalidInput),
        Ok(_) => panic!("processed an empty image"),
    }
    assert_eq!(engine.runs.get(), 0);
}

#[test]
fn process_reports_an_engine_that_cannot_run() {
    match UltraFace::new().process(&Broken, &grey(10, 10)) {
        Err(e) => assert_eq!(e, PipelineError::EngineFailure),
        Ok(_) => panic!("processed without an engine"),
    }
}

#[test]
fn process_reports_what_the_decoder_refuses() {
    let engine = Fixed::new(vec![[0.05, 0.95], [0.5, 0.5]], vec![[0.3, 0.25, 0.6, 0.75]]);
    match UltraFace::new().process(&engine, &grey(10, 10)) {
        Err(e) => assert_eq!(e, PipelineError::ShapeMismatch),
        Ok(_) => panic!("decoded tensors that disagree"),
    }
    let engine = Fixed::new(vec![[0.05, 0.95]], vec![[0.3, f32::NAN, 0.6, 0.75]]);
    match UltraFace::new().process(&engine, &grey(10, 10)) {
        Err(e) => assert_eq!(e, PipelineError::InvalidOutput),
        Ok(_) => panic!("decoded a box that is not finite"),
    }
}

#[test]
fn conclude_uses_the_threshold_of_the_detector() {
    let engine = Fixed::new(vec![[0.4, 0.6]], vec![[0.0, 0.0, 1.0, 1.0]]);
    let image = grey(4, 4);
    let strict = UltraFace::new();
    assert_eq!(strict.conclude(&image, Some(engine.output())).unwrap().data(), image.data());
    let lenient = UltraFace { threshold: Single::from_bits(0.5f32.to_bits()) };
    let out = lenient.conclude(&image, Some(engine.output())).unwrap();
    assert!(is_white(&out, 0, 0) && is_white(&out, 3, 3) && !is_white(&out, 1, 1));
    match strict.conclude(&image, None) {
        Err(e) => assert_eq!(e, PipelineError::EngineFailure),
        Ok(_) => panic!("concluded without an outcome"),
    }
}

/// An engine that keeps what it was handed.
struct Recording {
    seen: std::cell::RefCell<Vec<Vec<u32>>>,
}

impl Engine for Recording {
    fn run(&self, input: &Tensor4) -> Option<RawOutput> {
        self.seen.borrow_mut().push(input.data.clone());
        None
    }
}

#[test]
fn process_hands_the_prepared_tensor_to_the_engine() {
    let data: Vec<u8> = (0..50 * 30 * 4).map(|k| ((k * 11 + k / 7) % 256) as u8).collect();
    let image = Image::new(50, 30, data).unwrap();
    let engine = Recording { seen: std::cell::RefCell::new(Vec::new()) };
    match UltraFace::new().process(&engine, &image) {
        Err(e) => assert_eq!(e, PipelineError::EngineFailure),
        Ok(_) => panic!("processed without an answer"),
    }
    let seen = engine.seen.borrow();
    assert_eq!(seen.len(), 1);
    assert!(seen[0] == ultraface::prepare::prepare(&image).unwrap().data);
}
