//! The pipeline as a whole: prepare, run the detector, decode, annotate.

use vstd::prelude::*;
use crate::decode::decode;
use crate::decode::decoded;
use crate::decode::scaled_rect;
use crate::decode::NormBox;
use crate::decode::PixelRect;
use crate::decode::Tensor3;
use crate::error::PipelineError;
use crate::prepare::prepare;
use crate::prepare::is_input_for;
use crate::prepare::preparable;
use crate::prepare::Tensor4;
use crate::raster::annotate;
use crate::raster::annotated;
use crate::raster::Image;
use crate::raster::Raster;
use crate::single::Single;
use crate::value::Value;

verus! {

/// What the detector hands back for one input: a score tensor of shape
/// (1, N, 2) and a box tensor of shape (1, N, 4), row `i` of both describing
/// detection `i`.
#[derive(Debug)]
pub struct RawOutput {
    pub scores: Tensor3,
    pub boxes: Tensor3,
}

/// The inference engine: whatever maps the detector's input to its output.
/// Nothing is assumed of what it returns; `None` says that it could not run.
pub trait Engine {
    fn run(&self, input: &Tensor4) -> (outcome: Option<RawOutput>)
        requires
            input.has_detector_shape(),
    ;
}

/// The face detector's settings.
#[derive(Clone, Copy, Debug)]
pub struct UltraFace {
    /// A detection counts as a face where its face score is strictly
    /// greater than this.
    pub threshold: Single,
}

/// What the pipeline yields for an image once the engine has answered:
/// `EngineFailure` where it could not run, the decoder's error where it has
/// one, else the image with every decoded rectangle outlined.
pub open spec fn concluded(image: Raster, outcome: Option<RawOutput>, threshold: Value) -> Result<
    Raster,
    PipelineError,
> {
    match outcome {
        None => Err(PipelineError::EngineFailure),
        Some(output) => match decoded(
            output.scores,
            output.boxes,
            image.width as u32,
            image.height as u32,
            threshold,
        ) {
            Err(e) => Err(e),
            Ok(rects) => Ok(
                Raster {
                    width: image.width,
                    height: image.height,
                    pixels: annotated(image.pixels, image.width, rects),
                },
            ),
        },
    }
}

/// `r` is the result that the pipeline owes where `owed` is what it yields.
pub open spec fn is_conclusion(r: Result<Image, PipelineError>, owed: Result<Raster, PipelineError>) -> bool {
    match r {
        Ok(out) => owed == Ok::<Raster, PipelineError>(out@),
        Err(e) => owed == Err::<Raster, PipelineError>(e),
    }
}

impl UltraFace {
    /// The pattern of 0.9 in single precision, the threshold by default.
    pub open spec fn default_threshold_bits() -> u32 {
        0x3f66_6666
    }

    /// A detector with the threshold 0.9.
    pub fn new() -> (r: UltraFace)
        ensures
            r.threshold.bits == Self::default_threshold_bits(),
    {
        UltraFace { threshold: Single::from_bits(0x3f66_6666) }
    }

    /// Maps a normalized box to pixel coordinates of an image of the given
    /// size.
    pub fn scale(width: u32, height: u32, abox: &NormBox) -> (rect: PixelRect)
        ensures
            rect == scaled_rect(width, height, *abox),
    {
        crate::decode::scale(width, height, abox)
    }

    /// The second half of the pipeline: decodes what the engine returned for
    /// the image and outlines the detected faces on a copy of it.
    pub fn conclude(&self, image: &Image, outcome: Option<RawOutput>) -> (r: Result<
        Image,
        PipelineError,
    >)
        ensures
            is_conclusion(r, concluded(image@, outcome, self.threshold@)),
    {
        match outcome {
            None => Err(PipelineError::EngineFailure),
            Some(output) => {
                let rects = decode(
                    &output.scores,
                    &output.boxes,
                    image.width(),
                    image.height(),
                    self.threshold,
                );
                match rects {
                    Err(e) => Err(e),
                    Ok(rects) => {
                        let out = annotate(image, &rects);
                        Ok(out)
                    },
                }
            },
        }
    }

    /// The whole pipeline for one image. An image that cannot be prepared
    /// is refused before the engine runs; otherwise the engine is run on the
    /// detector's input for the image, and the result is what `conclude`
    /// makes of its answer.
    pub fn process<E: Engine>(&self, engine: &E, image: &Image) -> (r: Result<Image, PipelineError>)
        ensures
            !preparable(image@.width, image@.height) ==> r == Err::<Image, PipelineError>(
                PipelineError::InvalidInput,
            ),
            preparable(image@.width, image@.height) ==> exists|
                input: Tensor4,
                outcome: Option<RawOutput>,
            |
                {
                    &&& is_input_for(input, image@)
                    &&& #[trigger] call_ensures(E::run, (engine, &input), outcome)
                    &&& is_conclusion(r, concluded(image@, outcome, self.threshold@))
                },
    {
        let input = match prepare(image) {
            Err(e) => {
                return Err(e);
            },
            Ok(input) => input,
        };
        let outcome = engine.run(&input);
        let ghost answered = outcome;
        let r = self.conclude(image, outcome);
        proof {
            assert(is_input_for(input, image@));
            assert(call_ensures(E::run, (engine, &input), answered));
            assert(is_conclusion(r, concluded(image@, answered, self.threshold@)));
        }
        r
    }
}

impl Default for UltraFace {
    fn default() -> (r: UltraFace)
        ensures
            r.threshold.bits == UltraFace::default_threshold_bits(),
    {
        UltraFace::new()
    }
}

} // verus!
