//! The ways in which the pipeline fails.

use vstd::prelude::*;

verus! {

/// Why no annotated image could be produced. None of these is worth a
/// second try: the detector is deterministic.
#[derive(Clone, Copy, Debug, PartialEq, Eq, Structural)]
pub enum PipelineError {
    /// The image is malformed or has no pixels.
    InvalidInput,
    /// The inference engine could not run.
    EngineFailure,
    /// The score and box tensors do not describe the same detections.
    ShapeMismatch,
    /// A detection above the threshold holds a value that is not finite.
    InvalidOutput,
}

impl PipelineError {
    /// The description of each failure.
    pub open spec fn description(self) -> Seq<char> {
        match self {
            PipelineError::InvalidInput => "invalid input image"@,
            PipelineError::EngineFailure => "the inference engine failed"@,
            PipelineError::ShapeMismatch => "score and box tensors disagree in shape"@,
            PipelineError::InvalidOutput => "a detection holds a value that is not finite"@,
        }
    }

    /// A short description for messages.
    pub fn message(&self) -> (text: String)
        ensures
            text@ == self.description(),
    {
        match self {
            PipelineError::InvalidInput => "invalid input image".to_string(),
            PipelineError::EngineFailure => "the inference engine failed".to_string(),
            PipelineError::ShapeMismatch => "score and box tensors disagree in shape".to_string(),
            PipelineError::InvalidOutput => "a detection holds a value that is not finite".to_string(),
        }
    }
}

} // verus!
