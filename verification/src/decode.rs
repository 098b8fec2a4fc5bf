//! Decoding the detector's raw output: which detections pass the threshold,
//! and where their boxes lie in the image that was handed in.

use vstd::prelude::*;
use crate::error::PipelineError;
use crate::single::denoted;
use crate::single::Single;
use crate::value::Value;

verus! {

/// An axis-aligned rectangle in the pixel coordinates of the image that was
/// handed in, before any resampling.
#[derive(Clone, Copy, Debug, PartialEq, Eq, Structural)]
pub struct PixelRect {
    pub x: i32,
    pub y: i32,
    pub width: u32,
    pub height: u32,
}

/// A box as the detector reports it: corner coordinates as fractions of the
/// image's width and height.
#[derive(Clone, Copy, Debug)]
pub struct NormBox {
    pub x_min: Single,
    pub y_min: Single,
    pub x_max: Single,
    pub y_max: Single,
}

/// A tensor of rank three that holds single-precision patterns row by row.
#[derive(Debug)]
pub struct Tensor3 {
    pub batch: usize,
    pub rows: usize,
    pub columns: usize,
    pub data: Vec<u32>,
}

impl Tensor3 {
    /// The data has as many entries as the shape says.
    pub open spec fn well_formed(&self) -> bool {
        self.data@.len() == self.batch * self.rows * self.columns
    }

    /// One batch of `rows` rows with `columns` entries each.
    pub open spec fn is_single_batch(&self, columns: nat) -> bool {
        &&& self.well_formed()
        &&& self.batch == 1
        &&& self.columns == columns
    }

    fn check_single_batch(&self, columns: usize) -> (ok: bool)
        requires
            columns > 0,
        ensures
            ok == self.is_single_batch(columns as nat),
    {
        let len = self.data.len();
        proof {
            let r = self.rows as int;
            let c = columns as int;
            assert(1 * r * c == r * c) by (nonlinear_arith);
            if len % columns == 0 && len / columns == self.rows {
                vstd::arithmetic::div_mod::lemma_fundamental_div_mod(len as int, c);
                assert(len == r * c) by (nonlinear_arith)
                    requires
                        len == c * (len as int / c) + (len as int % c),
                        len as int % c == 0,
                        len as int / c == r,
                ;
            }
            if len == r * c {
                crate::rounding::lemma_quotient(len as nat, columns as nat, self.rows as nat, 0);
            }
        }
        self.batch == 1 && self.columns == columns && len % columns == 0 && len / columns
            == self.rows
    }
}

/// Where a normalized box lies in an image of the given size: the corner is
/// the image's extent times the box's minimum, the size is the absolute value
/// of the extent times the box's span, each computed in single precision and
/// cut to a whole number toward zero.
pub open spec fn scaled_rect(width: u32, height: u32, b: NormBox) -> PixelRect {
    let w = Value::of_integer(width as nat);
    let h = Value::of_integer(height as nat);
    PixelRect {
        x: w.product(b.x_min@).to_i32(),
        y: h.product(b.y_min@).to_i32(),
        width: w.product(b.x_max@.difference(b.x_min@)).absolute().to_u32(),
        height: h.product(b.y_max@.difference(b.y_min@)).absolute().to_u32(),
    }
}

/// The face score of detection `i`: the second entry of its score row.
pub open spec fn face_score(scores: Seq<u32>, i: int) -> Value {
    denoted(scores[2 * i + 1])
}

/// The box of detection `i`.
pub open spec fn box_at(boxes: Seq<u32>, i: int) -> NormBox {
    NormBox {
        x_min: Single { bits: boxes[4 * i] },
        y_min: Single { bits: boxes[4 * i + 1] },
        x_max: Single { bits: boxes[4 * i + 2] },
        y_max: Single { bits: boxes[4 * i + 3] },
    }
}

/// Detection `i` passes the threshold: its face score is strictly greater.
pub open spec fn kept(scores: Seq<u32>, i: int, threshold: Value) -> bool {
    face_score(scores, i).greater(threshold)
}

/// Both scores and all four coordinates of detection `i` are finite.
pub open spec fn detection_is_finite(scores: Seq<u32>, boxes: Seq<u32>, i: int) -> bool {
    &&& denoted(scores[2 * i]).is_finite()
    &&& denoted(scores[2 * i + 1]).is_finite()
    &&& denoted(boxes[4 * i]).is_finite()
    &&& denoted(boxes[4 * i + 1]).is_finite()
    &&& denoted(boxes[4 * i + 2]).is_finite()
    &&& denoted(boxes[4 * i + 3]).is_finite()
}

/// The rectangles of those among the first `n` detections that pass the
/// threshold, in the order of the detections.
pub open spec fn rects_of(
    scores: Seq<u32>,
    boxes: Seq<u32>,
    width: u32,
    height: u32,
    threshold: Value,
    n: nat,
) -> Seq<PixelRect>
    decreases n,
{
    if n == 0 {
        Seq::empty()
    } else {
        let earlier = rects_of(scores, boxes, width, height, threshold, (n - 1) as nat);
        if kept(scores, n - 1, threshold) {
            earlier.push(scaled_rect(width, height, box_at(boxes, n - 1)))
        } else {
            earlier
        }
    }
}

/// The score tensor has shape (1, N, 2) and the box tensor (1, N, 4).
pub open spec fn shapes_agree(scores: Tensor3, boxes: Tensor3) -> bool {
    &&& scores.is_single_batch(2)
    &&& boxes.is_single_batch(4)
    &&& scores.rows == boxes.rows
}

/// What decoding yields: an error where the shapes disagree or where a
/// detection that passes the threshold holds a value that is not finite,
/// else the rectangles of all detections that pass.
pub open spec fn decoded(
    scores: Tensor3,
    boxes: Tensor3,
    width: u32,
    height: u32,
    threshold: Value,
) -> Result<Seq<PixelRect>, PipelineError> {
    if !shapes_agree(scores, boxes) {
        Err(PipelineError::ShapeMismatch)
    } else if exists|i: int|
        0 <= i < scores.rows && kept(scores.data@, i, threshold) && !detection_is_finite(
            scores.data@,
            boxes.data@,
            i,
        ) {
        Err(PipelineError::InvalidOutput)
    } else {
        Ok(rects_of(scores.data@, boxes.data@, width, height, threshold, scores.rows as nat))
    }
}

/// `r` is what decoding yields for these tensors, size and threshold.
pub open spec fn is_decoding(
    r: Result<Vec<PixelRect>, PipelineError>,
    scores: Tensor3,
    boxes: Tensor3,
    width: u32,
    height: u32,
    threshold: Value,
) -> bool {
    match r {
        Ok(rects) => decoded(scores, boxes, width, height, threshold) == Ok::<
            Seq<PixelRect>,
            PipelineError,
        >(rects@),
        Err(e) => decoded(scores, boxes, width, height, threshold) == Err::<
            Seq<PixelRect>,
            PipelineError,
        >(e),
    }
}

/// The indices of those among the first `n` detections that pass the
/// threshold, in ascending order.
pub open spec fn kept_indices(scores: Seq<u32>, threshold: Value, n: nat) -> Seq<int>
    decreases n,
{
    if n == 0 {
        Seq::empty()
    } else {
        let earlier = kept_indices(scores, threshold, (n - 1) as nat);
        if kept(scores, n - 1, threshold) {
            earlier.push(n - 1)
        } else {
            earlier
        }
    }
}

/// The decoded rectangles are those of the detections whose face score is
/// strictly greater than the threshold, each once and in the detector's
/// order: rectangle `j` belongs to the `j`-th such detection, and no such
/// detection is left out. So there are never more rectangles than detections.
pub proof fn lemma_rects_are_the_kept_detections(
    scores: Seq<u32>,
    boxes: Seq<u32>,
    width: u32,
    height: u32,
    threshold: Value,
    n: nat,
)
    ensures
        ({
            let indices = kept_indices(scores, threshold, n);
            let rects = rects_of(scores, boxes, width, height, threshold, n);
            &&& rects.len() == indices.len()
            &&& rects.len() <= n
            &&& forall|j: int|
                0 <= j < indices.len() ==> 0 <= #[trigger] indices[j] < n && kept(
                    scores,
                    indices[j],
                    threshold,
                ) && rects[j] == scaled_rect(width, height, box_at(boxes, indices[j]))
            &&& forall|j: int, k: int|
                0 <= j < k < indices.len() ==> #[trigger] indices[j] < #[trigger] indices[k]
            &&& forall|i: int|
                0 <= i < n && kept(scores, i, threshold) ==> exists|j: int|
                    0 <= j < indices.len() && #[trigger] indices[j] == i
        }),
    decreases n,
{
    if n > 0 {
        let m = (n - 1) as nat;
        lemma_rects_are_the_kept_detections(scores, boxes, width, height, threshold, m);
        let before = kept_indices(scores, threshold, m);
        let indices = kept_indices(scores, threshold, n);
        assert forall|i: int| 0 <= i < n && kept(scores, i, threshold) implies exists|j: int|
            0 <= j < indices.len() && #[trigger] indices[j] == i by {
            if i < m {
                let j = choose|j: int| 0 <= j < before.len() && #[trigger] before[j] == i;
                assert(indices[j] == i);
            } else {
                assert(indices[indices.len() - 1] == i);
            }
        }
    }
}

/// Decoding is a function of its inputs: two results for the same tensors,
/// size and threshold are the same, rectangle by rectangle or error by error.
pub proof fn lemma_decode_is_deterministic(
    first: Result<Vec<PixelRect>, PipelineError>,
    second: Result<Vec<PixelRect>, PipelineError>,
    scores: Tensor3,
    boxes: Tensor3,
    width: u32,
    height: u32,
    threshold: Value,
)
    requires
        is_decoding(first, scores, boxes, width, height, threshold),
        is_decoding(second, scores, boxes, width, height, threshold),
    ensures
        first is Ok <==> second is Ok,
        first is Ok ==> first->Ok_0@ == second->Ok_0@,
        first is Err ==> first->Err_0 == second->Err_0,
{
}

/// Maps a normalized box to pixel coordinates of an image of the given size.
pub fn scale(width: u32, height: u32, abox: &NormBox) -> (rect: PixelRect)
    ensures
        rect == scaled_rect(width, height, *abox),
{
    let w = Single::from_u32(width);
    let h = Single::from_u32(height);
    let span_x = abox.x_max.minus(abox.x_min);
    let span_y = abox.y_max.minus(abox.y_min);
    PixelRect {
        x: w.times(abox.x_min).to_i32(),
        y: h.times(abox.y_min).to_i32(),
        width: w.times(span_x).abs().to_u32(),
        height: h.times(span_y).abs().to_u32(),
    }
}

/// Decodes the detector's output for an image of the given size: the
/// rectangles of the detections whose face score is strictly greater than
/// the threshold, in the detector's order.
pub fn decode(
    scores: &Tensor3,
    boxes: &Tensor3,
    original_width: u32,
    original_height: u32,
    threshold: Single,
) -> (r: Result<Vec<PixelRect>, PipelineError>)
    ensures
        is_decoding(r, *scores, *boxes, original_width, original_height, threshold@),
{
    if !scores.check_single_batch(2) || !boxes.check_single_batch(4) || scores.rows != boxes.rows {
        return Err(PipelineError::ShapeMismatch);
    }
    let n = scores.rows;
    assert(scores.data@.len() == 2 * n && boxes.data@.len() == 4 * n) by (nonlinear_arith)
        requires
            scores.data@.len() == 1 * n * 2,
            boxes.data@.len() == 1 * n * 4,
    ;
    assert(4 * n <= usize::MAX) by {
        assert(boxes.data.len() <= usize::MAX);
    }
    let mut rects: Vec<PixelRect> = Vec::new();
    let mut i: usize = 0;
    while i < n
        invariant
            i <= n,
            n == scores.rows,
            4 * n <= usize::MAX,
            shapes_agree(*scores, *boxes),
            scores.data@.len() == 2 * n,
            boxes.data@.len() == 4 * n,
            rects@ == rects_of(
                scores.data@,
                boxes.data@,
                original_width,
                original_height,
                threshold@,
                i as nat,
            ),
            forall|j: int|
                0 <= j < i && kept(scores.data@, j, threshold@) ==> detection_is_finite(
                    scores.data@,
                    boxes.data@,
                    j,
                ),
        decreases n - i,
    {
        let face = Single::from_bits(scores.data[2 * i + 1]);
        if face.gt(threshold) {
            let background = Single::from_bits(scores.data[2 * i]);
            let abox = NormBox {
                x_min: Single::from_bits(boxes.data[4 * i]),
                y_min: Single::from_bits(boxes.data[4 * i + 1]),
                x_max: Single::from_bits(boxes.data[4 * i + 2]),
                y_max: Single::from_bits(boxes.data[4 * i + 3]),
            };
            if !(background.is_finite() && face.is_finite() && abox.x_min.is_finite()
                && abox.y_min.is_finite() && abox.x_max.is_finite() && abox.y_max.is_finite()) {
                assert(kept(scores.data@, i as int, threshold@) && !detection_is_finite(
                    scores.data@,
                    boxes.data@,
                    i as int,
                ));
                return Err(PipelineError::InvalidOutput);
            }
            assert(abox == box_at(boxes.data@, i as int));
            let rect = scale(original_width, original_height, &abox);
            rects.push(rect);
        }
        i = i + 1;
    }
    Ok(rects)
}

} // verus!
