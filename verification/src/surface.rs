//! The per-pixel text probability surface consumed by the region extractor.

use vstd::prelude::*;

use crate::errors::OcrError;

verus! {

/// Fixed-point scale: a probability of one. A probability `p` in `[0, 1]`
/// is represented by the integer `p * PROB_SCALE`.
pub const PROB_SCALE: u32 = 1_000_000;

/// Largest width or height of a surface or image the pipeline accepts.
/// The bound keeps every pixel count and coordinate product in range even
/// on 32-bit targets.
pub const MAX_DIM: usize = 0x8000;

/// A two-dimensional grid of fixed-point probabilities in `[0, PROB_SCALE]`,
/// stored row-major.
pub struct ProbabilitySurface {
    pub width: usize,
    pub height: usize,
    pub data: Vec<u32>,
}

impl ProbabilitySurface {
    /// Dimensions are in range, the buffer has exactly one value per pixel,
    /// and every value is a probability.
    pub open spec fn wf(self) -> bool {
        &&& self.width <= MAX_DIM
        &&& self.height <= MAX_DIM
        &&& self.data@.len() == self.width * self.height
        &&& forall|i: int| 0 <= i < self.data@.len() ==> #[trigger] self.data@[i] <= PROB_SCALE
    }

    /// The probability at row `y`, column `x`.
    pub open spec fn at(self, y: int, x: int) -> u32 {
        self.data@[y * self.width + x]
    }

    /// Build a surface from a row-major buffer.
    ///
    /// Returns `MalformedInputError` exactly when the dimensions are out of
    /// range, the buffer length does not equal `width * height`, or some
    /// value exceeds `PROB_SCALE`.
    pub fn new(width: usize, height: usize, data: Vec<u32>) -> (r: Result<ProbabilitySurface, OcrError>)
        ensures
            r is Ok <==> (width <= MAX_DIM && height <= MAX_DIM
                && data@.len() == width * height
                && forall|i: int| 0 <= i < data@.len() ==> #[trigger] data@[i] <= PROB_SCALE),
            r is Ok ==> r->Ok_0 == (ProbabilitySurface { width, height, data }),
            r is Ok ==> r->Ok_0.wf(),
            r is Err ==> r->Err_0 == OcrError::MalformedInputError,
    {
        if width > MAX_DIM || height > MAX_DIM {
            return Err(OcrError::MalformedInputError);
        }
        proof {
            assert(width * height <= MAX_DIM * MAX_DIM) by (nonlinear_arith)
                requires width <= MAX_DIM && height <= MAX_DIM;
        }
        if data.len() != width * height {
            return Err(OcrError::MalformedInputError);
        }
        let mut i: usize = 0;
        while i < data.len()
            invariant
                i <= data@.len(),
                forall|j: int| 0 <= j < i ==> #[trigger] data@[j] <= PROB_SCALE,
            decreases data@.len() - i,
        {
            if data[i] > PROB_SCALE {
                return Err(OcrError::MalformedInputError);
            }
            i += 1;
        }
        Ok(ProbabilitySurface { width, height, data })
    }

    pub fn width(&self) -> (w: usize)
        ensures
            w == self.width,
    {
        self.width
    }

    pub fn height(&self) -> (h: usize)
        ensures
            h == self.height,
    {
        self.height
    }
}

} // verus!
