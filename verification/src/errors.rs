use vstd::prelude::*;

verus! {

/// Error taxonomy of the pipeline.
///
/// Everything that is a normal outcome (no text found, an empty line, a word
/// with no characters) is represented by empty or absent values, never by one
/// of these errors.
#[derive(Clone, Copy, Debug, PartialEq, Eq, Structural)]
pub enum OcrError {
    /// A capability (detector or recognizer) required by the call is not
    /// configured on the engine.
    ConfigurationError,
    /// An inference result does not have the layout the pipeline expects.
    ShapeMismatchError,
    /// Input dimensions are inconsistent with the declared format.
    MalformedInputError,
}

} // verus!
