use vstd::prelude::*;

verus! {

/// The two validation failures the engine can report. Both are returned to
/// the caller and never mutate any state beforehand.
#[derive(Clone, Copy, PartialEq, Eq, Structural, Debug)]
pub enum WireworldError {
    /// Construction was requested with a zero width or height.
    InvalidDimensions,
    /// An edit or query named a coordinate outside `[0, width) x [0, height)`.
    OutOfBounds,
}

} // verus!
