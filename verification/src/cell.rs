use vstd::prelude::*;

verus! {

/// The four states of a Wireworld cell. No other values exist; equality is
/// structural.
#[derive(Clone, Copy, PartialEq, Eq, Structural, Debug)]
pub enum Cell {
    /// Background state; absorbing under the transition rule.
    Empty,
    /// The front of a moving electron; always decays to `ElectronTail`.
    ElectronHead,
    /// The back of a moving electron; always decays to `Conductor`.
    ElectronTail,
    /// Wire substrate; becomes `ElectronHead` when exactly one or two of its
    /// Moore neighbors are heads.
    Conductor,
}

} // verus!
