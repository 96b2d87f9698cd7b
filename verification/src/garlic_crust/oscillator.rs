use vstd::prelude::*;

verus! {

/// The wave shape of an oscillator.
#[derive(Clone, Copy, Debug, PartialEq, Eq, Structural)]
pub enum BaseWave {
    Sine,
    Saw,
    Square,
    Triangle,
    Zero,
}

} // verus!
