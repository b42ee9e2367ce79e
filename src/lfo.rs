use vstd::prelude::*;

verus! {

/// The closed set of periodic shapes a modulation oscillator can produce.
#[derive(Clone, Copy, Debug, PartialEq, Eq, Structural)]
pub enum WaveformType {
    Sine,
    Triangle,
    Sawtooth,
}

} // verus!
