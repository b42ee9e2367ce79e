use vstd::prelude::*;

verus! {

/// A sample-by-sample signal processor: one sample in, one sample out.
pub trait AudioProcessor<DataType> {
    fn process(&mut self, input: DataType) -> DataType;
}

} // verus!
