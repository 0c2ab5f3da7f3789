//! A tensor that lives in host memory.

use vstd::prelude::*;

use crate::math::{calculate_strides, capacity, positive_extents, product};

verus! {

/// A dense tensor in host memory with a row-major layout.
pub struct CpuTensor<T: Clone> {
    shape: Vec<usize>,
    stride: Vec<usize>,
    storage: Vec<T>,
}

impl<T: Clone> CpuTensor<T> {
    pub closed spec fn shape_view(&self) -> Seq<usize> {
        self.shape@
    }

    pub closed spec fn stride_view(&self) -> Seq<usize> {
        self.stride@
    }

    pub closed spec fn storage_view(&self) -> Seq<T> {
        self.storage@
    }

    /// A tensor of the given shape with every element a clone of `default`.
    pub fn new(shape: &[usize], default: T) -> (r: Self)
        requires
            positive_extents(shape@),
            product(shape@) <= usize::MAX,
        ensures
            r.shape_view() == shape@,
            r.stride_view().len() == shape@.len(),
            forall|i: int|
                0 <= i < shape@.len() ==> #[trigger] r.stride_view()[i] as int == product(
                    shape@,
                ) / (shape@[i] as int),
            r.storage_view().len() == product(shape@),
            forall|i: int|
                0 <= i < r.storage_view().len() ==> cloned(default, #[trigger] r.storage_view()[i]),
    {
        let cap = capacity(shape);
        let mut storage: Vec<T> = Vec::with_capacity(cap);
        let mut i: usize = 0;
        while i < cap
            invariant
                i <= cap,
                storage@.len() == i,
                forall|j: int| 0 <= j < i ==> cloned(default, #[trigger] storage@[j]),
            decreases cap - i,
        {
            storage.push(default.clone());
            i = i + 1;
        }
        let (stride, _) = calculate_strides(shape, Some(cap));
        CpuTensor { shape: vstd::slice::slice_to_vec(shape), stride, storage }
    }
}

} // verus!
