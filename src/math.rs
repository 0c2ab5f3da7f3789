//! Tensors of the simulation: their layout in memory and the walk over their
//! indices.

use vstd::prelude::*;

pub mod tensor;
pub mod unused;
pub mod vector;

verus! {

/// Product of the extents of a shape: the number of elements of a tensor.
pub open spec fn product(s: Seq<usize>) -> int
    decreases s.len(),
{
    if s.len() == 0 {
        1
    } else {
        product(s.drop_last()) * s.last()
    }
}

/// No extent of the shape is zero.
pub open spec fn positive_extents(s: Seq<usize>) -> bool {
    forall|i: int| 0 <= i < s.len() ==> #[trigger] s[i] > 0
}

/// Every prefix of a shape with positive extents has a product between 1 and
/// that of the whole shape.
pub proof fn lemma_product_prefix(s: Seq<usize>, i: int)
    requires
        positive_extents(s),
        0 <= i <= s.len(),
    ensures
        1 <= product(s.subrange(0, i)) <= product(s),
    decreases s.len(),
{
    if s.len() > 0 {
        let d = s.drop_last();
        assert(positive_extents(d));
        let j = if i == s.len() { d.len() as int } else { i };
        lemma_product_prefix(d, j);
        let p = product(d);
        let l = s.last() as int;
        assert(l >= 1);
        assert(p * l >= p) by (nonlinear_arith)
            requires p >= 1, l >= 1;
        if i == s.len() {
            assert(s.subrange(0, i) =~= s);
            assert(d.subrange(0, j) =~= d);
            assert(p * l >= 1) by (nonlinear_arith)
                requires p >= 1, l >= 1;
        } else {
            assert(s.subrange(0, i) =~= d.subrange(0, i));
        }
    } else {
        assert(s.subrange(0, i) =~= s);
    }
}

/// The number of elements of a tensor of the given shape.
pub fn capacity(shape: &[usize]) -> (cap: usize)
    requires
        positive_extents(shape@),
        product(shape@) <= usize::MAX,
    ensures
        cap == product(shape@),
{
    let mut cap: usize = 1;
    let mut i: usize = 0;
    while i < shape.len()
        invariant
            i <= shape@.len(),
            positive_extents(shape@),
            product(shape@) <= usize::MAX,
            cap == product(shape@.subrange(0, i as int)),
        decreases shape@.len() - i,
    {
        proof {
            lemma_product_prefix(shape@, i as int + 1);
            assert(shape@.subrange(0, i as int + 1).drop_last() =~= shape@.subrange(0, i as int));
        }
        cap = cap * shape[i];
        i = i + 1;
    }
    proof {
        assert(shape@.subrange(0, i as int) =~= shape@);
    }
    cap
}

/// The strides of a row-major layout: for each axis, `cap` divided by its
/// extent. `cap` is computed from the shape when it is not given.
pub fn calculate_strides(shape: &[usize], cap: Option<usize>) -> (r: (Vec<usize>, usize))
    requires
        positive_extents(shape@),
        cap is None ==> product(shape@) <= usize::MAX,
    ensures
        r.1 == match cap {
            Some(c) => c as int,
            None => product(shape@),
        },
        r.0@.len() == shape@.len(),
        forall|i: int| 0 <= i < shape@.len() ==> #[trigger] r.0@[i] == r.1 / shape@[i],
{
    let cap = match cap {
        Some(c) => c,
        None => capacity(shape),
    };
    let mut strides: Vec<usize> = Vec::new();
    let mut i: usize = 0;
    while i < shape.len()
        invariant
            i <= shape@.len(),
            positive_extents(shape@),
            strides@.len() == i,
            forall|j: int| 0 <= j < i ==> #[trigger] strides@[j] == cap / shape@[j],
        decreases shape@.len() - i,
    {
        strides.push(cap / shape[i]);
        i = i + 1;
    }
    (strides, cap)
}

/// A dense tensor with a row-major layout.
pub struct Tensor<T: Clone> {
    shape: Vec<usize>,
    stride: Vec<usize>,
    storage: Vec<T>,
}

impl<T: Clone> Tensor<T> {
    pub closed spec fn shape_view(&self) -> Seq<usize> {
        self.shape@
    }

    pub closed spec fn stride_view(&self) -> Seq<usize> {
        self.stride@
    }

    pub closed spec fn storage_view(&self) -> Seq<T> {
        self.storage@
    }

    /// A tensor of the given shape with every element a clone of `default`.
    pub fn new(shape: &[usize], default: T) -> (r: Self)
        requires
            positive_extents(shape@),
            product(shape@) <= usize::MAX,
        ensures
            r.shape_view() == shape@,
            r.stride_view().len() == shape@.len(),
            forall|i: int|
                0 <= i < shape@.len() ==> #[trigger] r.stride_view()[i] as int == product(
                    shape@,
                ) / (shape@[i] as int),
            r.storage_view().len() == product(shape@),
            forall|i: int|
                0 <= i < r.storage_view().len() ==> cloned(default, #[trigger] r.storage_view()[i]),
    {
        let cap = capacity(shape);
        let storage = vec![default; cap];
        let (stride, _) = calculate_strides(shape, Some(cap));
        Tensor { shape: vstd::slice::slice_to_vec(shape), stride, storage }
    }
}

} // verus!
