//! Tensors of a fixed extent on every axis, and the walk over the indices of a
//! tensor in row-major order.

use vstd::prelude::*;
use vstd::arithmetic::power::{lemma_pow_increases, pow};

use crate::math::positive_extents;

verus! {

/// A tensor: a rank and a shape.
pub trait Tensor<T: Clone>: Sized {
    spec fn rank_spec(&self) -> nat;

    spec fn shape_spec(&self) -> Seq<usize>;

    fn rank(&self) -> (r: usize)
        ensures
            r == self.rank_spec(),
    ;

    /// The extent of each axis; a tensor of rank 0 has the shape `[1]`.
    fn shape(&self) -> (r: Vec<usize>)
        ensures
            r@ == self.shape_spec(),
            r@.len() == if self.rank_spec() == 0 {
                1
            } else {
                self.rank_spec()
            },
            forall|i: int| 0 <= i < r@.len() ==> #[trigger] r@[i] > 0,
    ;
}

/// Slot `m` of `idx` is at the last value of its axis.
pub open spec fn at_end(idx: Seq<usize>, shape: Seq<usize>, m: int) -> bool {
    idx[m] + 1 == shape[m]
}

/// Every slot after `i` is at the last value of its axis, so that stepping the
/// index carries into slot `i`.
pub open spec fn carries_into(idx: Seq<usize>, shape: Seq<usize>, i: int) -> bool {
    forall|m: int| i < m < idx.len() ==> #[trigger] at_end(idx, shape, m)
}

/// The index after `idx` in row-major order, the last one wrapping to all
/// zeros.
pub open spec fn successor(idx: Seq<usize>, shape: Seq<usize>) -> Seq<usize> {
    Seq::new(
        idx.len(),
        |i: int|
            if !carries_into(idx, shape, i) {
                idx[i]
            } else if at_end(idx, shape, i) {
                0usize
            } else {
                (idx[i] + 1) as usize
            },
    )
}

/// Walks the indices of a tensor in row-major order.
pub struct TensorIndexer {
    current_idx: Vec<usize>,
    shape: Vec<usize>,
    done: bool,
}

impl TensorIndexer {
    pub closed spec fn current_view(&self) -> Seq<usize> {
        self.current_idx@
    }

    pub closed spec fn shape_view(&self) -> Seq<usize> {
        self.shape@
    }

    pub closed spec fn done_view(&self) -> bool {
        self.done
    }

    /// The current index has one slot per axis, each within its axis (the
    /// single-slot shape `[1]` also allows the slot past its end).
    pub open spec fn wf(&self) -> bool {
        &&& self.current_view().len() == self.shape_view().len()
        &&& (self.shape_view() == seq![1usize] || forall|i: int|
            0 <= i < self.shape_view().len() ==> #[trigger] self.current_view()[i]
                < self.shape_view()[i])
    }

    /// A walk that starts at index zero of the given tensor.
    pub fn create<T: Clone, Ts: Tensor<T>>(t: &Ts) -> (r: TensorIndexer)
        ensures
            r.current_view() == Seq::new(t.rank_spec(), |i: int| 0usize),
            r.shape_view() == t.shape_spec(),
            r.shape_view().len() == if t.rank_spec() == 0 {
                1
            } else {
                t.rank_spec()
            },
            positive_extents(r.shape_view()),
            !r.done_view(),
            t.rank_spec() > 0 ==> r.wf(),
    {
        let rank = t.rank();
        let r = TensorIndexer { current_idx: vec![0; rank], shape: t.shape(), done: false };
        assert(r.current_idx@ =~= Seq::new(t.rank_spec(), |i: int| 0usize));
        r
    }

    /// The current index, then a step to the next one; `None` once every
    /// index has been handed out.
    pub fn next_idx(&mut self) -> (r: Option<Vec<usize>>)
        requires
            old(self).wf(),
        ensures
            final(self).wf(),
            final(self).shape_view() == old(self).shape_view(),
            old(self).done_view() ==> r is None && *final(self) == *old(self),
            !old(self).done_view() && old(self).shape_view() == seq![1usize] ==> if old(
                self,
            ).current_view()[0] == 0 {
                r is Some && r.unwrap()@ == seq![0usize] && final(self).current_view() == seq![
                    1usize,
                ] && !final(self).done_view()
            } else {
                r is None && final(self).current_view() == old(self).current_view()
                    && !final(self).done_view()
            },
            !old(self).done_view() && old(self).shape_view() != seq![1usize] ==> {
                &&& r is Some
                &&& r.unwrap()@ == old(self).current_view()
                &&& final(self).current_view() == successor(
                    old(self).current_view(),
                    old(self).shape_view(),
                )
                &&& final(self).done_view() == carries_into(
                    old(self).current_view(),
                    old(self).shape_view(),
                    -1,
                )
            },
    {
        if self.done {
            None
        } else if self.shape.len() == 1 && self.shape[0] == 1 {
            assert(self.shape@ =~= seq![1usize]);
            if self.current_idx[0] == 0 {
                self.current_idx.set(0, 1);
                let out = vec![0usize];
                assert(out@ =~= seq![0usize]);
                assert(self.current_idx@ =~= seq![1usize]);
                Some(out)
            } else {
                None
            }
        } else {
            assert(self.shape@ != seq![1usize]);
            let ghost o = self.current_idx@;
            let ghost sh = self.shape@;
            let out = vstd::slice::slice_to_vec(self.current_idx.as_slice());
            let mut i: usize = self.current_idx.len();
            let mut carry = true;
            while i > 0 && carry
                invariant
                    i <= o.len(),
                    sh == self.shape@,
                    sh.len() == o.len(),
                    self.current_idx@.len() == o.len(),
                    sh != seq![1usize],
                    forall|m: int| 0 <= m < o.len() ==> #[trigger] o[m] < sh[m],
                    !self.done,
                    carry ==> forall|m: int|
                        i <= m < o.len() ==> #[trigger] at_end(o, sh, m)
                            && self.current_idx@[m] == 0,
                    carry ==> forall|m: int| 0 <= m < i ==> #[trigger] self.current_idx@[m] == o[m],
                    !carry ==> self.current_idx@ == successor(o, sh) && !carries_into(o, sh, -1),
                decreases i,
            {
                i = i - 1;
                let next = self.current_idx[i] + 1;
                if next == self.shape[i] {
                    self.current_idx.set(i, 0);
                } else {
                    self.current_idx.set(i, next);
                    carry = false;
                    proof {
                        assert(!at_end(o, sh, i as int));
                        assert forall|m: int| 0 <= m < o.len() implies #[trigger] self.current_idx@[m]
                            == successor(o, sh)[m] by {
                            if m < i {
                                assert(!at_end(o, sh, i as int));
                                assert(!carries_into(o, sh, m));
                            } else if m == i {
                                assert(carries_into(o, sh, m));
                            } else {
                                assert(carries_into(o, sh, m));
                            }
                        }
                        assert(self.current_idx@ =~= successor(o, sh));
                    }
                }
            }
            if carry {
                self.done = true;
                proof {
                    assert forall|m: int| 0 <= m < o.len() implies #[trigger] self.current_idx@[m]
                        == successor(o, sh)[m] by {
                        assert(carries_into(o, sh, m));
                    }
                    assert(self.current_idx@ =~= successor(o, sh));
                }
            }
            Some(out)
        }
    }
}

/// `base^e` as a machine integer.
pub fn int_pow(base: usize, e: usize) -> (r: usize)
    requires
        base > 0,
        pow(base as int, e as nat) <= usize::MAX,
    ensures
        r == pow(base as int, e as nat),
{
    let mut r: usize = 1;
    let mut i: usize = 0;
    proof {
        vstd::arithmetic::power::lemma_pow0(base as int);
    }
    while i < e
        invariant
            i <= e,
            base > 0,
            pow(base as int, e as nat) <= usize::MAX,
            r == pow(base as int, i as nat),
        decreases e - i,
    {
        proof {
            lemma_pow_increases(base as nat, (i + 1) as nat, e as nat);
            vstd::arithmetic::power::lemma_pow_adds(base as int, i as nat, 1);
            vstd::arithmetic::power::lemma_pow1(base as int);
        }
        r = r * base;
        i = i + 1;
    }
    r
}

/// A tensor whose every axis has `N` values, stored densely in row-major order.
#[derive(Clone, Debug)]
pub struct TensorND<T: Clone, const N: usize> {
    rank: usize,
    data: Vec<T>,
}

/// A tensor of three values per axis.
pub type Tensor3D<T> = TensorND<T, 3>;

impl<T: Clone + Default, const N: usize> TensorND<T, N> {
    /// A tensor of the given rank with every element the default value.
    pub fn default_values(rank: usize) -> (r: Self)
        requires
            N > 0,
            pow(N as int, rank as nat) <= usize::MAX,
        ensures
            r.rank_view() == rank,
            r.data_view().len() == pow(N as int, rank as nat),
    {
        let len = int_pow(N, rank);
        Self { rank, data: vec![T::default(); len] }
    }
}

/// The offset of `index` from slot `i` on: each slot weighted by a stride that
/// starts at `stride` and is divided by `rank` from one slot to the next.
pub open spec fn offset_from(index: Seq<usize>, i: int, stride: int, rank: int) -> int
    decreases index.len() - i,
{
    if i >= index.len() || i < 0 {
        0
    } else {
        stride * index[i] + offset_from(index, i + 1, stride / rank, rank)
    }
}

proof fn lemma_offset_from_nonneg(index: Seq<usize>, i: int, stride: int, rank: int)
    requires
        stride >= 0,
        rank > 0,
    ensures
        offset_from(index, i, stride, rank) >= 0,
    decreases index.len() - i,
{
    if 0 <= i < index.len() {
        lemma_offset_from_nonneg(index, i + 1, stride / rank, rank);
        let x = index[i] as int;
        assert(stride * x >= 0) by (nonlinear_arith)
            requires stride >= 0, x >= 0;
    }
}

/// The slot of `index` in the flat storage of a tensor of rank `rank`.
pub open spec fn index_offset_spec(index: Seq<usize>, n: int, rank: int) -> int {
    if rank == 0 {
        0
    } else {
        offset_from(index, 0, pow(n, (rank - 1) as nat), rank)
    }
}

impl<T: Clone, const N: usize> TensorND<T, N> {
    pub closed spec fn data_view(&self) -> Seq<T> {
        self.data@
    }

    pub closed spec fn rank_view(&self) -> nat {
        self.rank as nat
    }

    /// The slot of `index` in the flat storage.
    pub fn index_offset(&self, index: &[usize]) -> (r: usize)
        requires
            N > 0,
            self.rank_view() == 0 ==> index@ == seq![0usize],
            self.rank_view() > 0 ==> index@.len() == self.rank_view(),
            self.rank_view() > 0 ==> pow(N as int, (self.rank_view() - 1) as nat) <= usize::MAX,
            index_offset_spec(index@, N as int, self.rank_view() as int) <= usize::MAX,
        ensures
            r == index_offset_spec(index@, N as int, self.rank_view() as int),
    {
        if self.rank == 0 {
            return 0;
        }
        let ghost total = index_offset_spec(index@, N as int, self.rank as int);
        let mut offset: usize = 0;
        let mut stride = int_pow(N, self.rank - 1);
        let mut i: usize = 0;
        while i < self.rank
            invariant
                i <= self.rank,
                self.rank > 0,
                index@.len() == self.rank,
                total <= usize::MAX,
                offset + offset_from(index@, i as int, stride as int, self.rank as int) == total,
            decreases self.rank - i,
        {
            proof {
                lemma_offset_from_nonneg(index@, i as int + 1, (stride / self.rank) as int, self.rank as int);
                let x = index@[i as int] as int;
                assert(stride * x >= 0) by (nonlinear_arith)
                    requires stride >= 0, x >= 0;
            }
            offset = offset + stride * index[i];
            stride = stride / self.rank;
            i = i + 1;
        }
        offset
    }
}

impl<T: Clone, const N: usize> Tensor<T> for TensorND<T, N> {
    closed spec fn rank_spec(&self) -> nat {
        self.rank as nat
    }

    closed spec fn shape_spec(&self) -> Seq<usize> {
        if self.rank == 0 {
            seq![1usize]
        } else {
            Seq::new(self.rank as nat, |i: int| 3usize)
        }
    }

    fn rank(&self) -> (r: usize) {
        self.rank
    }

    fn shape(&self) -> (r: Vec<usize>) {
        if self.rank == 0 {
            let r = vec![1];
            assert(r@ =~= seq![1usize]);
            r
        } else {
            let r = vec![3; self.rank];
            assert(r@ =~= Seq::new(self.rank as nat, |i: int| 3usize));
            r
        }
    }
}

} // verus!
