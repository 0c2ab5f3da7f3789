use limne::math::tensor::{int_pow, Tensor, Tensor3D, TensorIndexer, TensorND};
use limne::math::vector::{NumVector3D, Vector3D};
use limne::math::unused::CpuTensor;
use limne::math::Tensor as DenseTensor;

#[test]
fn indexer_walks_row_major() {
    let t: Tensor3D<u32> = TensorND::default_values(2);
    assert_eq!(t.rank(), 2);
    assert_eq!(t.shape(), vec![3, 3]);
    let mut it = TensorIndexer::create(&t);
    let mut seen = Vec::new();
    while let Some(idx) = it.next_idx() {
        seen.push(idx);
    }
    let expected: Vec<Vec<usize>> = (0..9).map(|i| vec![i / 3, i % 3]).collect();
    assert_eq!(seen, expected);
    assert_eq!(it.next_idx(), None);
}

#[test]
fn indexer_of_a_single_slot() {
    let t: TensorND<u8, 1> = TensorND::default_values(1);
    assert_eq!(t.shape(), vec![3]);
    let mut it = TensorIndexer::create(&t);
    assert_eq!(it.next_idx(), Some(vec![0]));
    assert_eq!(it.next_idx(), Some(vec![1]));
    assert_eq!(it.next_idx(), Some(vec![2]));
    assert_eq!(it.next_idx(), None);
}

#[test]
fn rank_zero_shape_is_one() {
    let t: Tensor3D<i64> = TensorND::default_values(0);
    assert_eq!(t.rank(), 0);
    assert_eq!(t.shape(), vec![1]);
}

#[test]
fn dense_tensors_build() {
    let _a: DenseTensor<u8> = DenseTensor::new(&[2, 3, 4], 7);
    let _b: CpuTensor<u8> = CpuTensor::new(&[5, 1], 0);
}

#[test]
fn index_offset_weights_slots() {
    let t2: Tensor3D<u8> = TensorND::default_values(2);
    assert_eq!(t2.index_offset(&[1, 2]), 5);
    assert_eq!(t2.index_offset(&[0, 0]), 0);
    let t3: Tensor3D<u8> = TensorND::default_values(3);
    assert_eq!(t3.index_offset(&[1, 2, 0]), 15);
    let t4: Tensor3D<u8> = TensorND::default_values(4);
    assert_eq!(t4.index_offset(&[1, 1, 1, 1]), 34);
    let t0: Tensor3D<u8> = TensorND::default_values(0);
    assert_eq!(t0.index_offset(&[0]), 0);
}

#[test]
fn vector_coordinates() {
    let v: NumVector3D<i32> = Vector3D::new(1, -2, 3);
    assert_eq!((v.x(), v.y(), v.z()), (1, -2, 3));
    assert_eq!((v.x, v.y, v.z), (1, -2, 3));
}

#[test]
fn int_pow_values() {
    assert_eq!(int_pow(3, 0), 1);
    assert_eq!(int_pow(3, 4), 81);
    assert_eq!(int_pow(2, 10), 1024);
}
