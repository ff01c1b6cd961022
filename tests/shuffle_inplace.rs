use ndarray::Array3;
use ndarray_shuffle::{NdArray, NdArrayShuffleError};
use rand::rngs::SmallRng;
use rand::SeedableRng;

fn static_rng() -> SmallRng {
    SmallRng::seed_from_u64(0xFEEB)
}

fn cube() -> NdArray<i32> {
    NdArray::from_shape_vec(vec![3, 3, 3], (1..=3 * 3 * 3).collect::<Vec<_>>()).unwrap()
}

#[test]
fn shuffle_inplace_test_empty_array() {
    let mut sut = NdArray::<u64>::from_shape_vec(vec![0, 0, 0], vec![]).unwrap();
    assert!(sut.shuffle_inplace_with(1, &mut static_rng()).is_ok());
    assert_eq!(sut, NdArray::<u64>::from_shape_vec(vec![0, 0, 0], vec![]).unwrap());
}

#[test]
fn test_1d_array_axis_0() {
    let mut sut = NdArray::from_shape_vec(vec![6], vec![1, 2, 3, 4, 5, 6]).unwrap();
    assert!(sut.shuffle_inplace_with(0, &mut static_rng()).is_ok());
    assert_eq!(NdArray::from_shape_vec(vec![6], vec![5, 6, 4, 2, 1, 3]).unwrap(), sut);
}

#[test]
fn test_3d_array_axis_0() {
    let mut sut = cube();
    let expected = NdArray::from_shape_vec(
        vec![3, 3, 3],
        vec![
            19, 20, 21, 22, 23, 24, 25, 26, 27, //
            1, 2, 3, 4, 5, 6, 7, 8, 9, //
            10, 11, 12, 13, 14, 15, 16, 17, 18,
        ],
    )
    .unwrap();
    assert!(sut.shuffle_inplace_with(0, &mut static_rng()).is_ok());
    assert_eq!(expected, sut);
}

#[test]
fn test_3d_array_axis_1() {
    let mut sut = cube();
    let expected = NdArray::from_shape_vec(
        vec![3, 3, 3],
        vec![
            7, 8, 9, 1, 2, 3, 4, 5, 6, //
            16, 17, 18, 10, 11, 12, 13, 14, 15, //
            25, 26, 27, 19, 20, 21, 22, 23, 24,
        ],
    )
    .unwrap();
    assert!(sut.shuffle_inplace_with(1, &mut static_rng()).is_ok());
    assert_eq!(expected, sut);
}

#[test]
fn test_3d_array_axis_2() {
    let mut sut = cube();
    let expected = NdArray::from_shape_vec(
        vec![3, 3, 3],
        vec![
            3, 1, 2, 6, 4, 5, 9, 7, 8, //
            11, 10, 12, 15, 13, 14, 17, 16, 18, //
            21, 19, 20, 22, 23, 24, 25, 26, 27,
        ],
    )
    .unwrap();
    assert!(sut.shuffle_inplace_with(2, &mut static_rng()).is_ok());
    assert_eq!(expected, sut);
}

#[test]
fn test_3d_array_invalid_axis() {
    let mut sut = cube();
    assert_eq!(
        NdArrayShuffleError::InvalidAxis(3),
        sut.shuffle_inplace_with(3, &mut static_rng()).unwrap_err()
    );
    assert_eq!(cube(), sut);
}

#[test]
fn test_3d_array_non_standard_layout() {
    let reversed = Array3::from_shape_vec((3, 3, 3), (1..=3 * 3 * 3).collect::<Vec<_>>())
        .unwrap()
        .reversed_axes();
    let standard = reversed.is_standard_layout();
    let mut sut = NdArray::from_raw_parts(reversed.shape().to_vec(), reversed.into_raw_vec(), standard)
        .unwrap();
    assert_eq!(
        NdArrayShuffleError::NonStandardLayout,
        sut.shuffle_inplace_with(0, &mut static_rng()).unwrap_err()
    );
}
