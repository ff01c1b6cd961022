use ndarray_shuffle::{NdArray, NdArrayShuffleError};
use rand::rngs::SmallRng;
use rand::SeedableRng;

fn rng(seed: u64) -> SmallRng {
    SmallRng::seed_from_u64(seed)
}

fn counting(shape: Vec<usize>) -> NdArray<u32> {
    let len: usize = shape.iter().product();
    NdArray::from_shape_vec(shape, (0..len as u32).collect()).unwrap()
}

/// Checks that `after` reorders, within each segment, whole groups of `before`.
fn assert_group_shuffle(before: &[u32], after: &[u32], shape: &[usize], axis: usize) {
    assert_eq!(before.len(), after.len());
    let p: usize = shape[..axis].iter().product();
    let n = shape[axis];
    let g: usize = shape[axis + 1..].iter().product();
    for k in 0..p {
        let base = k * n * g;
        let mut used = vec![false; n];
        for i in 0..n {
            let group = &after[base + i * g..base + (i + 1) * g];
            let source = (0..n)
                .find(|&j| !used[j] && &before[base + j * g..base + (j + 1) * g] == group)
                .expect("each group of the result is a group of the input segment");
            used[source] = true;
        }
    }
    let mut a = before.to_vec();
    let mut b = after.to_vec();
    a.sort();
    b.sort();
    assert_eq!(a, b);
}

#[test]
fn shape_and_elements_kept_on_every_axis() {
    let shape = vec![2, 3, 4, 5];
    for axis in 0..shape.len() {
        for seed in 0..8u64 {
            let input = counting(shape.clone());
            let mut sut = counting(shape.clone());
            assert!(sut.shuffle_inplace_with(axis, &mut rng(seed)).is_ok());
            assert_eq!(sut.shape(), &shape);
            assert_group_shuffle(input.as_slice(), sut.as_slice(), &shape, axis);
        }
    }
}

#[test]
fn same_seed_gives_same_result() {
    let mut a = counting(vec![4, 5, 6]);
    let mut b = counting(vec![4, 5, 6]);
    assert!(a.shuffle_inplace_with(1, &mut rng(42)).is_ok());
    assert!(b.shuffle_inplace_with(1, &mut rng(42)).is_ok());
    assert_eq!(a, b);
}

#[test]
fn same_seed_same_result_on_any_pool_size() {
    let run = |threads: usize| {
        let pool = rayon::ThreadPoolBuilder::new().num_threads(threads).build().unwrap();
        pool.install(|| {
            let mut a = counting(vec![16, 8, 3]);
            assert!(a.shuffle_inplace_with(1, &mut rng(7)).is_ok());
            a
        })
    };
    let one = run(1);
    assert_eq!(one, run(2));
    assert_eq!(one, run(4));
}

#[test]
fn empty_array_with_huge_leading_axes_is_left_alone() {
    let mut sut = NdArray::<u8>::from_shape_vec(vec![usize::MAX, 2, 0], vec![]).unwrap();
    assert_eq!(sut.seeds_needed(2), 0);
    assert_eq!(sut.shuffle_inplace_with(1, &mut rng(1)), Ok(()));
    assert_eq!(sut.shape(), &vec![usize::MAX, 2, 0]);
    assert!(sut.is_empty());
}

#[test]
fn from_shape_vec_checks_the_length() {
    assert!(NdArray::from_shape_vec(vec![2, 3], vec![0u8; 5]).is_none());
    assert!(NdArray::from_shape_vec(vec![2, 3], vec![0u8; 6]).is_some());
    assert!(NdArray::from_shape_vec(vec![usize::MAX, 3], vec![0u8; 3]).is_none());
    assert!(NdArray::from_shape_vec(vec![], vec![7u8]).is_some());
}

#[test]
fn seeds_needed_is_the_segment_count() {
    let sut = counting(vec![2, 3, 4]);
    assert_eq!(sut.seeds_needed(0), 1);
    assert_eq!(sut.seeds_needed(1), 2);
    assert_eq!(sut.seeds_needed(2), 6);
    assert_eq!(sut.seeds_needed(3), 0);
}

#[test]
fn axis_of_length_one_is_a_no_op() {
    let mut sut = counting(vec![2, 1, 3]);
    assert!(sut.shuffle_inplace_with(1, &mut rng(3)).is_ok());
    assert_eq!(sut, counting(vec![2, 1, 3]));
}

#[test]
fn seeded_shuffle_depends_only_on_the_seeds() {
    let seeds = vec![[1u8; 32], [2u8; 32]];
    let mut a = counting(vec![2, 6, 2]);
    let mut b = counting(vec![2, 6, 2]);
    assert!(a.shuffle_inplace_seeded(1, &seeds).is_ok());
    assert!(b.shuffle_inplace_seeded(1, &seeds).is_ok());
    assert_eq!(a, b);
    assert_group_shuffle(counting(vec![2, 6, 2]).as_slice(), a.as_slice(), &[2, 6, 2], 1);
}

#[test]
fn layout_is_checked_before_the_axis() {
    let mut sut = NdArray::from_raw_parts(vec![2, 2], vec![1, 2, 3, 4], false).unwrap();
    assert_eq!(
        sut.shuffle_inplace_with(5, &mut rng(0)),
        Err(NdArrayShuffleError::NonStandardLayout)
    );
    assert_eq!(sut.into_raw_vec(), vec![1, 2, 3, 4]);
}

#[test]
fn invalid_axis_on_rank_k_reports_k() {
    let mut sut = counting(vec![2, 2]);
    assert_eq!(sut.shuffle_inplace(2), Err(NdArrayShuffleError::InvalidAxis(2)));
    assert_eq!(sut, counting(vec![2, 2]));
}

#[test]
fn out_of_place_matches_in_place_and_keeps_the_input() {
    let input = counting(vec![3, 3, 3]);
    let shuffled = input.shuffle_with(0, &mut rng(0xFEEB)).unwrap();
    let mut in_place = counting(vec![3, 3, 3]);
    assert!(in_place.shuffle_inplace_with(0, &mut rng(0xFEEB)).is_ok());
    assert_eq!(shuffled, in_place);
    assert_eq!(input, counting(vec![3, 3, 3]));
    assert_ne!(shuffled, input);
}

#[test]
fn default_generator_shuffles_whole_groups() {
    let shape = vec![3, 4, 2];
    let input = counting(shape.clone());
    let shuffled = input.shuffle(1).unwrap();
    assert_group_shuffle(input.as_slice(), shuffled.as_slice(), &shape, 1);
    let mut in_place = counting(shape.clone());
    assert!(in_place.shuffle_inplace(2).is_ok());
    assert_group_shuffle(input.as_slice(), in_place.as_slice(), &shape, 2);
}

#[test]
fn copy_is_equal() {
    let a = counting(vec![2, 3]);
    assert_eq!(a.copy(), a);
    assert!(a.is_standard_layout());
    assert_eq!(a.len(), 6);
}
