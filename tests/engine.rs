use ndarray_shuffle::engine::{permute_blocks, permute_groups};
use rand::rngs::SmallRng;
use rand::SeedableRng;

#[test]
fn permute_groups_follows_the_draws() {
    let mut v = vec![1, 2, 3, 4, 5, 6];
    permute_groups(&mut v, &vec![2, 1], 2);
    assert_eq!(v, vec![5, 6, 3, 4, 1, 2]);
}

#[test]
fn permute_groups_with_self_picks_is_identity() {
    let mut v = vec![1, 2, 3, 4, 5, 6];
    permute_groups(&mut v, &vec![0, 1], 2);
    assert_eq!(v, vec![1, 2, 3, 4, 5, 6]);
}

#[test]
fn permute_groups_steps_in_order() {
    let mut v = vec![10, 20, 30, 40];
    permute_groups(&mut v, &vec![3, 3, 3], 1);
    assert_eq!(v, vec![40, 10, 20, 30]);
}

#[test]
fn permute_blocks_single_group_is_untouched() {
    let mut v = vec![1, 2, 3, 4];
    permute_blocks(&mut v, &mut SmallRng::seed_from_u64(9), 4);
    assert_eq!(v, vec![1, 2, 3, 4]);
}

#[test]
fn permute_blocks_moves_whole_groups() {
    let mut v: Vec<u32> = (0..30).collect();
    permute_blocks(&mut v, &mut SmallRng::seed_from_u64(5), 3);
    for chunk in v.chunks(3) {
        assert_eq!(chunk[0] % 3, 0);
        assert_eq!(chunk[1], chunk[0] + 1);
        assert_eq!(chunk[2], chunk[0] + 2);
    }
    let mut sorted = v.clone();
    sorted.sort();
    assert_eq!(sorted, (0..30).collect::<Vec<u32>>());
}
