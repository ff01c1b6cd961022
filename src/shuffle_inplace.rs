//! The parallel driver: cuts the buffer into segments and shuffles each one
//! with its own seeded generator.
use vstd::prelude::*;
use vstd::arithmetic::div_mod::lemma_fundamental_div_mod_converse;
use rayon::prelude::{IndexedParallelIterator, ParallelIterator};
use rayon::slice::ParallelSliceMut;
use crate::array::{inner_size, lemma_product_append, lemma_product_split, lemma_product_zero, outer_size, product};
use crate::engine::{groups_reordered, is_group_shuffle, is_permutation, lemma_position, permute_blocks};
use crate::random::seeded_rng;

verus! {

/// Segment `k` of `s`, when `s` is cut into runs of `len` elements.
pub open spec fn segment<T>(s: Seq<T>, k: int, len: nat) -> Seq<T> {
    s.subrange(k * len, (k + 1) * len)
}

/// `after` is `before` with its groups of `g` elements reordered, and the same elements.
pub open spec fn segment_permuted<T>(before: Seq<T>, after: Seq<T>, g: nat) -> bool {
    &&& is_group_shuffle(before, after, g)
    &&& after.to_multiset() == before.to_multiset()
}

/// `after` is the row-major buffer `before` of an array of shape `shape` shuffled
/// along `axis`: the same elements, and within each segment (one index on every
/// axis before `axis`) the groups (one index on `axis`, all elements after it) are
/// reordered as whole blocks, each keeping its own order.
pub open spec fn shuffled_along<T>(before: Seq<T>, after: Seq<T>, shape: Seq<usize>, axis: int) -> bool {
    let g = inner_size(shape, axis);
    let block = (shape[axis] as nat) * g;
    &&& after.len() == before.len()
    &&& after.to_multiset() == before.to_multiset()
    &&& forall|k: int|
        0 <= k < outer_size(shape, axis) ==> is_group_shuffle(
            #[trigger] segment(before, k, block),
            segment(after, k, block),
            g,
        )
}

/// Shuffles the groups of one segment with a generator started from `seed`.
pub fn permute_segment<T>(chunk: &mut [T], seed: [u8; 32], group: usize)
    requires
        group > 0,
        old(chunk)@.len() > 0,
        old(chunk)@.len() % (group as nat) == 0,
    ensures
        segment_permuted(old(chunk)@, final(chunk)@, group as nat),
{
    let mut rng = seeded_rng(seed);
    permute_blocks(chunk, &mut rng, group);
}

/// Relies on rayon's `par_chunks_exact_mut`, `enumerate` and `for_each`: `slice` is
/// cut into consecutive, disjoint chunks of exactly `block` elements, numbered from 0,
/// and the closure, which calls `permute_segment`, runs once on each chunk with the
/// seed of that number. Panics only when `block` is zero.
#[verifier::external_body]
fn permute_segments_in_parallel<T: Send>(slice: &mut [T], block: usize, group: usize, seeds: &Vec<[u8; 32]>)
    requires
        0 < group,
        0 < block,
        block % group == 0,
        old(slice)@.len() == seeds@.len() * block,
    ensures
        final(slice)@.len() == old(slice)@.len(),
        forall|k: int|
            0 <= k < seeds@.len() ==> segment_permuted(
                #[trigger] segment(old(slice)@, k, block as nat),
                segment(final(slice)@, k, block as nat),
                group as nat,
            ),
{
    slice.par_chunks_exact_mut(block).enumerate().for_each(
        |(idx, chunk)| permute_segment(chunk, seeds[idx], group),
    );
}

/// The number of segments, the segment length and the group length for shuffling
/// a non-empty array of shape `shape` along `axis`.
pub(crate) fn segment_sizes(shape: &Vec<usize>, axis: usize, len: usize) -> (r: (usize, usize, usize))
    requires
        axis < shape@.len(),
        product(shape@) == len,
        len > 0,
    ensures
        r.0 == outer_size(shape@, axis as int),
        r.2 == inner_size(shape@, axis as int),
        r.1 == shape@[axis as int] * r.2,
        r.0 * r.1 == len,
        r.0 > 0,
        r.2 > 0,
        shape@[axis as int] > 0,
{
    let ghost s = shape@;
    proof {
        lemma_product_zero(s);
        lemma_product_split(s, axis as int);
    }
    let mut p: usize = 1;
    let mut i: usize = 0;
    while i < axis
        invariant
            i <= axis < s.len(),
            s == shape@,
            product(s) == len,
            forall|j: int| 0 <= j < s.len() ==> s[j] != 0,
            p == product(s.subrange(0, i as int)),
            p > 0,
        decreases axis - i,
    {
        proof {
            let head = s.subrange(0, i + 1);
            let rest = s.subrange(i + 1, s.len() as int);
            assert(head.drop_last() =~= s.subrange(0, i as int));
            assert(head + rest =~= s);
            lemma_product_append(head, rest);
            lemma_product_zero(rest);
            let (a, b) = (product(head), product(rest));
            assert(a * b >= a) by (nonlinear_arith)
                requires
                    b != 0,
            ;
            assert(p * (s[i as int] as nat) > 0) by (nonlinear_arith)
                requires
                    p > 0,
                    s[i as int] != 0,
            ;
        }
        p = p * shape[i];
        i = i + 1;
    }
    let n = shape[axis];
    let ghost g = inner_size(s, axis as int);
    proof {
        assert(len == p * (n * g)) by (nonlinear_arith)
            requires
                len == p * n * g,
        ;
        assert(len == (n * g) * p) by (nonlinear_arith)
            requires
                len == p * (n * g),
        ;
        lemma_fundamental_div_mod_converse(len as int, p as int, (n * g) as int, 0);
        assert(n * g == g * n) by (nonlinear_arith);
        lemma_fundamental_div_mod_converse((n * g) as int, n as int, g as int, 0);
        assert(g > 0) by (nonlinear_arith)
            requires
                len == p * n * g,
                len > 0,
        ;
    }
    let block = len / p;
    let group = block / n;
    (p, block, group)
}

/// The buffer's elements split into `p` segments of `block` have the same multiset
/// as another buffer whose segments each have the same multiset as its own.
proof fn lemma_segments_multiset<T>(a: Seq<T>, b: Seq<T>, block: nat, p: nat)
    requires
        a.len() == p * block,
        b.len() == p * block,
        forall|k: int|
            0 <= k < p ==> (#[trigger] segment(b, k, block)).to_multiset() == segment(
                a,
                k,
                block,
            ).to_multiset(),
    ensures
        a.to_multiset() == b.to_multiset(),
    decreases p,
{
    if p == 0 {
        assert(p * block == 0) by (nonlinear_arith)
            requires
                p == 0,
        ;
        assert(a =~= b);
    } else {
        let m = (p - 1) as nat;
        assert((m + 1) * block == m * block + block) by (nonlinear_arith);
        let (a0, b0) = (a.subrange(0, (m * block) as int), b.subrange(0, (m * block) as int));
        assert forall|k: int| 0 <= k < m implies (#[trigger] segment(b0, k, block)).to_multiset()
            == segment(a0, k, block).to_multiset() by {
            assert((k + 1) * block <= m * block) by (nonlinear_arith)
                requires
                    k + 1 <= m,
            ;
            assert(0 <= k * block) by (nonlinear_arith)
                requires
                    0 <= k,
            ;
            assert((k + 1) * block == k * block + block) by (nonlinear_arith);
            assert(segment(b0, k, block) =~= segment(b, k, block));
            assert(segment(a0, k, block) =~= segment(a, k, block));
        }
        lemma_segments_multiset(a0, b0, block, m);
        assert(a =~= a0 + segment(a, m as int, block));
        assert(b =~= b0 + segment(b, m as int, block));
        vstd::seq_lib::lemma_multiset_commutative(a0, segment(a, m as int, block));
        vstd::seq_lib::lemma_multiset_commutative(b0, segment(b, m as int, block));
    }
}

/// Shuffles the row-major buffer `data` of a non-empty array of shape `shape`
/// along `axis`, segment `k` with a generator started from `seeds[k]`.
pub fn shuffle_buffer<T: Send>(data: &mut [T], shape: &Vec<usize>, axis: usize, seeds: &Vec<[u8; 32]>)
    requires
        axis < shape@.len(),
        product(shape@) == old(data)@.len(),
        old(data)@.len() > 0,
        seeds@.len() == outer_size(shape@, axis as int),
    ensures
        shuffled_along(old(data)@, final(data)@, shape@, axis as int),
{
    let len = data.len();
    let (p, block, group) = segment_sizes(shape, axis, len);
    proof {
        assert(block % group == 0) by (nonlinear_arith)
            requires
                block == shape@[axis as int] * group,
                group > 0,
        ;
        lemma_fundamental_div_mod_converse(block as int, group as int, shape@[axis as int] as int, 0);
        assert(block > 0) by (nonlinear_arith)
            requires
                p * block == len,
                len > 0,
        ;
    }
    let ghost start = data@;
    permute_segments_in_parallel(data, block, group, seeds);
    proof {
        lemma_segments_multiset(start, data@, block as nat, p as nat);
        assert forall|k: int| 0 <= k < p implies is_group_shuffle(
            #[trigger] segment(start, k, block as nat),
            segment(data@, k, block as nat),
            group as nat,
        ) by {
            assert(segment_permuted(segment(start, k, block as nat), segment(data@, k, block as nat), group as nat));
        }
    }
}

/// Shuffling along `axis` keeps the order along every other axis. For each segment
/// `k` (one index on every axis before `axis`) some permutation `perm` of the indices
/// on `axis` gives, for every index `i` on `axis` and every offset `t` within a group
/// (one index on every axis after `axis`), the element at `(k, i, t)` after the
/// shuffle as the one at `(k, perm[i], t)` before it. So the elements met by moving
/// along any other axis, with the index on `axis` held, keep their order.
pub proof fn lemma_off_axis_order<T>(before: Seq<T>, after: Seq<T>, shape: Seq<usize>, axis: int, k: int)
    requires
        0 <= axis < shape.len(),
        product(shape) == before.len(),
        shuffled_along(before, after, shape, axis),
        0 <= k < outer_size(shape, axis),
    ensures
        ({
            let n = shape[axis] as int;
            let g = inner_size(shape, axis) as int;
            exists|perm: Seq<int>|
                #![trigger is_permutation(perm)]
                is_permutation(perm) && perm.len() == n && forall|i: int, t: int|
                    0 <= i < n && 0 <= t < g ==> #[trigger] after[k * (n * g) + i * g + t] == before[k * (n
                        * g) + perm[i] * g + t]
        }),
{
    let n = shape[axis] as int;
    let g = inner_size(shape, axis) as int;
    let p = outer_size(shape, axis) as int;
    let b = n * g;
    lemma_product_split(shape, axis);
    let sb = segment(before, k, b as nat);
    let sa = segment(after, k, b as nat);
    assert(is_group_shuffle(sb, sa, g as nat));
    let perm = choose|perm: Seq<int>| is_permutation(perm) && groups_reordered(sb, sa, g as nat, perm);
    assert(before.len() == p * b) by (nonlinear_arith)
        requires
            before.len() == p * n * g,
            b == n * g,
    ;
    assert((k + 1) * b <= p * b && 0 <= k * b && (k + 1) * b == k * b + b) by (nonlinear_arith)
        requires
            0 <= k < p,
            b >= 0,
    ;
    assert(perm.len() == n) by (nonlinear_arith)
        requires
            perm.len() * g == n * g,
            g > 0,
    ;
    assert forall|i: int, t: int| 0 <= i < n && 0 <= t < g implies #[trigger] after[k * (n * g) + i * g
        + t] == before[k * (n * g) + perm[i] * g + t] by {
        lemma_position(i, t, g, n);
        lemma_position(perm[i], t, g, n);
        assert(sa[i * g + t] == sb[perm[i] * g + t]);
    }
}

} // verus!
