//! The permutation engine: a group-granular Fisher-Yates shuffle of one segment.
use vstd::prelude::*;
use vstd::arithmetic::div_mod::{lemma_fundamental_div_mod, lemma_fundamental_div_mod_converse};
use rand::rngs::SmallRng;
use crate::random::gen_index;

verus! {

broadcast use vstd::seq_lib::to_multiset_update, vstd::multiset::group_multiset_properties;

/// Relies on `slice::swap`: exchanges the elements at `a` and `b`, and panics
/// when either is out of bounds.
#[verifier::external_body]
fn swap_elems<T>(slice: &mut [T], a: usize, b: usize)
    requires
        a < old(slice)@.len(),
        b < old(slice)@.len(),
    ensures
        final(slice)@ == old(slice)@.update(a as int, old(slice)@[b as int]).update(
            b as int,
            old(slice)@[a as int],
        ),
{
    slice.swap(a, b)
}

/// `perm` lists each of `0..perm.len()` exactly once.
pub open spec fn is_permutation(perm: Seq<int>) -> bool {
    &&& forall|i: int| 0 <= i < perm.len() ==> 0 <= #[trigger] perm[i] < perm.len()
    &&& forall|i: int, j: int| 0 <= i < j < perm.len() ==> perm[i] != perm[j]
}

/// `after` is `before` cut into groups of `g` elements, with group `i` of
/// `after` being group `perm[i]` of `before`, each group in its own order.
pub open spec fn groups_reordered<T>(before: Seq<T>, after: Seq<T>, g: nat, perm: Seq<int>) -> bool {
    &&& after.len() == before.len()
    &&& before.len() == perm.len() * g
    &&& forall|x: int|
        0 <= x < after.len() ==> #[trigger] after[x] == before[perm[x / g as int] * g + x % g as int]
}

/// `after` is `before` with its groups of `g` elements put in some order,
/// each group kept whole and in its own order.
pub open spec fn is_group_shuffle<T>(before: Seq<T>, after: Seq<T>, g: nat) -> bool {
    &&& g > 0
    &&& exists|perm: Seq<int>| is_permutation(perm) && groups_reordered(before, after, g, perm)
}

/// Where the element at `x` comes from when groups `i` and `j` of size `g` trade places.
pub open spec fn swapped_position(x: int, i: int, j: int, g: int) -> int {
    if i * g <= x < i * g + g {
        x - i * g + j * g
    } else if j * g <= x < j * g + g {
        x - j * g + i * g
    } else {
        x
    }
}

/// Exchanges groups `i` and `j` (each `g` elements long) of `slice`, element by element.
fn swap_groups<T>(slice: &mut [T], i: usize, j: usize, g: usize)
    requires
        0 < g,
        i < j,
        (j + 1) * g <= old(slice)@.len(),
    ensures
        final(slice)@.len() == old(slice)@.len(),
        final(slice)@.to_multiset() == old(slice)@.to_multiset(),
        forall|x: int|
            0 <= x < old(slice)@.len() ==> #[trigger] final(slice)@[x] == old(slice)@[swapped_position(
                x,
                i as int,
                j as int,
                g as int,
            )],
{
    let ghost start = slice@;
    let len = slice.len();
    proof {
        assert(i * g <= j * g) by (nonlinear_arith)
            requires
                i < j,
        ;
        assert((i + 1) * g <= j * g) by (nonlinear_arith)
            requires
                i < j,
        ;
        assert((j + 1) * g == j * g + g) by (nonlinear_arith);
        assert((i + 1) * g == i * g + g) by (nonlinear_arith);
    }
    let a = i * g;
    let b = j * g;
    let mut t: usize = 0;
    while t < g
        invariant
            0 < g,
            a == i * g,
            b == j * g,
            a + g <= b,
            b + g <= start.len(),
            len == start.len(),
            t <= g,
            slice@.len() == start.len(),
            slice@.to_multiset() == start.to_multiset(),
            forall|u: int| 0 <= u < t ==> #[trigger] slice@[a + u] == start[b + u],
            forall|u: int| 0 <= u < t ==> #[trigger] slice@[b + u] == start[a + u],
            forall|x: int|
                0 <= x < start.len() && !(a <= x < a + t) && !(b <= x < b + t) ==> #[trigger] slice@[x]
                    == start[x],
        decreases g - t,
    {
        let ghost before = slice@;
        swap_elems(slice, a + t, b + t);
        proof {
            let (p, q) = ((a + t) as int, (b + t) as int);
            let mid = before.update(p, before[q]);
            assert(mid.to_multiset() == before.to_multiset().insert(before[q]).remove(before[p]));
            assert(mid[q] == before[q]);
            assert(slice@.to_multiset() == mid.to_multiset().insert(before[p]).remove(before[q]));
            vstd::seq_lib::to_multiset_contains(before, before[p]);
            vstd::seq_lib::to_multiset_contains(before, before[q]);
            assert(before.to_multiset().count(before[p]) > 0);
            assert(before.to_multiset().count(before[q]) > 0);
            assert(slice@.to_multiset() =~= before.to_multiset());
            assert(slice@[a + t] == start[b + t]);
            assert(slice@[b + t] == start[a + t]);
        }
        t = t + 1;
    }
    proof {
        assert forall|x: int| 0 <= x < start.len() implies #[trigger] slice@[x] == start[swapped_position(
            x,
            i as int,
            j as int,
            g as int,
        )] by {
            if a <= x < a + g {
                assert(slice@[a + (x - a)] == start[b + (x - a)]);
            } else if b <= x < b + g {
                assert(slice@[b + (x - b)] == start[a + (x - b)]);
            }
        }
    }
}

/// An element at `x = q * g + r` (with `0 <= r < g`) lies in group `k` exactly when `q == k`.
proof fn lemma_in_group(x: int, q: int, r: int, k: int, g: int)
    requires
        g > 0,
        0 <= r < g,
        x == q * g + r,
    ensures
        (k * g <= x < k * g + g) <==> q == k,
{
    assert((q + 1) * g == q * g + g) by (nonlinear_arith);
    assert((k + 1) * g == k * g + g) by (nonlinear_arith);
    if q < k {
        assert((q + 1) * g <= k * g) by (nonlinear_arith)
            requires
                q + 1 <= k,
                g > 0,
        ;
    } else if q > k {
        assert((k + 1) * g <= q * g) by (nonlinear_arith)
            requires
                k + 1 <= q,
                g > 0,
        ;
    }
}

/// Position `k * g + r` of a sequence of `n` groups of size `g` is in bounds and
/// has quotient `k` and remainder `r`.
pub(crate) proof fn lemma_position(k: int, r: int, g: int, n: int)
    requires
        g > 0,
        0 <= r < g,
        0 <= k < n,
    ensures
        (k * g + r) / g == k,
        (k * g + r) % g == r,
        0 <= k * g + r < n * g,
{
    lemma_fundamental_div_mod_converse(k * g + r, g, k, r);
    assert(0 <= k * g) by (nonlinear_arith)
        requires
            0 <= k,
            g > 0,
    ;
    assert((k + 1) * g <= n * g) by (nonlinear_arith)
        requires
            k + 1 <= n,
            g > 0,
    ;
    assert((k + 1) * g == k * g + g) by (nonlinear_arith);
}

/// Trading groups `i` and `j` of a reordering of `before` gives the reordering whose
/// permutation has entries `i` and `j` exchanged.
proof fn lemma_swap_reordered<T>(
    before: Seq<T>,
    cur: Seq<T>,
    after: Seq<T>,
    g: nat,
    perm: Seq<int>,
    i: int,
    j: int,
)
    requires
        g > 0,
        0 <= i < j < perm.len(),
        is_permutation(perm),
        groups_reordered(before, cur, g, perm),
        after.len() == cur.len(),
        forall|x: int|
            0 <= x < cur.len() ==> #[trigger] after[x] == cur[swapped_position(x, i, j, g as int)],
    ensures
        is_permutation(perm.update(i, perm[j]).update(j, perm[i])),
        groups_reordered(before, after, g, perm.update(i, perm[j]).update(j, perm[i])),
{
    let np = perm.update(i, perm[j]).update(j, perm[i]);
    let gi = g as int;
    assert forall|x: int| 0 <= x < after.len() implies #[trigger] after[x] == before[np[x / gi] * gi
        + x % gi] by {
        let q = x / gi;
        let r = x % gi;
        lemma_fundamental_div_mod(x, gi);
        assert(x == q * gi + r) by (nonlinear_arith)
            requires
                x == gi * (x / gi) + x % gi,
                q == x / gi,
                r == x % gi,
        ;
        assert(0 <= q < perm.len()) by (nonlinear_arith)
            requires
                x == q * gi + r,
                0 <= r < gi,
                0 <= x < perm.len() * gi,
        ;
        lemma_in_group(x, q, r, i, gi);
        lemma_in_group(x, q, r, j, gi);
        if q == i {
            lemma_position(j, r, gi, perm.len() as int);
            assert(swapped_position(x, i, j, gi) == j * gi + r);
            assert(after[x] == cur[j * gi + r]);
            assert(cur[j * gi + r] == before[perm[j] * gi + r]);
            assert(np[q] == perm[j]);
        } else if q == j {
            lemma_position(i, r, gi, perm.len() as int);
            assert(swapped_position(x, i, j, gi) == i * gi + r);
            assert(after[x] == cur[i * gi + r]);
            assert(cur[i * gi + r] == before[perm[i] * gi + r]);
            assert(np[q] == perm[i]);
        } else {
            assert(swapped_position(x, i, j, gi) == x);
            assert(after[x] == cur[x]);
            assert(np[q] == perm[q]);
        }
    }
}


/// `draws` can drive a shuffle of `n` groups: fewer than `n` draws, draw `k`
/// being a group at `k` or after it.
pub open spec fn valid_draws(draws: Seq<usize>, n: nat) -> bool {
    &&& draws.len() < n
    &&& forall|k: int| 0 <= k < draws.len() ==> k <= #[trigger] draws[k] < n
}

/// `s` with groups `i` and `j` of `g` elements exchanged.
pub open spec fn swap_groups_spec<T>(s: Seq<T>, g: nat, i: int, j: int) -> Seq<T> {
    Seq::new(s.len(), |x: int| s[swapped_position(x, i, j, g as int)])
}

/// `s` after the first `count` steps of the group-wise Fisher-Yates shuffle driven
/// by `draws`: step `k` exchanges group `k` with group `draws[k]`.
pub open spec fn fisher_yates<T>(s: Seq<T>, g: nat, draws: Seq<usize>, count: nat) -> Seq<T>
    decreases count,
{
    if count == 0 {
        s
    } else {
        let k = (count - 1) as nat;
        swap_groups_spec(fisher_yates(s, g, draws, k), g, k as int, draws[k as int] as int)
    }
}

/// Puts the groups of `block` elements of `slice` in the order that `draws` picks:
/// for each `idx` in turn, group `idx` trades places with group `draws[idx]`.
pub fn permute_groups<T>(slice: &mut [T], draws: &Vec<usize>, block: usize)
    requires
        block > 0,
        old(slice)@.len() % (block as nat) == 0,
        valid_draws(draws@, old(slice)@.len() / (block as nat)),
    ensures
        final(slice)@ == fisher_yates(old(slice)@, block as nat, draws@, draws@.len()),
        is_group_shuffle(old(slice)@, final(slice)@, block as nat),
        final(slice)@.to_multiset() == old(slice)@.to_multiset(),
{
    let len = slice.len();
    let n = len / block;
    let ghost start = slice@;
    let ghost mut perm: Seq<int> = Seq::new(n as nat, |k: int| k);
    proof {
        lemma_fundamental_div_mod(len as int, block as int);
        assert(len == n * block) by (nonlinear_arith)
            requires
                len == block * n,
        ;
        let b = block as int;
        assert(is_permutation(perm));
        assert forall|x: int| 0 <= x < len implies #[trigger] slice@[x] == start[perm[x / b] * b + x % b] by {
            lemma_fundamental_div_mod(x, b);
            assert(x == (x / b) * b + x % b) by (nonlinear_arith)
                requires
                    x == b * (x / b) + x % b,
            ;
            assert(0 <= x / b && x / b < n) by (nonlinear_arith)
                requires
                    x == (x / b) * b + x % b,
                    0 <= x % b < b,
                    0 <= x < len,
                    len == n * b,
                    b > 0,
            ;
        }
    }
    let mut idx: usize = 0;
    while idx < draws.len()
        invariant
            valid_draws(draws@, n as nat),
            idx <= draws@.len(),
            slice@ == fisher_yates(start, block as nat, draws@, idx as nat),
            block > 0,
            len == start.len(),
            len == n * block,
            slice@.len() == len,
            slice@.to_multiset() == start.to_multiset(),
            perm.len() == n,
            is_permutation(perm),
            groups_reordered(start, slice@, block as nat, perm),
        decreases draws@.len() - idx,
    {
        let target = draws[idx];
        if target != idx {
            proof {
                assert((target + 1) * block <= n * block) by (nonlinear_arith)
                    requires
                        target + 1 <= n,
                        block > 0,
                ;
            }
            let ghost cur = slice@;
            swap_groups(slice, idx, target, block);
            proof {
                assert(slice@ =~= swap_groups_spec(cur, block as nat, idx as int, target as int));
                lemma_swap_reordered(start, cur, slice@, block as nat, perm, idx as int, target as int);
                perm = perm.update(idx as int, perm[target as int]).update(target as int, perm[idx as int]);
            }
        } else {
            proof {
                assert(slice@ =~= swap_groups_spec(slice@, block as nat, idx as int, idx as int));
            }
        }
        idx = idx + 1;
    }
    proof {
        assert(is_permutation(perm) && groups_reordered(start, slice@, block as nat, perm));
    }
}

/// Puts the `slice.len() / block` groups of `block` elements of `slice` in a random
/// order: for each group from the first to the one before last, a group drawn
/// from it and the ones after it trades places with it. A single group stays put.
pub fn permute_blocks<T>(slice: &mut [T], rng: &mut SmallRng, block: usize)
    requires
        block > 0,
        old(slice)@.len() > 0,
        old(slice)@.len() % (block as nat) == 0,
    ensures
        exists|draws: Seq<usize>|
            #![trigger fisher_yates(old(slice)@, block as nat, draws, draws.len())]
            valid_draws(draws, old(slice)@.len() / (block as nat)) && draws.len() + 1 == old(slice)@.len()
                / (block as nat) && final(slice)@ == fisher_yates(old(slice)@, block as nat, draws, draws.len()),
        is_group_shuffle(old(slice)@, final(slice)@, block as nat),
        final(slice)@.to_multiset() == old(slice)@.to_multiset(),
{
    let len = slice.len();
    let n = len / block;
    proof {
        lemma_fundamental_div_mod(len as int, block as int);
        assert(n > 0) by (nonlinear_arith)
            requires
                len == block * n,
                len > 0,
        ;
    }
    let mut draws: Vec<usize> = Vec::new();
    let mut idx: usize = 0;
    while idx < n - 1
        invariant
            0 < n,
            idx <= n - 1,
            draws@.len() == idx,
            forall|k: int| 0 <= k < idx ==> k <= #[trigger] draws@[k] < n,
        decreases n - idx,
    {
        draws.push(gen_index(rng, idx, n));
        idx = idx + 1;
    }
    permute_groups(slice, &draws, block);
}

} // verus!
