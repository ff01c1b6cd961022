//! A dense multi-dimensional array held as a flat buffer and its shape.
use vstd::prelude::*;
use vstd::pervasive::cloned;
use rand::rngs::SmallRng;
use crate::NdArrayShuffleError;
use crate::random::{default_rng, next_seed};
use crate::shuffle_inplace::{segment_sizes, shuffle_buffer, shuffled_along};

verus! {

/// The product of the dimension sizes in `s` (1 for no dimensions).
pub open spec fn product(s: Seq<usize>) -> nat
    decreases s.len(),
{
    if s.len() == 0 {
        1
    } else {
        product(s.drop_last()) * (s.last() as nat)
    }
}

/// The product of two concatenated runs of sizes is the product of their products.
pub proof fn lemma_product_append(s1: Seq<usize>, s2: Seq<usize>)
    ensures
        product(s1 + s2) == product(s1) * product(s2),
    decreases s2.len(),
{
    if s2.len() == 0 {
        assert(s1 + s2 =~= s1);
        assert(product(s2) == 1);
        assert(product(s1) * 1 == product(s1)) by (nonlinear_arith);
    } else {
        assert((s1 + s2).drop_last() =~= s1 + s2.drop_last());
        lemma_product_append(s1, s2.drop_last());
        let (a, b, c) = (product(s1), product(s2.drop_last()), s2.last() as nat);
        assert((s1 + s2).last() == s2.last());
        assert(product(s1 + s2) == product(s1 + s2.drop_last()) * c);
        assert(product(s2) == b * c);
        assert(a * b * c == a * (b * c)) by (nonlinear_arith);
    }
}

/// A product is zero exactly when one of the sizes is zero.
pub proof fn lemma_product_zero(s: Seq<usize>)
    ensures
        (product(s) == 0) <==> (exists|i: int| 0 <= i < s.len() && s[i] == 0),
    decreases s.len(),
{
    if s.len() > 0 {
        lemma_product_zero(s.drop_last());
        let (a, c) = (product(s.drop_last()), s.last() as nat);
        assert((a * c == 0) <==> (a == 0 || c == 0)) by (nonlinear_arith);
        if product(s.drop_last()) == 0 {
            let i = choose|i: int| 0 <= i < s.drop_last().len() && s.drop_last()[i] == 0;
            assert(s[i] == 0);
        }
        if exists|i: int| 0 <= i < s.len() && s[i] == 0 {
            let i = choose|i: int| 0 <= i < s.len() && s[i] == 0;
            if i < s.len() - 1 {
                assert(s.drop_last()[i] == 0);
            }
        }
    }
}

/// The number of segments when shuffling along `axis`: the product of the sizes before it.
pub open spec fn outer_size(shape: Seq<usize>, axis: int) -> nat {
    product(shape.subrange(0, axis))
}

/// The number of elements in one group when shuffling along `axis`: the product of the sizes after it.
pub open spec fn inner_size(shape: Seq<usize>, axis: int) -> nat {
    product(shape.subrange(axis + 1, shape.len() as int))
}

/// The whole product splits at `axis` into the sizes before it, its own size and the sizes after it.
pub proof fn lemma_product_split(shape: Seq<usize>, axis: int)
    requires
        0 <= axis < shape.len(),
    ensures
        product(shape) == outer_size(shape, axis) * (shape[axis] as nat) * inner_size(shape, axis),
        product(shape.subrange(0, axis + 1)) == outer_size(shape, axis) * (shape[axis] as nat),
{
    let head = shape.subrange(0, axis + 1);
    let tail = shape.subrange(axis + 1, shape.len() as int);
    assert(head + tail =~= shape);
    assert(head.drop_last() =~= shape.subrange(0, axis));
    lemma_product_append(head, tail);
}

/// A row-major array: the elements in memory order, the size of each axis, and
/// whether that memory order is the standard (contiguous row-major) one.
#[derive(Debug, PartialEq, Eq)]
pub struct NdArray<T> {
    data: Vec<T>,
    shape: Vec<usize>,
    standard: bool,
}

impl<T> NdArray<T> {
    /// The elements, in memory order.
    pub closed spec fn elems(&self) -> Seq<T> {
        self.data@
    }

    /// The size of each axis.
    pub closed spec fn dims(&self) -> Seq<usize> {
        self.shape@
    }

    /// Whether the memory order is the standard row-major order.
    pub closed spec fn standard(&self) -> bool {
        self.standard
    }

    /// The buffer holds one element for each multi-index of the shape.
    pub open spec fn wf(&self) -> bool {
        product(self.dims()) == self.elems().len()
    }

    /// An array in standard layout, or `None` when `data` does not hold exactly
    /// the product of `shape` elements.
    pub fn from_shape_vec(shape: Vec<usize>, data: Vec<T>) -> (r: Option<NdArray<T>>)
        ensures
            r is Some <==> product(shape@) == data@.len(),
            r matches Some(a) ==> a.wf() && a.dims() == shape@ && a.elems() == data@ && a.standard(),
    {
        Self::from_raw_parts(shape, data, true)
    }

    /// An array whose memory holds `data` in the order that `standard_layout` describes,
    /// or `None` when `data` does not hold exactly the product of `shape` elements.
    pub fn from_raw_parts(shape: Vec<usize>, data: Vec<T>, standard_layout: bool) -> (r: Option<NdArray<T>>)
        ensures
            r is Some <==> product(shape@) == data@.len(),
            r matches Some(a) ==> a.wf() && a.dims() == shape@ && a.elems() == data@ && a.standard()
                == standard_layout,
    {
        let len = data.len();
        match checked_product(&shape) {
            Some(p) => {
                if p == len {
                    Some(NdArray { data, shape, standard: standard_layout })
                } else {
                    None
                }
            },
            None => None,
        }
    }
}

/// The product of `s`, or `None` when it does not fit in `usize`.
fn checked_product(s: &Vec<usize>) -> (r: Option<usize>)
    ensures
        r matches Some(p) ==> p == product(s@),
        r is None ==> product(s@) > usize::MAX,
{
    let mut i: usize = 0;
    while i < s.len()
        invariant
            i <= s@.len(),
            forall|j: int| 0 <= j < i ==> s@[j] != 0,
        decreases s@.len() - i,
    {
        if s[i] == 0 {
            proof {
                lemma_product_zero(s@);
            }
            return Some(0);
        }
        i = i + 1;
    }
    let mut acc: usize = 1;
    let mut i: usize = 0;
    while i < s.len()
        invariant
            i <= s@.len(),
            forall|j: int| 0 <= j < s@.len() ==> s@[j] != 0,
            acc == product(s@.subrange(0, i as int)),
        decreases s@.len() - i,
    {
        proof {
            assert(s@.subrange(0, i + 1).drop_last() =~= s@.subrange(0, i as int));
        }
        match acc.checked_mul(s[i]) {
            Some(v) => {
                acc = v;
            },
            None => {
                proof {
                    let rest = s@.subrange(i + 1, s@.len() as int);
                    assert(s@.subrange(0, i + 1) + rest =~= s@);
                    lemma_product_append(s@.subrange(0, i + 1), rest);
                    lemma_product_zero(rest);
                    let (a, b) = (product(s@.subrange(0, i + 1)), product(rest));
                    assert(a * b >= a) by (nonlinear_arith)
                        requires
                            b != 0,
                    ;
                }
                return None;
            },
        }
        i = i + 1;
    }
    proof {
        assert(s@.subrange(0, s@.len() as int) =~= s@);
    }
    Some(acc)
}

impl<T> NdArray<T> {
    /// A shuffle along `axis` has elements to move: the layout is standard, the
    /// axis exists and the array is not empty.
    pub open spec fn needs_work(&self, axis: int) -> bool {
        &&& self.standard()
        &&& 0 <= axis < self.dims().len()
        &&& self.elems().len() > 0
    }

    /// How many seeds a shuffle along `axis` draws: one per segment when there
    /// is work to do, none otherwise.
    pub open spec fn seeds_wanted(&self, axis: int) -> nat {
        if self.needs_work(axis) {
            outer_size(self.dims(), axis)
        } else {
            0
        }
    }

    /// `after`, with result `r`, is what shuffling `self` in place along `axis` may leave:
    /// the shape and layout are kept; a non-standard layout, then a missing axis, is
    /// refused with the array untouched; an empty array is left as it is; otherwise
    /// the elements are shuffled along `axis`.
    pub open spec fn shuffle_outcome(&self, after: NdArray<T>, axis: usize, r: Result<(), NdArrayShuffleError>) -> bool {
        &&& after.wf()
        &&& after.dims() == self.dims()
        &&& after.standard() == self.standard()
        &&& !self.standard() ==> r == Err::<(), _>(NdArrayShuffleError::NonStandardLayout) && after.elems()
            == self.elems()
        &&& self.standard() && axis >= self.dims().len() ==> r == Err::<(), _>(
            NdArrayShuffleError::InvalidAxis(axis),
        ) && after.elems() == self.elems()
        &&& self.standard() && axis < self.dims().len() ==> r == Ok::<(), NdArrayShuffleError>(())
        &&& self.elems().len() == 0 ==> after.elems() == self.elems()
        &&& self.needs_work(axis as int) ==> shuffled_along(self.elems(), after.elems(), self.dims(), axis as int)
    }

    /// The size of each axis.
    pub fn shape(&self) -> (r: &Vec<usize>)
        ensures
            r@ == self.dims(),
    {
        &self.shape
    }

    /// The elements, in memory order.
    pub fn as_slice(&self) -> (r: &[T])
        ensures
            r@ == self.elems(),
    {
        self.data.as_slice()
    }

    /// The elements, in memory order, taking the array apart.
    pub fn into_raw_vec(self) -> (r: Vec<T>)
        ensures
            r@ == self.elems(),
    {
        self.data
    }

    /// Whether the memory order is the standard row-major order.
    pub fn is_standard_layout(&self) -> (r: bool)
        ensures
            r == self.standard(),
    {
        self.standard
    }

    /// The number of elements.
    pub fn len(&self) -> (r: usize)
        ensures
            r == self.elems().len(),
    {
        self.data.len()
    }

    /// Whether the array has no elements.
    pub fn is_empty(&self) -> (r: bool)
        ensures
            r == (self.elems().len() == 0),
    {
        self.data.len() == 0
    }

    /// Refuses a non-standard layout, then an axis that does not exist.
    fn check_request(&self, axis: usize) -> (r: Result<(), NdArrayShuffleError>)
        ensures
            !self.standard() ==> r == Err::<(), _>(NdArrayShuffleError::NonStandardLayout),
            self.standard() && axis >= self.dims().len() ==> r == Err::<(), _>(
                NdArrayShuffleError::InvalidAxis(axis),
            ),
            self.standard() && axis < self.dims().len() ==> r is Ok,
    {
        if !self.standard {
            Err(NdArrayShuffleError::NonStandardLayout)
        } else if axis >= self.shape.len() {
            Err(NdArrayShuffleError::InvalidAxis(axis))
        } else {
            Ok(())
        }
    }

    /// How many seeds a shuffle along `axis` draws: the number of segments, that is
    /// the product of the sizes before `axis`, or 0 when there is nothing to shuffle.
    pub fn seeds_needed(&self, axis: usize) -> (r: usize)
        requires
            self.wf(),
        ensures
            r == self.seeds_wanted(axis as int),
    {
        if self.standard && axis < self.shape.len() && self.data.len() > 0 {
            let (p, _, _) = segment_sizes(&self.shape, axis, self.data.len());
            p
        } else {
            0
        }
    }
}

impl<T: Send> NdArray<T> {
    /// Shuffles the array in place along `axis`, segment `k` with a generator
    /// started from `seeds[k]`; the seeds are drawn beforehand, one per segment.
    pub fn shuffle_inplace_seeded(&mut self, axis: usize, seeds: &Vec<[u8; 32]>) -> (r: Result<
        (),
        NdArrayShuffleError,
    >)
        requires
            old(self).wf(),
            seeds@.len() == old(self).seeds_wanted(axis as int),
        ensures
            old(self).shuffle_outcome(*final(self), axis, r),
    {
        let checked = self.check_request(axis);
        if checked.is_err() {
            return checked;
        }
        if self.data.len() == 0 {
            return Ok(());
        }
        shuffle_buffer(self.data.as_mut_slice(), &self.shape, axis, seeds);
        Ok(())
    }

    /// Shuffles the array in place along `axis`: draws one seed per segment from
    /// `rng`, in segment order, then shuffles each segment with its own generator.
    /// On a refused request nothing is drawn.
    pub fn shuffle_inplace_with(&mut self, axis: usize, rng: &mut SmallRng) -> (r: Result<(), NdArrayShuffleError>)
        requires
            old(self).wf(),
        ensures
            old(self).shuffle_outcome(*final(self), axis, r),
    {
        let count = self.seeds_needed(axis);
        let mut seeds: Vec<[u8; 32]> = Vec::new();
        while seeds.len() < count
            invariant
                seeds@.len() <= count,
            decreases count - seeds@.len(),
        {
            seeds.push(next_seed(rng));
        }
        self.shuffle_inplace_seeded(axis, &seeds)
    }

    /// Shuffles the array in place along `axis` with a freshly seeded generator.
    pub fn shuffle_inplace(&mut self, axis: usize) -> (r: Result<(), NdArrayShuffleError>)
        requires
            old(self).wf(),
        ensures
            old(self).shuffle_outcome(*final(self), axis, r),
    {
        let mut rng = default_rng();
        self.shuffle_inplace_with(axis, &mut rng)
    }
}

impl<T: Clone> NdArray<T> {
    /// `c` has the shape and layout of `self`, and a clone of each of its elements.
    pub open spec fn is_copy(&self, c: NdArray<T>) -> bool {
        &&& c.wf() == self.wf()
        &&& c.dims() == self.dims()
        &&& c.standard() == self.standard()
        &&& c.elems().len() == self.elems().len()
        &&& forall|i: int| 0 <= i < self.elems().len() ==> cloned::<T>(self.elems()[i], #[trigger] c.elems()[i])
    }

    /// A copy of the array, each element cloned.
    pub fn copy(&self) -> (r: NdArray<T>)
        ensures
            self.is_copy(r),
    {
        let shape = self.shape.clone();
        proof {
            assert(shape@ =~= self.shape@);
        }
        NdArray { data: self.data.clone(), shape, standard: self.standard }
    }
}

impl<T: Clone + Send> NdArray<T> {
    /// A copy of the array shuffled along `axis` with `rng`; the array itself is
    /// untouched. Refuses a non-standard layout, then an axis that does not exist.
    pub fn shuffle_with(&self, axis: usize, rng: &mut SmallRng) -> (r: Result<NdArray<T>, NdArrayShuffleError>)
        requires
            self.wf(),
        ensures
            !self.standard() ==> r == Err::<NdArray<T>, _>(NdArrayShuffleError::NonStandardLayout),
            self.standard() && axis >= self.dims().len() ==> r == Err::<NdArray<T>, _>(
                NdArrayShuffleError::InvalidAxis(axis),
            ),
            self.standard() && axis < self.dims().len() ==> r is Ok,
            r matches Ok(a) ==> exists|c: NdArray<T>|
                self.is_copy(c) && #[trigger] c.shuffle_outcome(a, axis, Ok::<(), NdArrayShuffleError>(())),
    {
        match self.check_request(axis) {
            Err(e) => Err(e),
            Ok(()) => {
                let mut out = self.copy();
                let ghost c = out;
                let done = out.shuffle_inplace_with(axis, rng);
                let r = Ok(out);
                proof {
                    assert(done is Ok);
                    assert(r->Ok_0 == out);
                    assert(c.shuffle_outcome(r->Ok_0, axis, Ok::<(), NdArrayShuffleError>(())));
                }
                r
            },
        }
    }

    /// A copy of the array shuffled along `axis` with a freshly seeded generator.
    pub fn shuffle(&self, axis: usize) -> (r: Result<NdArray<T>, NdArrayShuffleError>)
        requires
            self.wf(),
        ensures
            !self.standard() ==> r == Err::<NdArray<T>, _>(NdArrayShuffleError::NonStandardLayout),
            self.standard() && axis >= self.dims().len() ==> r == Err::<NdArray<T>, _>(
                NdArrayShuffleError::InvalidAxis(axis),
            ),
            self.standard() && axis < self.dims().len() ==> r is Ok,
            r matches Ok(a) ==> exists|c: NdArray<T>|
                self.is_copy(c) && #[trigger] c.shuffle_outcome(a, axis, Ok::<(), NdArrayShuffleError>(())),
    {
        let mut rng = default_rng();
        self.shuffle_with(axis, &mut rng)
    }
}

} // verus!
