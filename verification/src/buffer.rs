//! A dense, fixed-shape N-dimensional container addressable by a flat offset
//! or by an N-component coordinate vector. The coordinate/offset mapping is
//! the bijection of `crate::linear`; the backing store always holds exactly
//! one element per cell of the shape.

use vstd::array::ArrayAdditionalExecFns;
use vstd::prelude::*;

use crate::linear::{
    coords_of, flat_of, in_shape, lemma_flat_of_bound, lemma_flat_of_coords_of,
    lemma_flat_of_push, lemma_positive_volume_factors, lemma_volume_push,
    lemma_volume_take_le, lemma_volume_zero_factor, volume,
};

verus! {

/// A flat store of `size[0] * size[1] * ... * size[N-1]` elements together
/// with the shape itself. The shape is fixed at construction.
pub struct Buffer<T, const N: usize> {
    pub items: Vec<T>,
    pub size: [usize; N],
}

impl<const N: usize, T> Buffer<T, N> {
    /// The store holds exactly one element per cell of the shape.
    pub open spec fn wf(self) -> bool {
        &&& self.items@.len() == volume(self.size@)
        &&& volume(self.size@) <= usize::MAX
    }

    /// A buffer of the given shape with every element set to `fill`.
    /// A shape with a zero component gives a legal, empty buffer.
    pub fn build(fill: T, size: [usize; N]) -> (r: Self) where T: Copy
        requires
            volume(size@) <= usize::MAX,
        ensures
            r.wf(),
            r.size == size,
            r.items@.len() == volume(size@),
            forall|i: int| 0 <= i < r.items@.len() ==> r.items@[i] == fill,
    {
        let mut any_zero = false;
        let mut i: usize = 0;
        #[verifier::loop_isolation(false)]
        while i < N
            invariant
                i <= N,
                any_zero <==> exists|j: int| 0 <= j < i && size@[j] == 0,
            decreases N - i,
        {
            if size[i] == 0 {
                any_zero = true;
            }
            i += 1;
        }

        let mut total: usize = 1;
        if any_zero {
            proof {
                let j = choose|j: int| 0 <= j < N && size@[j] == 0;
                lemma_volume_zero_factor(size@, j);
            }
            total = 0;
        } else {
            assert(forall|j: int| 0 <= j < N ==> size@[j] >= 1);
            let mut k: usize = 0;
            proof {
                assert(size@.take(0) =~= Seq::<usize>::empty());
            }
            #[verifier::loop_isolation(false)]
            while k < N
                invariant
                    k <= N,
                    total == volume(size@.take(k as int)),
                decreases N - k,
            {
                proof {
                    assert(size@.take(k + 1) =~= size@.take(k as int).push(size@[k as int]));
                    lemma_volume_push(size@.take(k as int), size@[k as int]);
                    lemma_volume_take_le(size@, k + 1);
                }
                total = total * size[k];
                k += 1;
            }
            proof {
                assert(size@.take(N as int) =~= size@);
            }
        }

        let mut items: Vec<T> = Vec::new();
        #[verifier::loop_isolation(false)]
        while items.len() < total
            invariant
                items@.len() <= total,
                forall|j: int| 0 <= j < items@.len() ==> items@[j] == fill,
            decreases total - items@.len(),
        {
            items.push(fill);
        }
        Self { items, size }
    }

    /// Overwrite every element in place with `fill`.
    pub fn fill(&mut self, fill: T) where T: Copy
        ensures
            final(self).size == old(self).size,
            final(self).items@.len() == old(self).items@.len(),
            forall|i: int| 0 <= i < final(self).items@.len() ==> final(self).items@[i] == fill,
    {
        let n = self.items.len();
        let mut i: usize = 0;
        #[verifier::loop_isolation(false)]
        while i < n
            invariant
                i <= n,
                self.items@.len() == n,
                self.size == old(self).size,
                forall|j: int| 0 <= j < i ==> self.items@[j] == fill,
            decreases n - i,
        {
            self.items[i] = fill;
            i += 1;
        }
    }

    /// True iff every component of `indices` is strictly below the matching
    /// shape component. Coordinates are unsigned, so no lower bound applies.
    pub fn surrounds(&self, indices: [usize; N]) -> (r: bool)
        ensures
            r == in_shape(self.size@, indices@),
    {
        let mut i: usize = 0;
        #[verifier::loop_isolation(false)]
        while i < N
            invariant
                i <= N,
                forall|j: int| 0 <= j < i ==> indices@[j] < self.size@[j],
            decreases N - i,
        {
            if indices[i] >= self.size[i] {
                return false;
            }
            i += 1;
        }
        true
    }

    /// The flat offset of an in-bounds coordinate vector: axis 0 varies
    /// fastest, each later axis's stride is the product of all earlier sizes.
    pub fn linearize(&self, indices: [usize; N]) -> (r: usize)
        requires
            self.wf(),
            in_shape(self.size@, indices@),
        ensures
            r == flat_of(self.size@, indices@),
            r < self.items@.len(),
    {
        let mut index: usize = 0;
        let mut stride: usize = 1;
        let mut i: usize = 0;
        proof {
            assert(self.size@.take(0) =~= Seq::<usize>::empty());
            assert(indices@.take(0) =~= Seq::<usize>::empty());
        }
        #[verifier::loop_isolation(false)]
        while i < N
            invariant
                i <= N,
                stride == volume(self.size@.take(i as int)),
                index == flat_of(self.size@.take(i as int), indices@.take(i as int)),
            decreases N - i,
        {
            proof {
                assert(self.size@.take(i + 1)
                    =~= self.size@.take(i as int).push(self.size@[i as int]));
                assert(indices@.take(i + 1)
                    =~= indices@.take(i as int).push(indices@[i as int]));
                lemma_volume_push(self.size@.take(i as int), self.size@[i as int]);
                lemma_flat_of_push(
                    self.size@.take(i as int),
                    indices@.take(i as int),
                    self.size@[i as int],
                    indices@[i as int],
                );
                lemma_volume_take_le(self.size@, i + 1);
                assert(in_shape(self.size@.take(i + 1), indices@.take(i + 1)));
                lemma_flat_of_bound(self.size@.take(i + 1), indices@.take(i + 1));
            }
            index = index + indices[i] * stride;
            stride = stride * self.size[i];
            i += 1;
        }
        proof {
            assert(self.size@.take(N as int) =~= self.size@);
            assert(indices@.take(N as int) =~= indices@);
            lemma_flat_of_bound(self.size@, indices@);
        }
        index
    }

    /// The coordinate vector of a flat offset below the buffer's cell count;
    /// the exact inverse of `linearize`.
    pub fn delinearize(&self, offset: usize) -> (r: [usize; N])
        requires
            self.wf(),
            offset < volume(self.size@),
        ensures
            r@ == coords_of(self.size@, offset as int),
            in_shape(self.size@, r@),
    {
        let mut out: [usize; N] = [0; N];
        let mut rem: usize = offset;
        let mut i: usize = 0;
        proof {
            assert forall|j: int| 0 <= j < N implies self.size@[j] >= 1 by {
                lemma_positive_volume_factors(self.size@, j);
            }
            assert(self.size@.skip(0) =~= self.size@);
            assert(out@.take(0) =~= Seq::<usize>::empty());
            assert(coords_of(self.size@, offset as int)
                =~= out@.take(0) + coords_of(self.size@.skip(0), offset as int));
        }
        #[verifier::loop_isolation(false)]
        while i < N
            invariant
                i <= N,
                out@.len() == N,
                rem < volume(self.size@.skip(i as int)),
                coords_of(self.size@, offset as int)
                    == out@.take(i as int) + coords_of(self.size@.skip(i as int), rem as int),
            decreases N - i,
        {
            let ghost pre = out@;
            let ghost old_rem = rem;
            let ghost sk = self.size@.skip(i as int);
            let s = self.size[i];
            proof {
                assert(sk[0] == self.size@[i as int]);
                assert(sk.drop_first() =~= self.size@.skip(i + 1));
                assert(volume(sk) == s * volume(self.size@.skip(i + 1)));
                vstd::arithmetic::div_mod::lemma_multiply_divide_lt(
                    rem as int,
                    s as int,
                    volume(self.size@.skip(i + 1)),
                );
                vstd::arithmetic::div_mod::lemma_mod_division_less_than_divisor(
                    rem as int,
                    s as int,
                );
                vstd::arithmetic::div_mod::lemma_div_pos_is_pos(rem as int, s as int);
            }
            out[i] = rem % s;
            rem = rem / s;
            proof {
                vstd::arithmetic::div_mod::lemma_fundamental_div_mod(old_rem as int, s as int);
                assert(out@.take(i + 1) =~= pre.take(i as int).push(out@[i as int]));
                assert(coords_of(sk, old_rem as int)
                    == seq![out@[i as int]] + coords_of(self.size@.skip(i + 1), rem as int));
                assert(pre.take(i as int) + coords_of(sk, old_rem as int)
                    =~= out@.take(i + 1) + coords_of(self.size@.skip(i + 1), rem as int));
            }
            i += 1;
        }
        proof {
            assert(self.size@.skip(N as int) =~= Seq::<usize>::empty());
            assert(out@.take(N as int) =~= out@);
            assert(out@ + coords_of(self.size@.skip(N as int), rem as int) =~= out@);
            lemma_flat_of_coords_of(self.size@, offset as int);
        }
        out
    }

    /// Write `value` at `indices` if they are in bounds, else report a
    /// bounds violation and leave the buffer untouched. Never panics.
    pub fn try_set(&mut self, value: T, indices: [usize; N]) -> (r: Result<(), &'static str>)
        requires
            old(self).wf(),
        ensures
            final(self).wf(),
            final(self).size == old(self).size,
            r is Ok <==> in_shape(old(self).size@, indices@),
            r is Ok ==> final(self).items@
                == old(self).items@.update(flat_of(old(self).size@, indices@), value),
            r is Err ==> *final(self) == *old(self),
    {
        if !self.surrounds(indices) {
            return Err("out of bounds");
        }
        let idx = self.linearize(indices);
        self.items[idx] = value;
        Ok(())
    }

    /// Read the element at a flat offset.
    pub fn get(&self, index: usize) -> (r: &T)
        requires
            index < self.items@.len(),
        ensures
            *r == self.items@[index as int],
    {
        &self.items[index]
    }

    /// Overwrite the element at a flat offset.
    pub fn set(&mut self, index: usize, value: T)
        requires
            index < old(self).items@.len(),
        ensures
            final(self).size == old(self).size,
            final(self).items@ == old(self).items@.update(index as int, value),
    {
        self.items[index] = value;
    }

    /// Read the element at an in-bounds coordinate vector; defined as
    /// `linearize` followed by flat access.
    pub fn get_at(&self, indices: [usize; N]) -> (r: &T)
        requires
            self.wf(),
            in_shape(self.size@, indices@),
        ensures
            *r == self.items@[flat_of(self.size@, indices@)],
    {
        let idx = self.linearize(indices);
        &self.items[idx]
    }

    /// Overwrite the element at an in-bounds coordinate vector; defined as
    /// `linearize` followed by flat access.
    pub fn set_at(&mut self, indices: [usize; N], value: T)
        requires
            old(self).wf(),
            in_shape(old(self).size@, indices@),
        ensures
            final(self).wf(),
            final(self).size == old(self).size,
            final(self).items@
                == old(self).items@.update(flat_of(old(self).size@, indices@), value),
    {
        let idx = self.linearize(indices);
        self.items[idx] = value;
    }
}

} // verus!
