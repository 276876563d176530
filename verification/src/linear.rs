//! The mathematics of dense multi-dimensional addressing: the cell count of a
//! shape, the bounds predicate, and the bijection between coordinate vectors
//! and flat offsets, with the lemmas that make it a bijection.
//!
//! Axis 0 varies fastest (stride 1); each later axis's stride is the product
//! of all earlier shape components.

use vstd::prelude::*;

verus! {

/// Number of cells of a shape: the product of all its components.
/// The empty shape has exactly one cell (the empty coordinate vector).
pub open spec fn volume(shape: Seq<usize>) -> int
    decreases shape.len(),
{
    if shape.len() == 0 {
        1
    } else {
        shape[0] * volume(shape.drop_first())
    }
}

/// A coordinate vector lies inside a shape: same dimensionality, and every
/// component strictly below the matching shape component. Components are
/// unsigned, so no lower bound is needed.
pub open spec fn in_shape(shape: Seq<usize>, coords: Seq<usize>) -> bool {
    &&& coords.len() == shape.len()
    &&& forall|i: int| 0 <= i < shape.len() ==> coords[i] < shape[i]
}

/// The flat offset of a coordinate vector.
pub open spec fn flat_of(shape: Seq<usize>, coords: Seq<usize>) -> int
    decreases shape.len(),
{
    if shape.len() == 0 {
        0
    } else {
        coords[0] + shape[0] * flat_of(shape.drop_first(), coords.drop_first())
    }
}

/// The coordinate vector of a flat offset; the inverse of `flat_of` for
/// offsets in `[0, volume(shape))`.
pub open spec fn coords_of(shape: Seq<usize>, offset: int) -> Seq<usize>
    decreases shape.len(),
{
    if shape.len() == 0 {
        Seq::empty()
    } else {
        seq![(offset % (shape[0] as int)) as usize].add(
            coords_of(shape.drop_first(), offset / (shape[0] as int)),
        )
    }
}

/// A shape with a zero component has no cells.
pub proof fn lemma_volume_zero_factor(shape: Seq<usize>, i: int)
    requires
        0 <= i < shape.len(),
        shape[i] == 0,
    ensures
        volume(shape) == 0,
    decreases shape.len(),
{
    if i == 0 {
        assert(volume(shape) == 0 * volume(shape.drop_first()));
    } else {
        lemma_volume_zero_factor(shape.drop_first(), i - 1);
        assert(volume(shape) == shape[0] * 0);
    }
}

/// A shape all of whose components are positive has at least one cell.
pub proof fn lemma_volume_positive(shape: Seq<usize>)
    requires
        forall|i: int| 0 <= i < shape.len() ==> shape[i] >= 1,
    ensures
        volume(shape) >= 1,
    decreases shape.len(),
{
    if shape.len() > 0 {
        assert(forall|i: int|
            0 <= i < shape.drop_first().len() ==> shape.drop_first()[i] >= 1);
        lemma_volume_positive(shape.drop_first());
        assert(shape[0] * volume(shape.drop_first()) >= 1) by (nonlinear_arith)
            requires
                shape[0] >= 1,
                volume(shape.drop_first()) >= 1,
        ;
    }
}

/// A shape with at least one cell has only positive components.
pub proof fn lemma_positive_volume_factors(shape: Seq<usize>, i: int)
    requires
        volume(shape) >= 1,
        0 <= i < shape.len(),
    ensures
        shape[i] >= 1,
{
    if shape[i] == 0 {
        lemma_volume_zero_factor(shape, i);
    }
}

/// An in-shape coordinate vector maps to an offset inside `[0, volume)`.
pub proof fn lemma_flat_of_bound(shape: Seq<usize>, coords: Seq<usize>)
    requires
        in_shape(shape, coords),
    ensures
        0 <= flat_of(shape, coords) < volume(shape),
    decreases shape.len(),
{
    if shape.len() == 0 {
        assert(volume(shape) == 1);
    } else {
        let s0 = shape[0] as int;
        let tail_s = shape.drop_first();
        let tail_c = coords.drop_first();
        assert(in_shape(tail_s, tail_c));
        lemma_flat_of_bound(tail_s, tail_c);
        assert(coords[0] + s0 * flat_of(tail_s, tail_c) < s0 * volume(tail_s))
            by (nonlinear_arith)
            requires
                0 <= (coords[0] as int) < s0,
                0 <= flat_of(tail_s, tail_c) < volume(tail_s),
        ;
        assert(coords[0] + s0 * flat_of(tail_s, tail_c) >= 0) by (nonlinear_arith)
            requires
                coords[0] >= 0,
                s0 >= 0,
                flat_of(tail_s, tail_c) >= 0,
        ;
    }
}

/// Appending a component multiplies the volume by it.
pub proof fn lemma_volume_push(shape: Seq<usize>, s: usize)
    ensures
        volume(shape.push(s)) == volume(shape) * s,
    decreases shape.len(),
{
    let p = shape.push(s);
    if shape.len() == 0 {
        assert(p.drop_first() =~= Seq::<usize>::empty());
        assert(p[0] == s);
        assert(volume(p.drop_first()) == 1);
        assert(volume(shape) == 1);
        assert(volume(p) == s * 1);
    } else {
        assert(p.drop_first() =~= shape.drop_first().push(s));
        lemma_volume_push(shape.drop_first(), s);
        assert(shape[0] * (volume(shape.drop_first()) * s)
            == (shape[0] * volume(shape.drop_first())) * s) by (nonlinear_arith);
    }
}

/// Appending an axis adds its contribution at the stride of everything before.
pub proof fn lemma_flat_of_push(shape: Seq<usize>, coords: Seq<usize>, s: usize, c: usize)
    requires
        coords.len() == shape.len(),
    ensures
        flat_of(shape.push(s), coords.push(c))
            == flat_of(shape, coords) + c * volume(shape),
    decreases shape.len(),
{
    let ps = shape.push(s);
    let pc = coords.push(c);
    if shape.len() == 0 {
        assert(ps.drop_first() =~= Seq::<usize>::empty());
        assert(pc.drop_first() =~= Seq::<usize>::empty());
        assert(ps[0] == s);
        assert(pc[0] == c);
        assert(flat_of(ps.drop_first(), pc.drop_first()) == 0);
        assert(flat_of(ps, pc) == c + s * 0);
        assert(volume(shape) == 1);
    } else {
        assert(ps.drop_first() =~= shape.drop_first().push(s));
        assert(pc.drop_first() =~= coords.drop_first().push(c));
        lemma_flat_of_push(shape.drop_first(), coords.drop_first(), s, c);
        let f = flat_of(shape.drop_first(), coords.drop_first());
        let v = volume(shape.drop_first());
        assert(flat_of(ps, pc) == coords[0] + shape[0] * (f + c * v));
        assert(shape[0] * (f + c * v) == shape[0] * f + c * (shape[0] * v))
            by (nonlinear_arith);
    }
}

/// The volume of a prefix never exceeds the whole volume when every
/// component is positive.
pub proof fn lemma_volume_take_le(shape: Seq<usize>, i: int)
    requires
        forall|j: int| 0 <= j < shape.len() ==> shape[j] >= 1,
        0 <= i <= shape.len(),
    ensures
        volume(shape.take(i)) >= 1,
        volume(shape.take(i)) <= volume(shape),
    decreases shape.len() - i,
{
    assert(forall|j: int| 0 <= j < shape.take(i).len() ==> shape.take(i)[j] >= 1);
    lemma_volume_positive(shape.take(i));
    if i == shape.len() {
        assert(shape.take(i) =~= shape);
    } else {
        assert(shape.take(i + 1) =~= shape.take(i).push(shape[i]));
        lemma_volume_push(shape.take(i), shape[i]);
        assert(volume(shape.take(i)) * shape[i] >= volume(shape.take(i)) * 1)
            by (nonlinear_arith)
            requires
                shape[i] >= 1,
                volume(shape.take(i)) >= 1,
        ;
        lemma_volume_take_le(shape, i + 1);
    }
}

/// Delinearizing any valid flat offset yields an in-shape coordinate vector
/// that linearizes back to the same offset: `flat_of` is onto `[0, volume)`
/// and `coords_of` is its right inverse there.
pub proof fn lemma_flat_of_coords_of(shape: Seq<usize>, offset: int)
    requires
        0 <= offset < volume(shape),
    ensures
        in_shape(shape, coords_of(shape, offset)),
        flat_of(shape, coords_of(shape, offset)) == offset,
    decreases shape.len(),
{
    if shape.len() == 0 {
        assert(coords_of(shape, offset) =~= Seq::<usize>::empty());
    } else {
        let s0 = shape[0] as int;
        let tail = shape.drop_first();
        lemma_positive_volume_factors(shape, 0);
        assert(volume(tail) >= 1) by (nonlinear_arith)
            requires
                s0 * volume(tail) >= 1,
                s0 >= 1,
        ;
        let q = offset / s0;
        let r = offset % s0;
        vstd::arithmetic::div_mod::lemma_fundamental_div_mod(offset, s0);
        vstd::arithmetic::div_mod::lemma_mod_division_less_than_divisor(offset, s0);
        vstd::arithmetic::div_mod::lemma_div_pos_is_pos(offset, s0);
        assert(offset < s0 * volume(tail));
        vstd::arithmetic::div_mod::lemma_multiply_divide_lt(offset, s0, volume(tail));
        lemma_flat_of_coords_of(tail, q);
        let c = coords_of(shape, offset);
        assert(c.drop_first() =~= coords_of(tail, q));
        assert(c[0] == r as usize);
        assert(flat_of(shape, c) == r + s0 * q);
        assert(in_shape(shape, c)) by {
            assert(forall|i: int|
                1 <= i < shape.len() ==> c[i] == coords_of(tail, q)[i - 1]);
        }
    }
}

/// Linearizing any in-shape coordinate vector yields an offset that
/// delinearizes back to the same coordinates: `coords_of` is also a left
/// inverse of `flat_of`, so the mapping is a bijection.
pub proof fn lemma_coords_of_flat_of(shape: Seq<usize>, coords: Seq<usize>)
    requires
        in_shape(shape, coords),
    ensures
        coords_of(shape, flat_of(shape, coords)) == coords,
    decreases shape.len(),
{
    if shape.len() == 0 {
        assert(coords_of(shape, flat_of(shape, coords)) =~= coords);
    } else {
        let s0 = shape[0] as int;
        let c0 = coords[0] as int;
        let tail_s = shape.drop_first();
        let tail_c = coords.drop_first();
        assert(in_shape(tail_s, tail_c));
        lemma_flat_of_bound(tail_s, tail_c);
        let ft = flat_of(tail_s, tail_c);
        let f = flat_of(shape, coords);
        assert(f == ft * s0 + c0) by (nonlinear_arith)
            requires
                f == c0 + s0 * ft,
        ;
        vstd::arithmetic::div_mod::lemma_fundamental_div_mod_converse_mod(f, s0, ft, c0);
        vstd::arithmetic::div_mod::lemma_fundamental_div_mod_converse_div(f, s0, ft, c0);
        lemma_coords_of_flat_of(tail_s, tail_c);
        assert(coords_of(shape, f) =~= coords);
    }
}

} // verus!
