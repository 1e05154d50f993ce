//! Row-major bitmaps over a rectangular grid.
use vstd::prelude::*;
use vstd::std_specs::cmp::PartialEqSpec;

verus! {

/// Linear index of cell `(i, j)` in a row-major grid with `n` columns.
pub open spec fn lin(i: int, j: int, n: int) -> int {
    i * n + j
}

/// `(i, j)` lies inside a grid of the given shape.
pub open spec fn in_grid(i: int, j: int, shape: (usize, usize)) -> bool {
    0 <= i < shape.0 && 0 <= j < shape.1
}

/// The number of cells of a grid.
pub open spec fn area(shape: (usize, usize)) -> int {
    shape.0 as int * shape.1 as int
}

pub proof fn lemma_lin_bounds(i: int, j: int, shape: (usize, usize))
    requires
        in_grid(i, j, shape),
    ensures
        0 <= i * shape.1 <= lin(i, j, shape.1 as int) < area(shape),
{
    let n = shape.1 as int;
    let m = shape.0 as int;
    assert(0 <= i * n) by (nonlinear_arith)
        requires
            0 <= i,
            0 <= n,
    ;
    assert(i * n + j < m * n) by (nonlinear_arith)
        requires
            0 <= i < m,
            0 <= j < n,
    ;
}

pub proof fn lemma_lin_injective(i1: int, j1: int, i2: int, j2: int, n: int)
    requires
        0 <= j1 < n,
        0 <= j2 < n,
        lin(i1, j1, n) == lin(i2, j2, n),
    ensures
        i1 == i2,
        j1 == j2,
{
    if i1 < i2 {
        assert(i1 * n + n <= i2 * n) by (nonlinear_arith)
            requires
                i1 < i2,
                0 < n,
        ;
    } else if i2 < i1 {
        assert(i2 * n + n <= i1 * n) by (nonlinear_arith)
            requires
                i2 < i1,
                0 < n,
        ;
    }
}

/// Linear index of cell `pos` in a row-major grid of the given shape.
pub fn flat_index(pos: (usize, usize), shape: (usize, usize)) -> (idx: usize)
    requires
        in_grid(pos.0 as int, pos.1 as int, shape),
        area(shape) <= usize::MAX,
    ensures
        idx == lin(pos.0 as int, pos.1 as int, shape.1 as int),
        idx < area(shape),
{
    proof {
        lemma_lin_bounds(pos.0 as int, pos.1 as int, shape);
    }
    pos.0 * shape.1 + pos.1
}

/// Every cell of `s` lies in the grid.
pub open spec fn all_in_grid(s: Seq<(usize, usize)>, shape: (usize, usize)) -> bool {
    forall|x: int| 0 <= x < s.len() ==> in_grid((#[trigger] s[x]).0 as int, s[x].1 as int, shape)
}

/// A vector of `size` copies of `default`.
pub fn new_array<T: Copy>(size: usize, default: T) -> (arr: Vec<T>)
    ensures
        arr@ == Seq::new(size as nat, |k: int| default),
{
    let mut arr: Vec<T> = Vec::new();
    let mut k: usize = 0;
    while k < size
        invariant
            k <= size,
            arr@ == Seq::new(k as nat, |q: int| default),
        decreases size - k,
    {
        arr.push(default);
        k = k + 1;
        assert(arr@ =~= Seq::new(k as nat, |q: int| default));
    }
    arr
}

/// Sets cell `pos` of a row-major bitmap with shape `shape` to `value`.
pub fn apply_touch<T: Copy>(shape: (usize, usize), array: &mut Vec<T>, pos: (usize, usize), value: T)
    requires
        in_grid(pos.0 as int, pos.1 as int, shape),
        old(array)@.len() == area(shape),
        area(shape) <= usize::MAX,
    ensures
        final(array)@ == old(array)@.update(lin(pos.0 as int, pos.1 as int, shape.1 as int), value),
{
    let idx = flat_index(pos, shape);
    array.set(idx, value);
}

/// Writes `values[p]` into cell `pos` of each plane `arrays[p]`, for the
/// planes that have a value.
pub fn multi_apply_touch<T: Copy>(
    shape: (usize, usize),
    arrays: &mut Vec<Vec<T>>,
    pos: (usize, usize),
    values: &Vec<T>,
)
    requires
        in_grid(pos.0 as int, pos.1 as int, shape),
        area(shape) <= usize::MAX,
        forall|p: int| 0 <= p < old(arrays)@.len() ==> (#[trigger] old(arrays)@[p])@.len() == area(shape),
    ensures
        final(arrays)@.len() == old(arrays)@.len(),
        forall|p: int|
            0 <= p < final(arrays)@.len() ==> (#[trigger] final(arrays)@[p])@ == if p < values@.len() {
                old(arrays)@[p]@.update(lin(pos.0 as int, pos.1 as int, shape.1 as int), values@[p])
            } else {
                old(arrays)@[p]@
            },
{
    let idx = flat_index(pos, shape);
    let count = if arrays.len() < values.len() { arrays.len() } else { values.len() };
    let mut p: usize = 0;
    while p < count
        invariant
            count <= arrays@.len(),
            count <= values@.len(),
            p <= count,
            idx == lin(pos.0 as int, pos.1 as int, shape.1 as int),
            0 <= idx < area(shape),
            arrays@.len() == old(arrays)@.len(),
            forall|q: int| 0 <= q < old(arrays)@.len() ==> (#[trigger] old(arrays)@[q])@.len() == area(shape),
            forall|q: int|
                0 <= q < arrays@.len() ==> (#[trigger] arrays@[q])@ == if q < p {
                    old(arrays)@[q]@.update(idx as int, values@[q])
                } else {
                    old(arrays)@[q]@
                },
        decreases count - p,
    {
        let mut plane: Vec<T> = Vec::new();
        std::mem::swap(&mut plane, &mut arrays[p]);
        plane.set(idx, values[p]);
        std::mem::swap(&mut plane, &mut arrays[p]);
        p = p + 1;
    }
}


/// `plane` with the cell of each of `cs` set to `v`, in order.
pub open spec fn mark(plane: Seq<bool>, cs: Seq<(usize, usize)>, n: int, v: bool) -> Seq<bool>
    decreases cs.len(),
{
    if cs.len() == 0 {
        plane
    } else {
        mark(plane, cs.drop_last(), n, v).update(lin(cs.last().0 as int, cs.last().1 as int, n), v)
    }
}

pub proof fn lemma_mark_len(plane: Seq<bool>, cs: Seq<(usize, usize)>, n: int, v: bool)
    requires
        forall|x: int| 0 <= x < cs.len() ==> 0 <= lin((#[trigger] cs[x]).0 as int, cs[x].1 as int, n) < plane.len(),
    ensures
        mark(plane, cs, n, v).len() == plane.len(),
    decreases cs.len(),
{
    if cs.len() > 0 {
        assert forall|x: int| 0 <= x < cs.drop_last().len() implies 0 <= lin((#[trigger] cs.drop_last()[x]).0 as int, cs.drop_last()[x].1 as int, n) < plane.len() by {
            assert(cs.drop_last()[x] == cs[x]);
        }
        lemma_mark_len(plane, cs.drop_last(), n, v);
    }
}


/// The items of `v1` equal to no item of `v2`, in order.
pub fn subtract<T: Copy + Eq>(v1: &Vec<T>, v2: &Vec<T>) -> (v: Vec<T>)
    requires
        T::obeys_eq_spec(),
    ensures
        v@ == v1@.filter(|x: T| !(exists|y: int| 0 <= y < v2@.len() && x.eq_spec(&v2@[y]))),
{
    let ghost keep = |x: T| !(exists|y: int| 0 <= y < v2@.len() && x.eq_spec(&v2@[y]));
    let mut v: Vec<T> = Vec::new();
    let mut i: usize = 0;
    while i < v1.len()
        invariant
            T::obeys_eq_spec(),
            i <= v1@.len(),
            keep == (|x: T| !(exists|y: int| 0 <= y < v2@.len() && x.eq_spec(&v2@[y]))),
            v@ == v1@.take(i as int).filter(keep),
        decreases v1@.len() - i,
    {
        let x = v1[i];
        let mut found = false;
        let mut j: usize = 0;
        while j < v2.len() && !found
            invariant
                T::obeys_eq_spec(),
                j <= v2@.len(),
                found == exists|y: int| 0 <= y < j && x.eq_spec(&v2@[y]),
            decreases v2@.len() - j,
        {
            if x == v2[j] {
                found = true;
            }
            j = j + 1;
        }
        proof {
            assert(v1@.take(i + 1).drop_last() =~= v1@.take(i as int));
            assert(v1@.take(i + 1).last() == x);
            reveal(Seq::filter);
        }
        if !found {
            v.push(x);
        }
        i = i + 1;
    }
    assert(v1@.take(i as int) =~= v1@);
    v
}

} // verus!


