//! The invariants that guarded touches keep: every placed touch is painted,
//! every centre whose brush meets an existing pixel of the opposite polarity
//! is invalid, and every required pixel has no valid opposite touch left.
use vstd::prelude::*;
use crate::brushes::{big_offsets, cells, covers, dilated, hits, lemma_square_at, shifted, square, valid_shape};
use crate::design::{pixel_required, touch_free, Design, Planes, Setup};
use crate::brushes::lemma_cells_in_grid;
use crate::scan::lemma_in_filter;
use crate::grid::{area, in_grid, lemma_lin_bounds, lemma_lin_injective, lin};

verus! {

/// Every offset's mirror image is an offset too, and both sides of the
/// nominal shape are odd, so the brush is centred on its middle cell.
pub open spec fn symmetric_odd(offs: Seq<(i32, i32)>, shape: (usize, usize)) -> bool {
    &&& shape.0 % 2 == 1
    &&& shape.1 % 2 == 1
    &&& forall|q: int|
        0 <= q < offs.len() ==> #[trigger] has_mirror(offs, offs[q])
}

/// Some offset of `offs` is the mirror image of `o`.
pub open spec fn has_mirror(offs: Seq<(i32, i32)>, o: (i32, i32)) -> bool {
    exists|r: int| 0 <= r < offs.len() && (#[trigger] offs[r]).0 == -o.0 && offs[r].1 == -o.1
}

/// The linear index of a grid cell.
pub open spec fn at(c: (usize, usize), shape: (usize, usize)) -> int {
    lin(c.0 as int, c.1 as int, shape.1 as int)
}

/// The cell with linear index `k`, as the offset `o` placed at `pos` gives it.
pub proof fn lemma_hits_cell(o: (i32, i32), pos: (usize, usize), shape: (usize, usize), k: int, c: (usize, usize))
    requires
        hits(o, pos, shape, k),
        in_grid(c.0 as int, c.1 as int, shape),
        at(c, shape) == k,
    ensures
        shifted(o, pos) == (c.0 as int, c.1 as int),
{
    let s = shifted(o, pos);
    lemma_lin_injective(s.0, s.1, c.0 as int, c.1 as int, shape.1 as int);
}

/// With a symmetric brush, `x` lies under the brush at `c` exactly when `c`
/// lies under the brush at `x`.
pub proof fn lemma_cover_mirror(offs: Seq<(i32, i32)>, bshape: (usize, usize), shape: (usize, usize), c: (usize, usize), x: (usize, usize))
    requires
        symmetric_odd(offs, bshape),
        in_grid(c.0 as int, c.1 as int, shape),
        in_grid(x.0 as int, x.1 as int, shape),
        covers(offs, c, shape, at(x, shape)),
    ensures
        covers(offs, x, shape, at(c, shape)),
{
    let q = choose|q: int| 0 <= q < offs.len() && #[trigger] hits(offs[q], c, shape, at(x, shape));
    lemma_hits_cell(offs[q], c, shape, at(x, shape), x);
    assert(has_mirror(offs, offs[q]));
    let r = choose|r: int| 0 <= r < offs.len() && (#[trigger] offs[r]).0 == -offs[q].0 && offs[r].1 == -offs[q].1;
    assert(hits(offs[r], x, shape, at(c, shape)));
}


/// Two placements of a symmetric brush that share a cell are within the big
/// brush of each other.
pub proof fn lemma_big_covers(
    offs: Seq<(i32, i32)>,
    bshape: (usize, usize),
    big: Seq<(i32, i32)>,
    shape: (usize, usize),
    t: (usize, usize),
    c: (usize, usize),
    k: int,
)
    requires
        symmetric_odd(offs, bshape),
        crate::brushes::centred(offs, bshape),
        bshape.0 <= crate::brushes::MAX_SIDE,
        bshape.1 <= crate::brushes::MAX_SIDE,
        big == big_offsets(offs, bshape),
        in_grid(t.0 as int, t.1 as int, shape),
        in_grid(c.0 as int, c.1 as int, shape),
        covers(offs, t, shape, k),
        covers(offs, c, shape, k),
    ensures
        covers(big, t, shape, at(c, shape)),
{
    let q1 = choose|q: int| 0 <= q < offs.len() && #[trigger] hits(offs[q], t, shape, k);
    let q2 = choose|q: int| 0 <= q < offs.len() && #[trigger] hits(offs[q], c, shape, k);
    let x = shifted(offs[q1], t);
    let y = shifted(offs[q2], c);
    lemma_lin_injective(x.0, x.1, y.0, y.1, shape.1 as int);
    assert(has_mirror(offs, offs[q2]));
    let r = choose|r: int| 0 <= r < offs.len() && (#[trigger] offs[r]).0 == -offs[q2].0 && offs[r].1 == -offs[q2].1;
    let m = bshape.0 as int;
    let n = bshape.1 as int;
    let o0 = offs[q1].0 + offs[r].0;
    let o1 = offs[q1].1 + offs[r].1;
    let i = o0 + m - 1;
    let j = o1 + n - 1;
    assert(0 <= i < 2 * m && 0 <= j < 2 * n);
    let sq = square(2 * bshape.0, 2 * bshape.1, bshape.0 - 1, bshape.1 - 1);
    lemma_square_at(2 * m, 2 * n, m - 1, n - 1, i, j);
    let idx = i * (2 * n) + j;
    let o = sq[idx];
    assert(o.0 as int == o0 && o.1 as int == o1);
    let pred = |o: (i32, i32)| dilated(offs, bshape, o);
    assert(o.0 == offs[q1].0 + offs[r].0 + 1 - bshape.0 % 2);
    assert(o.1 == offs[q1].1 + offs[r].1 + 1 - bshape.1 % 2);
    assert(pred(o));
    sq.lemma_filter_contains(pred, idx);
    assert(big.contains(o));
    let q3 = choose|q: int| 0 <= q < big.len() && big[q] == o;
    assert(shifted(big[q3], t) == (c.0 as int, c.1 as int));
    assert(hits(big[q3], t, shape, at(c, shape)));
}


/// The cells of a placement are exactly the cells that it covers.
pub proof fn lemma_cells_cover(offs: Seq<(i32, i32)>, pos: (usize, usize), shape: (usize, usize))
    ensures
        forall|x: int| 0 <= x < cells(offs, pos, shape).len() ==> covers(offs, pos, shape, at(#[trigger] cells(offs, pos, shape)[x], shape)),
        forall|k: int| #[trigger] covers(offs, pos, shape, k) ==> exists|x: int| 0 <= x < cells(offs, pos, shape).len() && at(cells(offs, pos, shape)[x], shape) == k,
    decreases offs.len(),
{
    if offs.len() > 0 {
        let d = offs.drop_last();
        lemma_cells_cover(d, pos, shape);
        let cs = cells(offs, pos, shape);
        let prev = cells(d, pos, shape);
        assert forall|x: int| 0 <= x < cs.len() implies covers(offs, pos, shape, at(#[trigger] cs[x], shape)) by {
            if x < prev.len() {
                assert(cs[x] == prev[x]);
                assert(covers(d, pos, shape, at(prev[x], shape)));
                let q = choose|q: int| 0 <= q < d.len() && #[trigger] hits(d[q], pos, shape, at(prev[x], shape));
                assert(d[q] == offs[q]);
                assert(hits(offs[q], pos, shape, at(cs[x], shape)));
            } else {
                assert(hits(offs[offs.len() - 1], pos, shape, at(cs[x], shape)));
            }
        }
        assert forall|k: int| #[trigger] covers(offs, pos, shape, k) implies exists|x: int| 0 <= x < cs.len() && at(cs[x], shape) == k by {
            let q = choose|q: int| 0 <= q < offs.len() && #[trigger] hits(offs[q], pos, shape, k);
            if q < offs.len() - 1 {
                assert(d[q] == offs[q]);
                assert(hits(d[q], pos, shape, k));
                assert(covers(d, pos, shape, k));
                let x = choose|x: int| 0 <= x < prev.len() && at(prev[x], shape) == k;
                assert(cs[x] == prev[x]);
            } else {
                assert(at(cs[cs.len() - 1], shape) == k);
            }
        }
    }
}

/// `mark` sets exactly the cells of its list.
pub proof fn lemma_mark_at(plane: Seq<bool>, cs: Seq<(usize, usize)>, n: int, k: int)
    requires
        0 <= k < plane.len(),
        forall|x: int| 0 <= x < cs.len() ==> 0 <= lin((#[trigger] cs[x]).0 as int, cs[x].1 as int, n) < plane.len(),
    ensures
        crate::grid::mark(plane, cs, n, true)[k] == (plane[k] || exists|x: int| 0 <= x < cs.len() && lin((#[trigger] cs[x]).0 as int, cs[x].1 as int, n) == k),
    decreases cs.len(),
{
    if cs.len() > 0 {
        let d = cs.drop_last();
        assert forall|x: int| 0 <= x < d.len() implies 0 <= lin((#[trigger] d[x]).0 as int, d[x].1 as int, n) < plane.len() by {
            assert(d[x] == cs[x]);
        }
        lemma_mark_at(plane, d, n, k);
        crate::grid::lemma_mark_len(plane, d, n, true);
        assert(0 <= lin(cs[cs.len() - 1].0 as int, cs[cs.len() - 1].1 as int, n) < plane.len());
        if exists|x: int| 0 <= x < cs.len() && lin((#[trigger] cs[x]).0 as int, cs[x].1 as int, n) == k {
            let x = choose|x: int| 0 <= x < cs.len() && lin((#[trigger] cs[x]).0 as int, cs[x].1 as int, n) == k;
            if x < cs.len() - 1 {
                assert(d[x] == cs[x]);
            }
        }
        if exists|x: int| 0 <= x < d.len() && lin((#[trigger] d[x]).0 as int, d[x].1 as int, n) == k {
            let x = choose|x: int| 0 <= x < d.len() && lin((#[trigger] d[x]).0 as int, d[x].1 as int, n) == k;
            assert(d[x] == cs[x]);
        }
    }
}


/// The void side of the invariants; the solid side is the same statement on
/// the inverted planes.
pub open spec fn half_consistent(st: Setup, p: Planes) -> bool {
    let b = st.brush;
    let sh = st.shape;
    // a placed touch has painted its whole footprint
    &&& forall|c: (usize, usize), k: int|
        #![trigger p.void_touch_existing[at(c, sh)], covers(b, c, sh, k)]
        in_grid(c.0 as int, c.1 as int, sh) && p.void_touch_existing[at(c, sh)] && covers(b, c, sh, k) ==> p.void_pixel_existing[k]
    // a centre whose footprint meets an existing pixel is invalid for the other polarity
    &&& forall|c: (usize, usize), k: int|
        #![trigger covers(b, c, sh, k), p.void_pixel_existing[k]]
        in_grid(c.0 as int, c.1 as int, sh) && covers(b, c, sh, k) && p.void_pixel_existing[k] ==> p.solid_touch_invalid[at(c, sh)]
    // no valid touch of the other polarity covers a required pixel
    &&& forall|c: (usize, usize), k: int|
        #![trigger p.void_pixel_required[at(c, sh)], covers(b, c, sh, k)]
        in_grid(c.0 as int, c.1 as int, sh) && p.void_pixel_required[at(c, sh)] && covers(b, c, sh, k) ==> p.solid_touch_invalid[k]
    // a required pixel is existing in neither polarity
    &&& forall|k: int|
        0 <= k < p.void_pixel_required.len() && #[trigger] p.void_pixel_required[k] ==> !p.solid_pixel_existing[k] && !p.void_pixel_existing[k]
}

/// Both sides of the invariants.
pub open spec fn consistent(st: Setup, p: Planes) -> bool {
    half_consistent(st, p) && half_consistent(st, p.inverted())
}

impl Setup {
    /// The brush is symmetric with odd sides, and the big brush is its
    /// self-dilation.
    pub open spec fn law_ready(self) -> bool {
        &&& valid_shape(self.shape)
        &&& crate::brushes::centred(self.brush, self.brush_shape)
        &&& 1 <= self.brush_shape.0 <= crate::brushes::MAX_SIDE
        &&& 1 <= self.brush_shape.1 <= crate::brushes::MAX_SIDE
        &&& self.big == big_offsets(self.brush, self.brush_shape)
        &&& symmetric_odd(self.brush, self.brush_shape)
    }
}

/// The cell of linear index `k`, given as the cell that some offset of
/// `offs` placed at `c` lands on.
pub proof fn lemma_covered_cell(offs: Seq<(i32, i32)>, c: (usize, usize), shape: (usize, usize), k: int) -> (x: (usize, usize))
    requires
        covers(offs, c, shape, k),
    ensures
        in_grid(x.0 as int, x.1 as int, shape),
        at(x, shape) == k,
{
    let q = choose|q: int| 0 <= q < offs.len() && #[trigger] hits(offs[q], c, shape, k);
    let y = shifted(offs[q], c);
    (y.0 as usize, y.1 as usize)
}

proof fn lemma_same_cell(a: (usize, usize), b: (usize, usize), shape: (usize, usize))
    requires
        in_grid(a.0 as int, a.1 as int, shape),
        in_grid(b.0 as int, b.1 as int, shape),
        at(a, shape) == at(b, shape),
    ensures
        a == b,
{
    lemma_lin_injective(a.0 as int, a.1 as int, b.0 as int, b.1 as int, shape.1 as int);
}

/// Painting and recording a void touch at `c` keeps every invariant but
/// possibly the invalidity of solid centres next to newly painted pixels,
/// provided no solid-existing pixel lies under the brush at `c`.
proof fn lemma_step_core(st: Setup, p: Planes, c: (usize, usize))
    requires
        st.law_ready(),
        p.sized(area(st.shape)),
        p.pixels_exclusive(),
        consistent(st, p),
        in_grid(c.0 as int, c.1 as int, st.shape),
        forall|k: int| covers(st.brush, c, st.shape, k) ==> !p.solid_pixel_existing[k],
    ensures
        half_consistent(st, st.painted(st.touched(p, c), c).inverted()),
        ({
            let q = st.painted(st.touched(p, c), c);
            let b = st.brush;
            let sh = st.shape;
            &&& forall|c2: (usize, usize), k: int|
                #![trigger q.void_touch_existing[at(c2, sh)], covers(b, c2, sh, k)]
                in_grid(c2.0 as int, c2.1 as int, sh) && q.void_touch_existing[at(c2, sh)] && covers(b, c2, sh, k) ==> q.void_pixel_existing[k]
            &&& forall|c2: (usize, usize), k: int|
                #![trigger q.void_pixel_required[at(c2, sh)], covers(b, c2, sh, k)]
                in_grid(c2.0 as int, c2.1 as int, sh) && q.void_pixel_required[at(c2, sh)] && covers(b, c2, sh, k) ==> q.solid_touch_invalid[k]
            &&& forall|k: int|
                0 <= k < q.void_pixel_required.len() && #[trigger] q.void_pixel_required[k] ==> !q.solid_pixel_existing[k] && !q.void_pixel_existing[k]
        }),
{
    let b = st.brush;
    let sh = st.shape;
    let q = st.painted(st.touched(p, c), c);
    let kc = at(c, sh);
    lemma_lin_bounds(c.0 as int, c.1 as int, sh);
    let inv = q.inverted();
    let pinv = p.inverted();
    // solid side
    assert forall|c2: (usize, usize), k: int|
        #![trigger inv.void_touch_existing[at(c2, sh)], covers(b, c2, sh, k)]
        in_grid(c2.0 as int, c2.1 as int, sh) && inv.void_touch_existing[at(c2, sh)] && covers(b, c2, sh, k) implies inv.void_pixel_existing[k] by {
        lemma_lin_bounds(c2.0 as int, c2.1 as int, sh);
        if at(c2, sh) == kc {
            lemma_same_cell(c2, c, sh);
        }
        assert(pinv.void_touch_existing[at(c2, sh)]);
        assert(p.solid_pixel_existing[k]);
        let x = lemma_covered_cell(b, c2, sh, k);
        lemma_lin_bounds(x.0 as int, x.1 as int, sh);
    }
    assert forall|c2: (usize, usize), k: int|
        #![trigger covers(b, c2, sh, k), inv.void_pixel_existing[k]]
        in_grid(c2.0 as int, c2.1 as int, sh) && covers(b, c2, sh, k) && inv.void_pixel_existing[k] implies inv.solid_touch_invalid[at(c2, sh)] by {
        let x = lemma_covered_cell(b, c2, sh, k);
        lemma_lin_bounds(x.0 as int, x.1 as int, sh);
        lemma_lin_bounds(c2.0 as int, c2.1 as int, sh);
        assert(pinv.void_pixel_existing[k]);
        if at(c2, sh) == kc {
            lemma_same_cell(c2, c, sh);
        }
    }
    assert forall|c2: (usize, usize), k: int|
        #![trigger inv.void_pixel_required[at(c2, sh)], covers(b, c2, sh, k)]
        in_grid(c2.0 as int, c2.1 as int, sh) && inv.void_pixel_required[at(c2, sh)] && covers(b, c2, sh, k) implies inv.solid_touch_invalid[k] by {
        lemma_lin_bounds(c2.0 as int, c2.1 as int, sh);
        let x = lemma_covered_cell(b, c2, sh, k);
        lemma_lin_bounds(x.0 as int, x.1 as int, sh);
        assert(pinv.void_pixel_required[at(c2, sh)]);
        if k == kc {
            lemma_same_cell(x, c, sh);
            lemma_cover_mirror(b, st.brush_shape, sh, c2, c);
        }
    }
    assert forall|k: int| 0 <= k < inv.void_pixel_required.len() && #[trigger] inv.void_pixel_required[k] implies !inv.solid_pixel_existing[k] && !inv.void_pixel_existing[k] by {
        assert(pinv.void_pixel_required[k]);
    }
    // void side
    assert forall|c2: (usize, usize), k: int|
        #![trigger q.void_touch_existing[at(c2, sh)], covers(b, c2, sh, k)]
        in_grid(c2.0 as int, c2.1 as int, sh) && q.void_touch_existing[at(c2, sh)] && covers(b, c2, sh, k) implies q.void_pixel_existing[k] by {
        lemma_lin_bounds(c2.0 as int, c2.1 as int, sh);
        let x = lemma_covered_cell(b, c2, sh, k);
        lemma_lin_bounds(x.0 as int, x.1 as int, sh);
        if at(c2, sh) == kc {
            lemma_same_cell(c2, c, sh);
        } else {
            assert(p.void_touch_existing[at(c2, sh)]);
        }
    }
    assert forall|c2: (usize, usize), k: int|
        #![trigger q.void_pixel_required[at(c2, sh)], covers(b, c2, sh, k)]
        in_grid(c2.0 as int, c2.1 as int, sh) && q.void_pixel_required[at(c2, sh)] && covers(b, c2, sh, k) implies q.solid_touch_invalid[k] by {
        lemma_lin_bounds(c2.0 as int, c2.1 as int, sh);
        assert(p.void_pixel_required[at(c2, sh)]);
    }
    assert forall|k: int| 0 <= k < q.void_pixel_required.len() && #[trigger] q.void_pixel_required[k] implies !q.solid_pixel_existing[k] && !q.void_pixel_existing[k] by {
        assert(p.void_pixel_required[k]);
    }
}


/// A void touch at `c` whose footprint is already void-existing or
/// void-required keeps every invariant, and keeps every pixel that was
/// existing or required covered by one of the two.
proof fn lemma_step_free(st: Setup, p: Planes, c: (usize, usize))
    requires
        st.law_ready(),
        p.sized(area(st.shape)),
        p.pixels_exclusive(),
        consistent(st, p),
        in_grid(c.0 as int, c.1 as int, st.shape),
        forall|k: int| covers(st.brush, c, st.shape, k) ==> p.void_pixel_existing[k] || p.void_pixel_required[k],
    ensures
        consistent(st, st.painted(st.touched(p, c), c)),
        st.painted(st.touched(p, c), c).pixels_exclusive(),
        st.painted(st.touched(p, c), c).sized(area(st.shape)),
        forall|k: int|
            0 <= k < area(st.shape) && (p.void_pixel_existing[k] || p.void_pixel_required[k]) ==> #[trigger] st.painted(
                st.touched(p, c),
                c,
            ).void_pixel_existing[k] || st.painted(st.touched(p, c), c).void_pixel_required[k],
{
    let b = st.brush;
    let sh = st.shape;
    let q = st.painted(st.touched(p, c), c);
    assert forall|k: int| covers(b, c, sh, k) implies !p.solid_pixel_existing[k] by {
        let x = lemma_covered_cell(b, c, sh, k);
        lemma_lin_bounds(x.0 as int, x.1 as int, sh);
        if p.void_pixel_required[k] {
            assert(p.void_pixel_required[k]);
        } else {
            assert(p.void_pixel_existing[k]);
        }
    }
    lemma_step_core(st, p, c);
    st.lemma_touched_keeps(p, c);
    st.lemma_painted_keeps(st.touched(p, c), c);
    assert forall|c2: (usize, usize), k: int|
        #![trigger covers(b, c2, sh, k), q.void_pixel_existing[k]]
        in_grid(c2.0 as int, c2.1 as int, sh) && covers(b, c2, sh, k) && q.void_pixel_existing[k] implies q.solid_touch_invalid[at(c2, sh)] by {
        let x = lemma_covered_cell(b, c2, sh, k);
        lemma_lin_bounds(x.0 as int, x.1 as int, sh);
        if !p.void_pixel_existing[k] {
            assert(covers(b, c, sh, k));
            assert(p.void_pixel_required[at(x, sh)]);
            lemma_cover_mirror(b, st.brush_shape, sh, c2, x);
            assert(covers(b, x, sh, at(c2, sh)));
        }
    }
}

/// The first three steps of a guarded void touch keep every invariant.
proof fn lemma_stamp(st: Setup, p: Planes, t: (usize, usize))
    requires
        st.law_ready(),
        p.sized(area(st.shape)),
        p.pixels_exclusive(),
        consistent(st, p),
        in_grid(t.0 as int, t.1 as int, st.shape),
        !p.void_touch_invalid[at(t, st.shape)],
    ensures
        consistent(st, st.stamped(p, t)),
        st.stamped(p, t).pixels_exclusive(),
        st.stamped(p, t).sized(area(st.shape)),
{
    let b = st.brush;
    let sh = st.shape;
    let pinv = p.inverted();
    assert forall|k: int| covers(b, t, sh, k) implies !p.solid_pixel_existing[k] by {
        if p.solid_pixel_existing[k] {
            assert(pinv.void_pixel_existing[k]);
        }
    }
    lemma_step_core(st, p, t);
    st.lemma_painted_keeps(p, t);
    st.lemma_touched_keeps(st.painted(p, t), t);
    let q = st.painted(st.touched(p, t), t);
    assert(st.touched(st.painted(p, t), t) == q);
    let q2 = st.stamped(p, t);
    assert(q2 == st.invalidated(q, t));
    let big = st.big;
    assert forall|c2: (usize, usize), k: int|
        #![trigger covers(b, c2, sh, k), q2.void_pixel_existing[k]]
        in_grid(c2.0 as int, c2.1 as int, sh) && covers(b, c2, sh, k) && q2.void_pixel_existing[k] implies q2.solid_touch_invalid[at(c2, sh)] by {
        lemma_lin_bounds(c2.0 as int, c2.1 as int, sh);
        let x = lemma_covered_cell(b, c2, sh, k);
        lemma_lin_bounds(x.0 as int, x.1 as int, sh);
        if p.void_pixel_existing[k] {
            assert(p.solid_touch_invalid[at(c2, sh)]);
        } else {
            assert(covers(b, t, sh, k));
            lemma_big_covers(b, st.brush_shape, big, sh, t, c2, k);
        }
    }
    assert forall|c2: (usize, usize), k: int|
        #![trigger q2.void_pixel_required[at(c2, sh)], covers(b, c2, sh, k)]
        in_grid(c2.0 as int, c2.1 as int, sh) && q2.void_pixel_required[at(c2, sh)] && covers(b, c2, sh, k) implies q2.solid_touch_invalid[k] by {
        let x = lemma_covered_cell(b, c2, sh, k);
        lemma_lin_bounds(x.0 as int, x.1 as int, sh);
        assert(q.void_pixel_required[at(c2, sh)]);
    }
    lemma_half_same_fields(st, q.inverted(), q2.inverted());
}

/// The invariants read five planes only.
proof fn lemma_half_same_fields(st: Setup, a: Planes, b: Planes)
    requires
        half_consistent(st, a),
        a.void_touch_existing == b.void_touch_existing,
        a.void_pixel_existing == b.void_pixel_existing,
        a.solid_touch_invalid == b.solid_touch_invalid,
        a.void_pixel_required == b.void_pixel_required,
        a.solid_pixel_existing == b.solid_pixel_existing,
    ensures
        half_consistent(st, b),
{
}


/// Flagging the pixels found required after a void touch keeps every
/// invariant.
proof fn lemma_flag(st: Setup, p: Planes, t: (usize, usize))
    requires
        st.law_ready(),
        p.sized(area(st.shape)),
        p.pixels_exclusive(),
        consistent(st, p),
        in_grid(t.0 as int, t.1 as int, st.shape),
    ensures
        consistent(st, st.flagged(p, st.required_around(p, t))),
        st.flagged(p, st.required_around(p, t)).pixels_exclusive(),
        st.flagged(p, st.required_around(p, t)).sized(area(st.shape)),
{
    let b = st.brush;
    let sh = st.shape;
    let n = sh.1 as int;
    let items = cells(st.very_big, t, sh);
    let pred = |q: (usize, usize)| pixel_required(b, sh, p.void_pixel_existing, p.void_pixel_impossible, p.solid_touch_invalid, q);
    let req = st.required_around(p, t);
    assert(req == items.filter(pred));
    lemma_cells_in_grid(st.very_big, t, sh);
    assert forall|x: int| 0 <= x < req.len() implies in_grid((#[trigger] req[x]).0 as int, req[x].1 as int, sh) && pred(req[x]) by {
        assert(req.contains(req[x]));
        lemma_in_filter(items, pred, req[x]);
        let i = choose|i: int| 0 <= i < items.len() && items[i] == req[x];
    }
    assert forall|x: int| 0 <= x < req.len() implies 0 <= lin((#[trigger] req[x]).0 as int, req[x].1 as int, n) < p.void_pixel_required.len() by {
        lemma_lin_bounds(req[x].0 as int, req[x].1 as int, sh);
    }
    crate::grid::lemma_mark_len(p.void_pixel_required, req, n, true);
    let q = st.flagged(p, req);
    assert forall|c2: (usize, usize), k: int|
        #![trigger q.void_pixel_required[at(c2, sh)], covers(b, c2, sh, k)]
        in_grid(c2.0 as int, c2.1 as int, sh) && q.void_pixel_required[at(c2, sh)] && covers(b, c2, sh, k) implies q.solid_touch_invalid[k] by {
        lemma_lin_bounds(c2.0 as int, c2.1 as int, sh);
        lemma_mark_at(p.void_pixel_required, req, n, at(c2, sh));
        if !p.void_pixel_required[at(c2, sh)] {
            let x = choose|x: int| 0 <= x < req.len() && lin((#[trigger] req[x]).0 as int, req[x].1 as int, n) == at(c2, sh);
            lemma_same_cell(req[x], c2, sh);
            assert(pred(c2));
            lemma_cells_cover(b, c2, sh);
            let y = choose|y: int| 0 <= y < cells(b, c2, sh).len() && at(cells(b, c2, sh)[y], sh) == k;
            assert(p.solid_touch_invalid[at(cells(b, c2, sh)[y], sh)]);
        }
    }
    assert forall|k: int| 0 <= k < q.void_pixel_required.len() && #[trigger] q.void_pixel_required[k] implies !q.solid_pixel_existing[k] && !q.void_pixel_existing[k] by {
        lemma_mark_at(p.void_pixel_required, req, n, k);
        if !p.void_pixel_required[k] {
            let x = choose|x: int| 0 <= x < req.len() && lin((#[trigger] req[x]).0 as int, req[x].1 as int, n) == k;
            assert(pred(req[x]));
        }
    }
    lemma_half_same_fields(st, p.inverted(), q.inverted());
}

/// Taking free touches, one after another, keeps every invariant.
proof fn lemma_taken(st: Setup, base: Planes, p: Planes, cs: Seq<(usize, usize)>)
    requires
        st.law_ready(),
        p.sized(area(st.shape)),
        p.pixels_exclusive(),
        consistent(st, p),
        forall|x: int| 0 <= x < cs.len() ==> in_grid((#[trigger] cs[x]).0 as int, cs[x].1 as int, st.shape),
        forall|x: int, k: int|
            0 <= x < cs.len() && #[trigger] covers(st.brush, cs[x], st.shape, k) ==> base.void_pixel_existing[k] || base.void_pixel_required[k],
        forall|k: int|
            0 <= k < area(st.shape) && (base.void_pixel_existing[k] || base.void_pixel_required[k]) ==> #[trigger] p.void_pixel_existing[k]
                || p.void_pixel_required[k],
    ensures
        consistent(st, st.taken(p, cs)),
        st.taken(p, cs).pixels_exclusive(),
        st.taken(p, cs).sized(area(st.shape)),
        forall|k: int|
            0 <= k < area(st.shape) && (base.void_pixel_existing[k] || base.void_pixel_required[k]) ==> #[trigger] st.taken(
                p,
                cs,
            ).void_pixel_existing[k] || st.taken(p, cs).void_pixel_required[k],
    decreases cs.len(),
{
    if cs.len() > 0 {
        let d = cs.drop_last();
        assert forall|x: int| 0 <= x < d.len() implies in_grid((#[trigger] d[x]).0 as int, d[x].1 as int, st.shape) by {
            assert(d[x] == cs[x]);
        }
        assert forall|x: int, k: int| 0 <= x < d.len() && #[trigger] covers(st.brush, d[x], st.shape, k) implies base.void_pixel_existing[k]
            || base.void_pixel_required[k] by {
            assert(d[x] == cs[x]);
        }
        lemma_taken(st, base, p, d);
        let s = st.taken(p, d);
        let c = cs.last();
        assert(in_grid(cs[cs.len() - 1].0 as int, cs[cs.len() - 1].1 as int, st.shape));
        assert forall|k: int| covers(st.brush, c, st.shape, k) implies s.void_pixel_existing[k] || s.void_pixel_required[k] by {
            assert(covers(st.brush, cs[cs.len() - 1], st.shape, k));
            let x = lemma_covered_cell(st.brush, c, st.shape, k);
            lemma_lin_bounds(x.0 as int, x.1 as int, st.shape);
        }
        lemma_step_free(st, s, c);
        lemma_invalidate_consistent(st, st.painted(st.touched(s, c), c), c);
    }
}

/// A guarded void touch keeps every invariant.
pub proof fn lemma_void_touch_consistent(st: Setup, p: Planes, t: (usize, usize))
    requires
        st.law_ready(),
        p.sized(area(st.shape)),
        p.pixels_exclusive(),
        consistent(st, p),
        in_grid(t.0 as int, t.1 as int, st.shape),
        !p.void_touch_invalid[at(t, st.shape)],
    ensures
        consistent(st, st.void_touch(p, t).0),
{
    let b = st.brush;
    let sh = st.shape;
    lemma_stamp(st, p, t);
    let s1 = st.stamped(p, t);
    lemma_flag(st, s1, t);
    let s2 = st.flagged(s1, st.required_around(s1, t));
    let free = st.free_around(s2, t);
    let items = cells(st.very_big, t, sh);
    let pred = |c: (usize, usize)| touch_free(b, sh, s2.void_pixel_existing, s2.void_pixel_required, c);
    assert(free == items.filter(pred));
    lemma_cells_in_grid(st.very_big, t, sh);
    assert forall|x: int| 0 <= x < free.len() implies in_grid((#[trigger] free[x]).0 as int, free[x].1 as int, sh) && pred(free[x]) by {
        assert(free.contains(free[x]));
        lemma_in_filter(items, pred, free[x]);
        let i = choose|i: int| 0 <= i < items.len() && items[i] == free[x];
    }
    assert forall|x: int, k: int| 0 <= x < free.len() && #[trigger] covers(b, free[x], sh, k) implies s2.void_pixel_existing[k]
        || s2.void_pixel_required[k] by {
        assert(pred(free[x]));
        lemma_cells_cover(b, free[x], sh);
        let y = choose|y: int| 0 <= y < cells(b, free[x], sh).len() && at(cells(b, free[x], sh)[y], sh) == k;
        assert(s2.void_pixel_existing[at(cells(b, free[x], sh)[y], sh)] || s2.void_pixel_required[at(cells(b, free[x], sh)[y], sh)]);
    }
    lemma_taken(st, s2, s2, free);
}


/// A design with no pixel or touch set in any polarity is consistent, and
/// has no invalid centre.
pub proof fn lemma_blank_consistent(st: Setup, p: Planes)
    requires
        p.sized(area(st.shape)),
        forall|k: int|
            0 <= k < area(st.shape) ==> !(#[trigger] p.void_pixel_existing[k]) && !p.solid_pixel_existing[k]
                && !p.void_pixel_required[k] && !p.solid_pixel_required[k] && !p.void_touch_existing[k]
                && !p.solid_touch_existing[k] && !p.void_touch_invalid[k] && !p.solid_touch_invalid[k],
    ensures
        consistent(st, p),
        exact(st, p),
        touches_valid(st, p),
{
    let b = st.brush;
    let sh = st.shape;
    assert forall|c: (usize, usize), k: int| in_grid(c.0 as int, c.1 as int, sh) && #[trigger] covers(b, c, sh, k) implies 0 <= k < area(sh) && 0 <= at(c, sh) < area(sh) by {
        let x = lemma_covered_cell(b, c, sh, k);
        lemma_lin_bounds(x.0 as int, x.1 as int, sh);
        lemma_lin_bounds(c.0 as int, c.1 as int, sh);
    }
    assert forall|k: int| 0 <= k < area(sh) implies !p.void_pixel_existing[k] && !p.solid_pixel_existing[k] && !p.void_pixel_required[k]
        && !p.solid_pixel_required[k] && !p.void_touch_existing[k] && !p.solid_touch_existing[k] by {
        assert(!p.void_pixel_existing[k]);
    }
    assert(half_consistent(st, p));
    assert(half_consistent(st, p.inverted()));
    assert forall|c: (usize, usize)| in_grid(c.0 as int, c.1 as int, sh) implies !p.solid_touch_invalid[at(c, sh)] && !p.void_touch_invalid[at(c, sh)] by {
        lemma_lin_bounds(c.0 as int, c.1 as int, sh);
        assert(!p.void_pixel_existing[at(c, sh)]);
    }
    assert forall|c: (usize, usize)| in_grid(c.0 as int, c.1 as int, sh) implies !p.void_touch_existing[at(c, sh)] && !p.solid_touch_existing[at(c, sh)] by {
        lemma_lin_bounds(c.0 as int, c.1 as int, sh);
        assert(!p.void_pixel_existing[at(c, sh)]);
    }
}


/// In a consistent design every placed touch has painted every cell under
/// its brush, in both polarities.
pub proof fn lemma_touches_painted(d: Design)
    requires
        consistent(d.setup(), d.planes()),
    ensures
        forall|c: (usize, usize), x: int|
            in_grid(c.0 as int, c.1 as int, d.shape) && d.void_touch_existing@[at(c, d.shape)] && 0 <= x < cells(d.brush.brush@, c, d.shape).len()
                ==> d.void_pixel_existing@[at(#[trigger] cells(d.brush.brush@, c, d.shape)[x], d.shape)],
        forall|c: (usize, usize), x: int|
            in_grid(c.0 as int, c.1 as int, d.shape) && d.solid_touch_existing@[at(c, d.shape)] && 0 <= x < cells(d.brush.brush@, c, d.shape).len()
                ==> d.solid_pixel_existing@[at(#[trigger] cells(d.brush.brush@, c, d.shape)[x], d.shape)],
{
    let p = d.planes();
    let st = d.setup();
    assert forall|c: (usize, usize), x: int|
        in_grid(c.0 as int, c.1 as int, d.shape) && d.void_touch_existing@[at(c, d.shape)] && 0 <= x < cells(d.brush.brush@, c, d.shape).len()
            implies d.void_pixel_existing@[at(#[trigger] cells(d.brush.brush@, c, d.shape)[x], d.shape)] by {
        lemma_cells_cover(st.brush, c, st.shape);
        assert(covers(st.brush, c, st.shape, at(cells(st.brush, c, st.shape)[x], st.shape)));
    }
    assert forall|c: (usize, usize), x: int|
        in_grid(c.0 as int, c.1 as int, d.shape) && d.solid_touch_existing@[at(c, d.shape)] && 0 <= x < cells(d.brush.brush@, c, d.shape).len()
            implies d.solid_pixel_existing@[at(#[trigger] cells(d.brush.brush@, c, d.shape)[x], d.shape)] by {
        lemma_cells_cover(st.brush, c, st.shape);
        assert(covers(st.brush, c, st.shape, at(cells(st.brush, c, st.shape)[x], st.shape)));
        assert(p.inverted().void_touch_existing[at(c, d.shape)]);
    }
}

/// In a consistent design a touch centre whose brush meets a pixel existing
/// in one polarity is invalid for the other.
pub proof fn lemma_existing_invalidates(d: Design)
    requires
        consistent(d.setup(), d.planes()),
    ensures
        forall|c: (usize, usize), x: int|
            in_grid(c.0 as int, c.1 as int, d.shape) && 0 <= x < cells(d.brush.brush@, c, d.shape).len()
                && d.void_pixel_existing@[at(#[trigger] cells(d.brush.brush@, c, d.shape)[x], d.shape)]
                ==> d.solid_touch_invalid@[at(c, d.shape)],
        forall|c: (usize, usize), x: int|
            in_grid(c.0 as int, c.1 as int, d.shape) && 0 <= x < cells(d.brush.brush@, c, d.shape).len()
                && d.solid_pixel_existing@[at(#[trigger] cells(d.brush.brush@, c, d.shape)[x], d.shape)]
                ==> d.void_touch_invalid@[at(c, d.shape)],
{
    let p = d.planes();
    let st = d.setup();
    assert forall|c: (usize, usize), x: int|
        in_grid(c.0 as int, c.1 as int, d.shape) && 0 <= x < cells(d.brush.brush@, c, d.shape).len()
            && d.void_pixel_existing@[at(#[trigger] cells(d.brush.brush@, c, d.shape)[x], d.shape)]
            implies d.solid_touch_invalid@[at(c, d.shape)] by {
        lemma_cells_cover(st.brush, c, st.shape);
        assert(covers(st.brush, c, st.shape, at(cells(st.brush, c, st.shape)[x], st.shape)));
    }
    assert forall|c: (usize, usize), x: int|
        in_grid(c.0 as int, c.1 as int, d.shape) && 0 <= x < cells(d.brush.brush@, c, d.shape).len()
            && d.solid_pixel_existing@[at(#[trigger] cells(d.brush.brush@, c, d.shape)[x], d.shape)]
            implies d.void_touch_invalid@[at(c, d.shape)] by {
        lemma_cells_cover(st.brush, c, st.shape);
        let k = at(cells(st.brush, c, st.shape)[x], st.shape);
        assert(covers(st.brush, c, st.shape, k));
        assert(p.inverted().void_pixel_existing[k]);
    }
}

/// In a consistent design every touch centre under the brush placed at a
/// required pixel is invalid for the other polarity.
pub proof fn lemma_required_blocked(d: Design)
    requires
        consistent(d.setup(), d.planes()),
    ensures
        forall|c: (usize, usize), x: int|
            in_grid(c.0 as int, c.1 as int, d.shape) && d.void_pixel_required@[at(c, d.shape)] && 0 <= x < cells(d.brush.brush@, c, d.shape).len()
                ==> d.solid_touch_invalid@[at(#[trigger] cells(d.brush.brush@, c, d.shape)[x], d.shape)],
        forall|c: (usize, usize), x: int|
            in_grid(c.0 as int, c.1 as int, d.shape) && d.solid_pixel_required@[at(c, d.shape)] && 0 <= x < cells(d.brush.brush@, c, d.shape).len()
                ==> d.void_touch_invalid@[at(#[trigger] cells(d.brush.brush@, c, d.shape)[x], d.shape)],
{
    let p = d.planes();
    let st = d.setup();
    assert forall|c: (usize, usize), x: int|
        in_grid(c.0 as int, c.1 as int, d.shape) && d.void_pixel_required@[at(c, d.shape)] && 0 <= x < cells(d.brush.brush@, c, d.shape).len()
            implies d.solid_touch_invalid@[at(#[trigger] cells(d.brush.brush@, c, d.shape)[x], d.shape)] by {
        lemma_cells_cover(st.brush, c, st.shape);
        assert(covers(st.brush, c, st.shape, at(cells(st.brush, c, st.shape)[x], st.shape)));
    }
    assert forall|c: (usize, usize), x: int|
        in_grid(c.0 as int, c.1 as int, d.shape) && d.solid_pixel_required@[at(c, d.shape)] && 0 <= x < cells(d.brush.brush@, c, d.shape).len()
            implies d.void_touch_invalid@[at(#[trigger] cells(d.brush.brush@, c, d.shape)[x], d.shape)] by {
        lemma_cells_cover(st.brush, c, st.shape);
        assert(covers(st.brush, c, st.shape, at(cells(st.brush, c, st.shape)[x], st.shape)));
        assert(p.inverted().void_pixel_required[at(c, d.shape)]);
    }
}


/// `v` lies between the origin and `o`.
pub open spec fn between(v: int, o: int) -> bool {
    (0 <= v <= o) || (o <= v <= 0)
}

/// The offset sum `(o0, o1)` is the sum of two offsets of which the first
/// lies between the origin and the sum on both axes.
#[verifier::opaque]
pub open spec fn has_split(offs: Seq<(i32, i32)>, o0: int, o1: int) -> bool {
    exists|a: int, b: int|
        #![trigger offs[a], offs[b]]
        0 <= a < offs.len() && 0 <= b < offs.len() && offs[a].0 + offs[b].0 == o0 && offs[a].1 + offs[b].1 == o1
            && between(offs[a].0 as int, o0) && between(offs[a].1 as int, o1)
}

/// Every sum of two offsets splits as `has_split` says: two placements of
/// the brush whose centres are a big-brush offset apart share a cell that
/// lies between the two centres.
#[verifier::opaque]
pub open spec fn splittable(offs: Seq<(i32, i32)>) -> bool {
    forall|a: int, b: int|
        #![trigger offs[a], offs[b]]
        0 <= a < offs.len() && 0 <= b < offs.len() ==> has_split(offs, offs[a].0 + offs[b].0, offs[a].1 + offs[b].1)
}

/// Every invalid touch centre has an existing pixel of the other polarity
/// under its brush (void side; the solid side is the same on the inverted
/// planes).
pub open spec fn half_exact(st: Setup, p: Planes) -> bool {
    forall|c: (usize, usize)|
        in_grid(c.0 as int, c.1 as int, st.shape) && #[trigger] p.solid_touch_invalid[at(c, st.shape)] ==> exists|k: int|
            covers(st.brush, c, st.shape, k) && p.void_pixel_existing[k]
}

/// Both sides of `half_exact`.
pub open spec fn exact(st: Setup, p: Planes) -> bool {
    half_exact(st, p) && half_exact(st, p.inverted())
}

/// An offset of the big brush is the sum of two offsets of the brush.
proof fn lemma_big_offset_sum(b: Seq<(i32, i32)>, bs: (usize, usize), o: (i32, i32)) -> (ab: (int, int))
    requires
        big_offsets(b, bs).contains(o),
        bs.0 % 2 == 1,
        bs.1 % 2 == 1,
    ensures
        0 <= ab.0 < b.len(),
        0 <= ab.1 < b.len(),
        o.0 == b[ab.0].0 + b[ab.1].0,
        o.1 == b[ab.0].1 + b[ab.1].1,
{
    let sq = square(2 * bs.0, 2 * bs.1, bs.0 - 1, bs.1 - 1);
    let pred = |o: (i32, i32)| dilated(b, bs, o);
    lemma_in_filter(sq, pred, o);
    choose|a: int, bb: int|
        0 <= a < b.len() && 0 <= bb < b.len() && o.0 == b[a].0 + b[bb].0 + 1 - bs.0 % 2 && o.1 == b[a].1 + b[bb].1 + 1 - bs.1 % 2
}

/// A sum of two offsets of a splittable brush, split with the first part
/// between the origin and the sum.
proof fn lemma_split(b: Seq<(i32, i32)>, a1: int, b1: int) -> (ab: (int, int))
    requires
        splittable(b),
        0 <= a1 < b.len(),
        0 <= b1 < b.len(),
    ensures
        0 <= ab.0 < b.len(),
        0 <= ab.1 < b.len(),
        b[ab.0].0 + b[ab.1].0 == b[a1].0 + b[b1].0,
        b[ab.0].1 + b[ab.1].1 == b[a1].1 + b[b1].1,
        between(b[ab.0].0 as int, b[a1].0 + b[b1].0),
        between(b[ab.0].1 as int, b[a1].1 + b[b1].1),
{
    assert(has_split(b, b[a1].0 + b[b1].0, b[a1].1 + b[b1].1)) by {
        reveal(splittable);
    }
    let o0 = b[a1].0 + b[b1].0;
    let o1 = b[a1].1 + b[b1].1;
    reveal(has_split);
    let (a, bb) = choose|a: int, bb: int|
        #![trigger b[a], b[bb]]
        0 <= a < b.len() && 0 <= bb < b.len() && b[a].0 + b[bb].0 == o0 && b[a].1 + b[bb].1 == o1 && between(b[a].0 as int, o0)
            && between(b[a].1 as int, o1);
    (a, bb)
}

/// A centre in the big brush's footprint of `t` shares a cell with `t`
/// under the brush.
proof fn lemma_big_witness(st: Setup, t: (usize, usize), c: (usize, usize)) -> (k: int)
    requires
        st.law_ready(),
        splittable(st.brush),
        in_grid(t.0 as int, t.1 as int, st.shape),
        in_grid(c.0 as int, c.1 as int, st.shape),
        covers(st.big, t, st.shape, at(c, st.shape)),
    ensures
        covers(st.brush, t, st.shape, k),
        covers(st.brush, c, st.shape, k),
{
    let b = st.brush;
    let sh = st.shape;
    let q = choose|q: int| 0 <= q < st.big.len() && #[trigger] hits(st.big[q], t, sh, at(c, sh));
    lemma_hits_cell(st.big[q], t, sh, at(c, sh), c);
    let o = st.big[q];
    assert(st.big.contains(o));
    let (a1, b1) = lemma_big_offset_sum(b, st.brush_shape, o);
    let (a2, b2) = lemma_split(b, a1, b1);
    let x = shifted(b[a2], t);
    assert(in_grid(x.0, x.1, sh));
    let k = lin(x.0, x.1, sh.1 as int);
    assert(hits(b[a2], t, sh, k));
    assert(has_mirror(b, b[b2]));
    let r = choose|r: int| 0 <= r < b.len() && (#[trigger] b[r]).0 == -b[b2].0 && b[r].1 == -b[b2].1;
    assert(hits(b[r], c, sh, k));
    k
}

/// The invariant reads four planes only.
proof fn lemma_exact_same_fields(st: Setup, a: Planes, b: Planes)
    requires
        half_exact(st, a),
        a.solid_touch_invalid == b.solid_touch_invalid,
        a.void_pixel_existing == b.void_pixel_existing,
    ensures
        half_exact(st, b),
{
}

/// A void touch at `c` with no solid-existing pixel under it keeps every
/// invalid centre's witness.
proof fn lemma_step_exact(st: Setup, p: Planes, c: (usize, usize))
    requires
        st.law_ready(),
        p.sized(area(st.shape)),
        exact(st, p),
        in_grid(c.0 as int, c.1 as int, st.shape),
        forall|k: int| covers(st.brush, c, st.shape, k) ==> !p.solid_pixel_existing[k],
    ensures
        exact(st, st.painted(st.touched(p, c), c)),
{
    let b = st.brush;
    let sh = st.shape;
    let q = st.painted(st.touched(p, c), c);
    lemma_lin_bounds(c.0 as int, c.1 as int, sh);
    assert forall|c2: (usize, usize)| in_grid(c2.0 as int, c2.1 as int, sh) && #[trigger] q.solid_touch_invalid[at(c2, sh)] implies exists|k: int|
        covers(b, c2, sh, k) && q.void_pixel_existing[k] by {
        lemma_lin_bounds(c2.0 as int, c2.1 as int, sh);
        let k = choose|k: int| covers(b, c2, sh, k) && p.void_pixel_existing[k];
        let x = lemma_covered_cell(b, c2, sh, k);
        lemma_lin_bounds(x.0 as int, x.1 as int, sh);
        assert(q.void_pixel_existing[k]);
    }
    let inv = q.inverted();
    assert forall|c2: (usize, usize)| in_grid(c2.0 as int, c2.1 as int, sh) && #[trigger] inv.solid_touch_invalid[at(c2, sh)] implies exists|k: int|
        covers(b, c2, sh, k) && inv.void_pixel_existing[k] by {
        lemma_lin_bounds(c2.0 as int, c2.1 as int, sh);
        if at(c2, sh) == at(c, sh) {
            lemma_same_cell(c2, c, sh);
        }
        assert(p.inverted().solid_touch_invalid[at(c2, sh)]);
        let k = choose|k: int| covers(b, c2, sh, k) && p.solid_pixel_existing[k];
        let x = lemma_covered_cell(b, c2, sh, k);
        lemma_lin_bounds(x.0 as int, x.1 as int, sh);
        assert(inv.void_pixel_existing[k]);
    }
}

proof fn lemma_stamp_exact(st: Setup, p: Planes, t: (usize, usize))
    requires
        st.law_ready(),
        splittable(st.brush),
        p.sized(area(st.shape)),
        p.pixels_exclusive(),
        exact(st, p),
        consistent(st, p),
        in_grid(t.0 as int, t.1 as int, st.shape),
        !p.void_touch_invalid[at(t, st.shape)],
    ensures
        exact(st, st.stamped(p, t)),
{
    let b = st.brush;
    let sh = st.shape;
    let pinv = p.inverted();
    assert forall|k: int| covers(b, t, sh, k) implies !p.solid_pixel_existing[k] by {
        if p.solid_pixel_existing[k] {
            assert(pinv.void_pixel_existing[k]);
        }
    }
    lemma_step_exact(st, p, t);
    let q = st.painted(st.touched(p, t), t);
    assert(st.touched(st.painted(p, t), t) == q);
    let s1 = st.stamped(p, t);
    assert forall|c2: (usize, usize)| in_grid(c2.0 as int, c2.1 as int, sh) && #[trigger] s1.solid_touch_invalid[at(c2, sh)] implies exists|k: int|
        covers(b, c2, sh, k) && s1.void_pixel_existing[k] by {
        lemma_lin_bounds(c2.0 as int, c2.1 as int, sh);
        if q.solid_touch_invalid[at(c2, sh)] {
            let k = choose|k: int| covers(b, c2, sh, k) && q.void_pixel_existing[k];
            assert(s1.void_pixel_existing[k]);
        } else {
            let k = lemma_big_witness(st, t, c2);
            let x = lemma_covered_cell(b, c2, sh, k);
            lemma_lin_bounds(x.0 as int, x.1 as int, sh);
            assert(s1.void_pixel_existing[k]);
        }
    }
    lemma_exact_same_fields(st, q.inverted(), s1.inverted());
}

/// A guarded void touch keeps every invalid centre's witness.
pub proof fn lemma_void_touch_exact(st: Setup, p: Planes, t: (usize, usize))
    requires
        st.law_ready(),
        splittable(st.brush),
        p.sized(area(st.shape)),
        p.pixels_exclusive(),
        consistent(st, p),
        exact(st, p),
        in_grid(t.0 as int, t.1 as int, st.shape),
        !p.void_touch_invalid[at(t, st.shape)],
    ensures
        exact(st, st.void_touch(p, t).0),
{
    let b = st.brush;
    let sh = st.shape;
    lemma_stamp_exact(st, p, t);
    lemma_stamp(st, p, t);
    let s1 = st.stamped(p, t);
    lemma_flag(st, s1, t);
    let s2 = st.flagged(s1, st.required_around(s1, t));
    lemma_exact_same_fields(st, s1, s2);
    lemma_exact_same_fields(st, s1.inverted(), s2.inverted());
    let free = st.free_around(s2, t);
    let items = cells(st.very_big, t, sh);
    let pred = |c: (usize, usize)| touch_free(b, sh, s2.void_pixel_existing, s2.void_pixel_required, c);
    assert(free == items.filter(pred));
    lemma_cells_in_grid(st.very_big, t, sh);
    assert forall|x: int| 0 <= x < free.len() implies in_grid((#[trigger] free[x]).0 as int, free[x].1 as int, sh) && pred(free[x]) by {
        assert(free.contains(free[x]));
        lemma_in_filter(items, pred, free[x]);
        let i = choose|i: int| 0 <= i < items.len() && items[i] == free[x];
    }
    assert forall|x: int, k: int| 0 <= x < free.len() && #[trigger] covers(b, free[x], sh, k) implies s2.void_pixel_existing[k]
        || s2.void_pixel_required[k] by {
        assert(pred(free[x]));
        lemma_cells_cover(b, free[x], sh);
        let y = choose|y: int| 0 <= y < cells(b, free[x], sh).len() && at(cells(b, free[x], sh)[y], sh) == k;
        assert(s2.void_pixel_existing[at(cells(b, free[x], sh)[y], sh)] || s2.void_pixel_required[at(cells(b, free[x], sh)[y], sh)]);
    }
    lemma_taken_exact(st, s2, s2, free);
}

proof fn lemma_taken_exact(st: Setup, base: Planes, p: Planes, cs: Seq<(usize, usize)>)
    requires
        st.law_ready(),
        splittable(st.brush),
        p.sized(area(st.shape)),
        p.pixels_exclusive(),
        consistent(st, p),
        exact(st, p),
        forall|x: int| 0 <= x < cs.len() ==> in_grid((#[trigger] cs[x]).0 as int, cs[x].1 as int, st.shape),
        forall|x: int, k: int|
            0 <= x < cs.len() && #[trigger] covers(st.brush, cs[x], st.shape, k) ==> base.void_pixel_existing[k] || base.void_pixel_required[k],
        forall|k: int|
            0 <= k < area(st.shape) && (base.void_pixel_existing[k] || base.void_pixel_required[k]) ==> #[trigger] p.void_pixel_existing[k]
                || p.void_pixel_required[k],
    ensures
        exact(st, st.taken(p, cs)),
    decreases cs.len(),
{
    if cs.len() > 0 {
        let d = cs.drop_last();
        assert forall|x: int| 0 <= x < d.len() implies in_grid((#[trigger] d[x]).0 as int, d[x].1 as int, st.shape) by {
            assert(d[x] == cs[x]);
        }
        assert forall|x: int, k: int| 0 <= x < d.len() && #[trigger] covers(st.brush, d[x], st.shape, k) implies base.void_pixel_existing[k]
            || base.void_pixel_required[k] by {
            assert(d[x] == cs[x]);
        }
        lemma_taken(st, base, p, d);
        lemma_taken_exact(st, base, p, d);
        let s = st.taken(p, d);
        let c = cs.last();
        assert(in_grid(cs[cs.len() - 1].0 as int, cs[cs.len() - 1].1 as int, st.shape));
        assert forall|k: int| covers(st.brush, c, st.shape, k) implies !s.solid_pixel_existing[k] by {
            assert(covers(st.brush, cs[cs.len() - 1], st.shape, k));
            let x = lemma_covered_cell(st.brush, c, st.shape, k);
            lemma_lin_bounds(x.0 as int, x.1 as int, st.shape);
            if s.void_pixel_required[k] {
                assert(s.void_pixel_required[k]);
            } else {
                assert(s.void_pixel_existing[k]);
            }
        }
        assert forall|k: int| covers(st.brush, c, st.shape, k) implies s.void_pixel_existing[k] || s.void_pixel_required[k] by {
            assert(covers(st.brush, cs[cs.len() - 1], st.shape, k));
            let x = lemma_covered_cell(st.brush, c, st.shape, k);
            lemma_lin_bounds(x.0 as int, x.1 as int, st.shape);
        }
        lemma_step_exact(st, s, c);
        lemma_step_free(st, s, c);
        let q = st.painted(st.touched(s, c), c);
        assert forall|k: int| covers(st.brush, c, st.shape, k) implies q.void_pixel_existing[k] by {
            let x = lemma_covered_cell(st.brush, c, st.shape, k);
            lemma_lin_bounds(x.0 as int, x.1 as int, st.shape);
        }
        lemma_invalidate_exact(st, q, c);
    }
}


/// In a consistent design where every invalid centre has its witness (as
/// touches with a splittable brush keep it), the solid-invalid centres are
/// exactly those whose brush meets a void-existing pixel, and symmetrically.
pub proof fn lemma_invalid_iff_meets_existing(d: Design)
    requires
        consistent(d.setup(), d.planes()),
        exact(d.setup(), d.planes()),
    ensures
        forall|c: (usize, usize)|
            in_grid(c.0 as int, c.1 as int, d.shape) ==> (#[trigger] d.solid_touch_invalid@[at(c, d.shape)] <==> exists|x: int|
                0 <= x < cells(d.brush.brush@, c, d.shape).len() && d.void_pixel_existing@[at(cells(d.brush.brush@, c, d.shape)[x], d.shape)]),
        forall|c: (usize, usize)|
            in_grid(c.0 as int, c.1 as int, d.shape) ==> (#[trigger] d.void_touch_invalid@[at(c, d.shape)] <==> exists|x: int|
                0 <= x < cells(d.brush.brush@, c, d.shape).len() && d.solid_pixel_existing@[at(cells(d.brush.brush@, c, d.shape)[x], d.shape)]),
{
    let p = d.planes();
    let st = d.setup();
    let b = st.brush;
    let sh = st.shape;
    lemma_existing_invalidates(d);
    assert forall|c: (usize, usize)| in_grid(c.0 as int, c.1 as int, sh) && #[trigger] d.solid_touch_invalid@[at(c, sh)] implies exists|x: int|
        0 <= x < cells(b, c, sh).len() && d.void_pixel_existing@[at(cells(b, c, sh)[x], sh)] by {
        let k = choose|k: int| covers(b, c, sh, k) && p.void_pixel_existing[k];
        lemma_cells_cover(b, c, sh);
        let x = choose|x: int| 0 <= x < cells(b, c, sh).len() && at(cells(b, c, sh)[x], sh) == k;
    }
    assert forall|c: (usize, usize)| in_grid(c.0 as int, c.1 as int, sh) && #[trigger] d.void_touch_invalid@[at(c, sh)] implies exists|x: int|
        0 <= x < cells(b, c, sh).len() && d.solid_pixel_existing@[at(cells(b, c, sh)[x], sh)] by {
        assert(p.inverted().solid_touch_invalid[at(c, sh)]);
        let k = choose|k: int| covers(b, c, sh, k) && p.solid_pixel_existing[k];
        lemma_cells_cover(b, c, sh);
        let x = choose|x: int| 0 <= x < cells(b, c, sh).len() && at(cells(b, c, sh)[x], sh) == k;
    }
}


/// Invalidating solid centres around a void touch keeps every invariant.
proof fn lemma_invalidate_consistent(st: Setup, p: Planes, c: (usize, usize))
    requires
        st.law_ready(),
        p.sized(area(st.shape)),
        p.pixels_exclusive(),
        consistent(st, p),
    ensures
        consistent(st, st.invalidated(p, c)),
        st.invalidated(p, c).pixels_exclusive(),
        st.invalidated(p, c).sized(area(st.shape)),
{
    let b = st.brush;
    let sh = st.shape;
    let q = st.invalidated(p, c);
    assert forall|c2: (usize, usize), k: int|
        #![trigger covers(b, c2, sh, k), q.void_pixel_existing[k]]
        in_grid(c2.0 as int, c2.1 as int, sh) && covers(b, c2, sh, k) && q.void_pixel_existing[k] implies q.solid_touch_invalid[at(c2, sh)] by {
        lemma_lin_bounds(c2.0 as int, c2.1 as int, sh);
        assert(p.solid_touch_invalid[at(c2, sh)]);
    }
    assert forall|c2: (usize, usize), k: int|
        #![trigger q.void_pixel_required[at(c2, sh)], covers(b, c2, sh, k)]
        in_grid(c2.0 as int, c2.1 as int, sh) && q.void_pixel_required[at(c2, sh)] && covers(b, c2, sh, k) implies q.solid_touch_invalid[k] by {
        let x = lemma_covered_cell(b, c2, sh, k);
        lemma_lin_bounds(x.0 as int, x.1 as int, sh);
        assert(p.solid_touch_invalid[k]);
    }
    lemma_half_same_fields(st, p.inverted(), q.inverted());
}

/// Invalidating the solid centres around a void touch at `c` whose brush
/// cells are all void-existing keeps every invalid centre's witness.
proof fn lemma_invalidate_exact(st: Setup, p: Planes, c: (usize, usize))
    requires
        st.law_ready(),
        splittable(st.brush),
        p.sized(area(st.shape)),
        exact(st, p),
        in_grid(c.0 as int, c.1 as int, st.shape),
        forall|k: int| covers(st.brush, c, st.shape, k) ==> p.void_pixel_existing[k],
    ensures
        exact(st, st.invalidated(p, c)),
{
    let b = st.brush;
    let sh = st.shape;
    let q = st.invalidated(p, c);
    assert forall|c2: (usize, usize)| in_grid(c2.0 as int, c2.1 as int, sh) && #[trigger] q.solid_touch_invalid[at(c2, sh)] implies exists|k: int|
        covers(b, c2, sh, k) && q.void_pixel_existing[k] by {
        lemma_lin_bounds(c2.0 as int, c2.1 as int, sh);
        if p.solid_touch_invalid[at(c2, sh)] {
            let k = choose|k: int| covers(b, c2, sh, k) && p.void_pixel_existing[k];
            assert(q.void_pixel_existing[k]);
        } else {
            let k = lemma_big_witness(st, c, c2);
            assert(q.void_pixel_existing[k]);
        }
    }
    lemma_exact_same_fields(st, p.inverted(), q.inverted());
}


/// Every placed void touch sits on a centre that is not void-invalid (the
/// solid side is the same on the inverted planes).
pub open spec fn half_valid(st: Setup, p: Planes) -> bool {
    forall|c: (usize, usize)|
        in_grid(c.0 as int, c.1 as int, st.shape) && #[trigger] p.void_touch_existing[at(c, st.shape)] ==> !p.void_touch_invalid[at(
            c,
            st.shape,
        )]
}

/// Both sides of `half_valid`.
pub open spec fn touches_valid(st: Setup, p: Planes) -> bool {
    half_valid(st, p) && half_valid(st, p.inverted())
}

/// Every invalid centre has its witness and every placed touch is valid:
/// what touches keep when the brush is splittable.
pub open spec fn settled(st: Setup, p: Planes) -> bool {
    exact(st, p) && touches_valid(st, p)
}

proof fn lemma_valid_same_fields(st: Setup, a: Planes, b: Planes)
    requires
        half_valid(st, a),
        a.void_touch_existing == b.void_touch_existing,
        a.void_touch_invalid == b.void_touch_invalid,
    ensures
        half_valid(st, b),
{
}

/// Recording and painting a void touch keeps every placed touch valid.
proof fn lemma_step_valid(st: Setup, p: Planes, c: (usize, usize))
    requires
        valid_shape(st.shape),
        p.sized(area(st.shape)),
        touches_valid(st, p),
        in_grid(c.0 as int, c.1 as int, st.shape),
    ensures
        touches_valid(st, st.painted(st.touched(p, c), c)),
{
    let sh = st.shape;
    let q = st.painted(st.touched(p, c), c);
    lemma_lin_bounds(c.0 as int, c.1 as int, sh);
    assert forall|c2: (usize, usize)| in_grid(c2.0 as int, c2.1 as int, sh) && #[trigger] q.void_touch_existing[at(c2, sh)] implies !q.void_touch_invalid[at(c2, sh)] by {
        lemma_lin_bounds(c2.0 as int, c2.1 as int, sh);
        if at(c2, sh) != at(c, sh) {
            assert(p.void_touch_existing[at(c2, sh)]);
        }
    }
    let qi = q.inverted();
    assert forall|c2: (usize, usize)| in_grid(c2.0 as int, c2.1 as int, sh) && #[trigger] qi.void_touch_existing[at(c2, sh)] implies !qi.void_touch_invalid[at(c2, sh)] by {
        lemma_lin_bounds(c2.0 as int, c2.1 as int, sh);
        assert(p.inverted().void_touch_existing[at(c2, sh)]);
    }
}

/// Invalidating the solid centres around a void touch at `c` keeps every
/// placed solid touch valid, when no solid-existing pixel lies under the
/// brush at `c` and every solid touch has painted its footprint.
proof fn lemma_invalidate_valid(st: Setup, p: Planes, c: (usize, usize))
    requires
        st.law_ready(),
        splittable(st.brush),
        p.sized(area(st.shape)),
        touches_valid(st, p),
        half_consistent(st, p.inverted()),
        in_grid(c.0 as int, c.1 as int, st.shape),
        forall|k: int| covers(st.brush, c, st.shape, k) ==> !p.solid_pixel_existing[k],
    ensures
        touches_valid(st, st.invalidated(p, c)),
{
    let sh = st.shape;
    let b = st.brush;
    let q = st.invalidated(p, c);
    let qi = q.inverted();
    let pi = p.inverted();
    assert forall|c2: (usize, usize)| in_grid(c2.0 as int, c2.1 as int, sh) && #[trigger] qi.void_touch_existing[at(c2, sh)] implies !qi.void_touch_invalid[at(c2, sh)] by {
        lemma_lin_bounds(c2.0 as int, c2.1 as int, sh);
        assert(pi.void_touch_existing[at(c2, sh)]);
        if covers(st.big, c, sh, at(c2, sh)) {
            let k = lemma_big_witness(st, c, c2);
            assert(pi.void_pixel_existing[k]);
        }
    }
    lemma_valid_same_fields(st, p, q);
}

/// A guarded void touch keeps every placed touch valid.
pub proof fn lemma_void_touch_valid(st: Setup, p: Planes, t: (usize, usize))
    requires
        st.law_ready(),
        splittable(st.brush),
        p.sized(area(st.shape)),
        p.pixels_exclusive(),
        consistent(st, p),
        touches_valid(st, p),
        in_grid(t.0 as int, t.1 as int, st.shape),
        !p.void_touch_invalid[at(t, st.shape)],
    ensures
        touches_valid(st, st.void_touch(p, t).0),
{
    let b = st.brush;
    let sh = st.shape;
    let pinv = p.inverted();
    assert forall|k: int| covers(b, t, sh, k) implies !p.solid_pixel_existing[k] by {
        if p.solid_pixel_existing[k] {
            assert(pinv.void_pixel_existing[k]);
        }
    }
    lemma_step_core(st, p, t);
    lemma_step_valid(st, p, t);
    st.lemma_painted_keeps(p, t);
    st.lemma_touched_keeps(st.painted(p, t), t);
    let q = st.painted(st.touched(p, t), t);
    assert(st.touched(st.painted(p, t), t) == q);
    assert forall|k: int| covers(b, t, sh, k) implies !q.solid_pixel_existing[k] by {
        let x = lemma_covered_cell(b, t, sh, k);
        lemma_lin_bounds(x.0 as int, x.1 as int, sh);
    }
    lemma_invalidate_valid(st, q, t);
    let s1 = st.stamped(p, t);
    lemma_stamp(st, p, t);
    lemma_flag(st, s1, t);
    let s2 = st.flagged(s1, st.required_around(s1, t));
    lemma_valid_same_fields(st, s1, s2);
    lemma_valid_same_fields(st, s1.inverted(), s2.inverted());
    let free = st.free_around(s2, t);
    let items = cells(st.very_big, t, sh);
    let pred = |c: (usize, usize)| touch_free(b, sh, s2.void_pixel_existing, s2.void_pixel_required, c);
    assert(free == items.filter(pred));
    lemma_cells_in_grid(st.very_big, t, sh);
    assert forall|x: int| 0 <= x < free.len() implies in_grid((#[trigger] free[x]).0 as int, free[x].1 as int, sh) && pred(free[x]) by {
        assert(free.contains(free[x]));
        lemma_in_filter(items, pred, free[x]);
        let i = choose|i: int| 0 <= i < items.len() && items[i] == free[x];
    }
    assert forall|x: int, k: int| 0 <= x < free.len() && #[trigger] covers(b, free[x], sh, k) implies s2.void_pixel_existing[k]
        || s2.void_pixel_required[k] by {
        assert(pred(free[x]));
        lemma_cells_cover(b, free[x], sh);
        let y = choose|y: int| 0 <= y < cells(b, free[x], sh).len() && at(cells(b, free[x], sh)[y], sh) == k;
        assert(s2.void_pixel_existing[at(cells(b, free[x], sh)[y], sh)] || s2.void_pixel_required[at(cells(b, free[x], sh)[y], sh)]);
    }
    lemma_taken_valid(st, s2, s2, free);
}

proof fn lemma_taken_valid(st: Setup, base: Planes, p: Planes, cs: Seq<(usize, usize)>)
    requires
        st.law_ready(),
        splittable(st.brush),
        p.sized(area(st.shape)),
        p.pixels_exclusive(),
        consistent(st, p),
        touches_valid(st, p),
        forall|x: int| 0 <= x < cs.len() ==> in_grid((#[trigger] cs[x]).0 as int, cs[x].1 as int, st.shape),
        forall|x: int, k: int|
            0 <= x < cs.len() && #[trigger] covers(st.brush, cs[x], st.shape, k) ==> base.void_pixel_existing[k] || base.void_pixel_required[k],
        forall|k: int|
            0 <= k < area(st.shape) && (base.void_pixel_existing[k] || base.void_pixel_required[k]) ==> #[trigger] p.void_pixel_existing[k]
                || p.void_pixel_required[k],
    ensures
        touches_valid(st, st.taken(p, cs)),
    decreases cs.len(),
{
    if cs.len() > 0 {
        let d = cs.drop_last();
        assert forall|x: int| 0 <= x < d.len() implies in_grid((#[trigger] d[x]).0 as int, d[x].1 as int, st.shape) by {
            assert(d[x] == cs[x]);
        }
        assert forall|x: int, k: int| 0 <= x < d.len() && #[trigger] covers(st.brush, d[x], st.shape, k) implies base.void_pixel_existing[k]
            || base.void_pixel_required[k] by {
            assert(d[x] == cs[x]);
        }
        lemma_taken(st, base, p, d);
        lemma_taken_valid(st, base, p, d);
        let s = st.taken(p, d);
        let c = cs.last();
        assert(in_grid(cs[cs.len() - 1].0 as int, cs[cs.len() - 1].1 as int, st.shape));
        assert forall|k: int| covers(st.brush, c, st.shape, k) implies s.void_pixel_existing[k] || s.void_pixel_required[k] by {
            assert(covers(st.brush, cs[cs.len() - 1], st.shape, k));
            let x = lemma_covered_cell(st.brush, c, st.shape, k);
            lemma_lin_bounds(x.0 as int, x.1 as int, st.shape);
        }
        lemma_step_free(st, s, c);
        lemma_step_valid(st, s, c);
        let q = st.painted(st.touched(s, c), c);
        assert forall|k: int| covers(st.brush, c, st.shape, k) implies !q.solid_pixel_existing[k] by {
            let x = lemma_covered_cell(st.brush, c, st.shape, k);
            lemma_lin_bounds(x.0 as int, x.1 as int, st.shape);
        }
        lemma_invalidate_valid(st, q, c);
    }
}


/// In a design whose touches are valid, no placed touch sits on a centre
/// that is invalid for its own polarity.
pub proof fn lemma_placed_touches_valid(d: Design)
    requires
        touches_valid(d.setup(), d.planes()),
    ensures
        forall|c: (usize, usize)|
            in_grid(c.0 as int, c.1 as int, d.shape) && #[trigger] d.void_touch_existing@[at(c, d.shape)] ==> !d.void_touch_invalid@[at(
                c,
                d.shape,
            )],
        forall|c: (usize, usize)|
            in_grid(c.0 as int, c.1 as int, d.shape) && #[trigger] d.solid_touch_existing@[at(c, d.shape)] ==> !d.solid_touch_invalid@[at(
                c,
                d.shape,
            )],
{
    let p = d.planes();
    let st = d.setup();
    assert forall|c: (usize, usize)|
        in_grid(c.0 as int, c.1 as int, d.shape) && #[trigger] d.void_touch_existing@[at(c, d.shape)] implies !d.void_touch_invalid@[at(
            c,
            d.shape,
        )] by {
        assert(p.void_touch_existing[at(c, st.shape)]);
    }
    assert forall|c: (usize, usize)|
        in_grid(c.0 as int, c.1 as int, d.shape) && #[trigger] d.solid_touch_existing@[at(c, d.shape)] implies !d.solid_touch_invalid@[at(
            c,
            d.shape,
        )] by {
        assert(p.inverted().void_touch_existing[at(c, st.shape)]);
    }
}

} // verus!












