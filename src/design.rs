//! A design under construction: per-pixel and per-touch state for both
//! polarities, and the touch operations that keep that state consistent.
use vstd::prelude::*;
use crate::brushes::{
    apply_brush, big_offsets, cells, compute_big_brush, compute_very_big_square_brush, lemma_cells_in_grid,
    multi_apply_brush, paint, square, valid_shape, Brush,
};
use crate::grid::{all_in_grid, apply_touch, area, flat_index, in_grid, lemma_mark_len, lin, mark, multi_apply_touch, new_array};
use crate::scan::{lemma_par_filter_exact, par_filter};
use crate::consistency::{
    at, consistent, lemma_blank_consistent, settled, lemma_void_touch_consistent, lemma_void_touch_exact, splittable,
};

verus! {

/// The fourteen planes of a design, as sequences of bits in row-major order.
pub struct Planes {
    pub void: Seq<bool>,
    pub solid: Seq<bool>,
    pub void_pixel_impossible: Seq<bool>,
    pub void_pixel_existing: Seq<bool>,
    pub void_pixel_required: Seq<bool>,
    pub solid_pixel_impossible: Seq<bool>,
    pub solid_pixel_existing: Seq<bool>,
    pub solid_pixel_required: Seq<bool>,
    pub void_touch_required: Seq<bool>,
    pub void_touch_invalid: Seq<bool>,
    pub void_touch_existing: Seq<bool>,
    pub solid_touch_required: Seq<bool>,
    pub solid_touch_invalid: Seq<bool>,
    pub solid_touch_existing: Seq<bool>,
}

impl Planes {
    /// The same state with the roles of void and solid exchanged.
    pub open spec fn inverted(self) -> Planes {
        Planes {
            void: self.solid,
            solid: self.void,
            void_pixel_impossible: self.solid_pixel_impossible,
            void_pixel_existing: self.solid_pixel_existing,
            void_pixel_required: self.solid_pixel_required,
            solid_pixel_impossible: self.void_pixel_impossible,
            solid_pixel_existing: self.void_pixel_existing,
            solid_pixel_required: self.void_pixel_required,
            void_touch_required: self.solid_touch_required,
            void_touch_invalid: self.solid_touch_invalid,
            void_touch_existing: self.solid_touch_existing,
            solid_touch_required: self.void_touch_required,
            solid_touch_invalid: self.void_touch_invalid,
            solid_touch_existing: self.void_touch_existing,
        }
    }

    /// Every plane has `len` bits.
    pub open spec fn sized(self, len: int) -> bool {
        &&& self.void.len() == len
        &&& self.solid.len() == len
        &&& self.void_pixel_impossible.len() == len
        &&& self.void_pixel_existing.len() == len
        &&& self.void_pixel_required.len() == len
        &&& self.solid_pixel_impossible.len() == len
        &&& self.solid_pixel_existing.len() == len
        &&& self.solid_pixel_required.len() == len
        &&& self.void_touch_required.len() == len
        &&& self.void_touch_invalid.len() == len
        &&& self.void_touch_existing.len() == len
        &&& self.solid_touch_required.len() == len
        &&& self.solid_touch_invalid.len() == len
        &&& self.solid_touch_existing.len() == len
    }

    /// No pixel is existing in both polarities, a pixel existing in one
    /// polarity is impossible in the other, and an existing pixel is painted.
    pub open spec fn pixels_exclusive(self) -> bool {
        forall|k: int|
            0 <= k < self.void_pixel_existing.len() ==> {
                &&& !(#[trigger] self.void_pixel_existing[k] && self.solid_pixel_existing[k])
                &&& self.void_pixel_existing[k] ==> self.solid_pixel_impossible[k]
                &&& self.solid_pixel_existing[k] ==> self.void_pixel_impossible[k]
                &&& self.void_pixel_existing[k] ==> self.void[k]
                &&& self.solid_pixel_existing[k] ==> self.solid[k]
            }
    }
}

/// Inverting twice gives back every plane unchanged.
pub proof fn lemma_invert_twice(p: Planes)
    ensures
        p.inverted().inverted() == p,
{
}

/// What stays fixed over a design's life: the grid and the three brushes.
pub struct Setup {
    pub shape: (usize, usize),
    pub brush: Seq<(i32, i32)>,
    pub brush_shape: (usize, usize),
    pub big: Seq<(i32, i32)>,
    pub big_shape: (usize, usize),
    pub very_big: Seq<(i32, i32)>,
    pub very_big_shape: (usize, usize),
}

impl Setup {
    /// Step one of a void touch at `t`: the brush's cells become void
    /// and existing, impossible for solid, and lose every other pixel flag.
    pub open spec fn painted(self, p: Planes, t: (usize, usize)) -> Planes {
        let b = self.brush;
        let s = self.shape;
        Planes {
            void: paint(p.void, b, t, s, true),
            void_pixel_impossible: paint(p.void_pixel_impossible, b, t, s, false),
            void_pixel_existing: paint(p.void_pixel_existing, b, t, s, true),
            void_pixel_required: paint(p.void_pixel_required, b, t, s, false),
            solid_pixel_impossible: paint(p.solid_pixel_impossible, b, t, s, true),
            solid_pixel_existing: paint(p.solid_pixel_existing, b, t, s, false),
            solid_pixel_required: paint(p.solid_pixel_required, b, t, s, false),
            ..p
        }
    }

    /// Step two of a void touch at `t`: the touch is recorded, and the
    /// competing touch flags at `t` are cleared.
    pub open spec fn touched(self, p: Planes, t: (usize, usize)) -> Planes {
        let k = lin(t.0 as int, t.1 as int, self.shape.1 as int);
        Planes {
            void_touch_required: p.void_touch_required.update(k, false),
            void_touch_invalid: p.void_touch_invalid.update(k, false),
            void_touch_existing: p.void_touch_existing.update(k, true),
            solid_touch_required: p.solid_touch_required.update(k, false),
            solid_touch_existing: p.solid_touch_existing.update(k, false),
            ..p
        }
    }

    /// Step three of a void touch at `t`: every solid touch centre in the
    /// big brush's footprint becomes invalid.
    pub open spec fn invalidated(self, p: Planes, t: (usize, usize)) -> Planes {
        Planes { solid_touch_invalid: paint(p.solid_touch_invalid, self.big, t, self.shape, true), ..p }
    }

    /// The pixels around `t` (in the very big brush's footprint) that have
    /// become void-required, in scan order.
    pub open spec fn required_around(self, p: Planes, t: (usize, usize)) -> Seq<(usize, usize)> {
        cells(self.very_big, t, self.shape).filter(
            |q: (usize, usize)|
                pixel_required(
                    self.brush,
                    self.shape,
                    p.void_pixel_existing,
                    p.void_pixel_impossible,
                    p.solid_touch_invalid,
                    q,
                ),
        )
    }

    /// `p` with the pixels of `req` flagged void-required.
    pub open spec fn flagged(self, p: Planes, req: Seq<(usize, usize)>) -> Planes {
        Planes { void_pixel_required: mark(p.void_pixel_required, req, self.shape.1 as int, true), ..p }
    }

    /// The touch centres around `t` whose void touch would add nothing new,
    /// in scan order.
    pub open spec fn free_around(self, p: Planes, t: (usize, usize)) -> Seq<(usize, usize)> {
        cells(self.very_big, t, self.shape).filter(
            |c: (usize, usize)| touch_free(self.brush, self.shape, p.void_pixel_existing, p.void_pixel_required, c),
        )
    }

    /// `p` after recording, painting and invalidating around a void touch at
    /// each of `cs`, in order.
    pub open spec fn taken(self, p: Planes, cs: Seq<(usize, usize)>) -> Planes
        decreases cs.len(),
    {
        if cs.len() == 0 {
            p
        } else {
            let c = cs.last();
            self.invalidated(self.painted(self.touched(self.taken(p, cs.drop_last()), c), c), c)
        }
    }

    /// For each pixel of `req` that is not void-existing, the void touch
    /// centres under the brush placed there that are not invalid.
    pub open spec fn resolving(self, p: Planes, req: Seq<(usize, usize)>) -> Seq<(usize, usize)>
        decreases req.len(),
    {
        if req.len() == 0 {
            seq![]
        } else {
            let prev = self.resolving(p, req.drop_last());
            let q = req.last();
            if p.void_pixel_existing[lin(q.0 as int, q.1 as int, self.shape.1 as int)] {
                prev
            } else {
                prev + cells(self.brush, q, self.shape).filter(
                    |c: (usize, usize)| !p.void_touch_invalid[lin(c.0 as int, c.1 as int, self.shape.1 as int)],
                )
            }
        }
    }

    /// The planes after the first three steps of a void touch at `t`.
    pub open spec fn stamped(self, p: Planes, t: (usize, usize)) -> Planes {
        self.invalidated(self.touched(self.painted(p, t), t), t)
    }

    /// A void touch at `t` on planes `p`: the resulting planes, the pixels
    /// found required, and the touches that would resolve them.
    pub open spec fn void_touch(self, p: Planes, t: (usize, usize)) -> (Planes, Seq<(usize, usize)>, Seq<(usize, usize)>) {
        let s1 = self.stamped(p, t);
        let req = self.required_around(s1, t);
        let s2 = self.flagged(s1, req);
        let s3 = self.taken(s2, self.free_around(s2, t));
        (s3, req, self.resolving(s3, req))
    }

    pub proof fn lemma_painted_keeps(self, p: Planes, t: (usize, usize))
        requires
            valid_shape(self.shape),
            p.sized(area(self.shape)),
            p.pixels_exclusive(),
        ensures
            self.painted(p, t).sized(area(self.shape)),
            self.painted(p, t).pixels_exclusive(),
    {
    }

    pub proof fn lemma_touched_keeps(self, p: Planes, t: (usize, usize))
        requires
            valid_shape(self.shape),
            p.sized(area(self.shape)),
            p.pixels_exclusive(),
            in_grid(t.0 as int, t.1 as int, self.shape),
        ensures
            self.touched(p, t).sized(area(self.shape)),
            self.touched(p, t).pixels_exclusive(),
    {
        crate::grid::lemma_lin_bounds(t.0 as int, t.1 as int, self.shape);
    }

    proof fn lemma_taken_keeps(self, p: Planes, cs: Seq<(usize, usize)>)
        requires
            valid_shape(self.shape),
            p.sized(area(self.shape)),
            p.pixels_exclusive(),
            forall|x: int| 0 <= x < cs.len() ==> in_grid((#[trigger] cs[x]).0 as int, cs[x].1 as int, self.shape),
        ensures
            self.taken(p, cs).sized(area(self.shape)),
            self.taken(p, cs).pixels_exclusive(),
        decreases cs.len(),
    {
        if cs.len() > 0 {
            assert forall|x: int| 0 <= x < cs.drop_last().len() implies in_grid(
                (#[trigger] cs.drop_last()[x]).0 as int,
                cs.drop_last()[x].1 as int,
                self.shape,
            ) by {
                assert(cs.drop_last()[x] == cs[x]);
            }
            self.lemma_taken_keeps(p, cs.drop_last());
            let c = cs.last();
            assert(in_grid(cs[cs.len() - 1].0 as int, cs[cs.len() - 1].1 as int, self.shape));
            self.lemma_touched_keeps(self.taken(p, cs.drop_last()), c);
            self.lemma_painted_keeps(self.touched(self.taken(p, cs.drop_last()), c), c);
        }
    }
}

/// Fourteen planes of `len` bits, all clear.
pub open spec fn blank_planes(len: int) -> Planes {
    Planes {
        void: Seq::new(len as nat, |k: int| false),
        solid: Seq::new(len as nat, |k: int| false),
        void_pixel_impossible: Seq::new(len as nat, |k: int| false),
        void_pixel_existing: Seq::new(len as nat, |k: int| false),
        void_pixel_required: Seq::new(len as nat, |k: int| false),
        solid_pixel_impossible: Seq::new(len as nat, |k: int| false),
        solid_pixel_existing: Seq::new(len as nat, |k: int| false),
        solid_pixel_required: Seq::new(len as nat, |k: int| false),
        void_touch_required: Seq::new(len as nat, |k: int| false),
        void_touch_invalid: Seq::new(len as nat, |k: int| false),
        void_touch_existing: Seq::new(len as nat, |k: int| false),
        solid_touch_required: Seq::new(len as nat, |k: int| false),
        solid_touch_invalid: Seq::new(len as nat, |k: int| false),
        solid_touch_existing: Seq::new(len as nat, |k: int| false),
    }
}

/// The setup of a design on a grid of shape `shape` with the brush of
/// offsets `b` and nominal shape `bs`.
pub open spec fn setup_of(shape: (usize, usize), b: Seq<(i32, i32)>, bs: (usize, usize)) -> Setup {
    Setup {
        shape,
        brush: b,
        brush_shape: bs,
        big: big_offsets(b, bs),
        big_shape: ((2 * bs.0 - 1) as usize, (2 * bs.1 - 1) as usize),
        very_big: square(3 * bs.0, 3 * bs.1, (3 * bs.0) / 2, (3 * bs.1) / 2),
        very_big_shape: ((3 * bs.0) as usize, (3 * bs.1) as usize),
    }
}

/// A design on a grid of shape `shape`: the brush, the two brushes derived
/// from it, and fourteen row-major bit planes, seven per polarity.
pub struct Design {
    pub shape: (usize, usize),
    pub brush: Brush,
    pub big_brush: Brush,
    pub very_big_brush: Brush,
    pub void: Vec<bool>,
    pub solid: Vec<bool>,
    pub void_pixel_impossible: Vec<bool>,
    pub void_pixel_existing: Vec<bool>,
    pub void_pixel_required: Vec<bool>,
    pub solid_pixel_impossible: Vec<bool>,
    pub solid_pixel_existing: Vec<bool>,
    pub solid_pixel_required: Vec<bool>,
    pub void_touch_required: Vec<bool>,
    pub void_touch_invalid: Vec<bool>,
    pub void_touch_existing: Vec<bool>,
    pub solid_touch_required: Vec<bool>,
    pub solid_touch_invalid: Vec<bool>,
    pub solid_touch_existing: Vec<bool>,
}

impl Design {
    pub open spec fn planes(&self) -> Planes {
        Planes {
            void: self.void@,
            solid: self.solid@,
            void_pixel_impossible: self.void_pixel_impossible@,
            void_pixel_existing: self.void_pixel_existing@,
            void_pixel_required: self.void_pixel_required@,
            solid_pixel_impossible: self.solid_pixel_impossible@,
            solid_pixel_existing: self.solid_pixel_existing@,
            solid_pixel_required: self.solid_pixel_required@,
            void_touch_required: self.void_touch_required@,
            void_touch_invalid: self.void_touch_invalid@,
            void_touch_existing: self.void_touch_existing@,
            solid_touch_required: self.solid_touch_required@,
            solid_touch_invalid: self.solid_touch_invalid@,
            solid_touch_existing: self.solid_touch_existing@,
        }
    }

    /// The grid, the brush and the two brushes derived from it.
    pub open spec fn setup_ok(&self) -> bool {
        &&& valid_shape(self.shape)
        &&& self.brush.wf()
        &&& self.brush.shape.0 >= 1
        &&& self.brush.shape.1 >= 1
        &&& self.big_brush.brush@ == big_offsets(self.brush.brush@, self.brush.shape)
        &&& self.big_brush.shape.0 == 2 * self.brush.shape.0 - 1
        &&& self.big_brush.shape.1 == 2 * self.brush.shape.1 - 1
        &&& self.very_big_brush.shape.0 == 3 * self.brush.shape.0
        &&& self.very_big_brush.shape.1 == 3 * self.brush.shape.1
        &&& self.very_big_brush.brush@ == square(
            3 * self.brush.shape.0,
            3 * self.brush.shape.1,
            (3 * self.brush.shape.0) / 2,
            (3 * self.brush.shape.1) / 2,
        )
    }

    pub open spec fn wf(&self) -> bool {
        &&& self.setup_ok()
        &&& self.planes().sized(area(self.shape))
        &&& self.planes().pixels_exclusive()
    }

    pub open spec fn setup(&self) -> Setup {
        Setup {
            shape: self.shape,
            brush: self.brush.brush@,
            brush_shape: self.brush.shape,
            big: self.big_brush.brush@,
            big_shape: self.big_brush.shape,
            very_big: self.very_big_brush.brush@,
            very_big_shape: self.very_big_brush.shape,
        }
    }

    /// `self` and `other` share the grid and the brushes.
    pub open spec fn same_setup(&self, other: &Design) -> bool {
        self.setup() == other.setup()
    }


}


/// Moves the bits out of `v`, leaving it empty.
fn take_plane(v: &mut Vec<bool>) -> (r: Vec<bool>)
    ensures
        r@ == old(v)@,
        final(v)@.len() == 0,
{
    let mut r: Vec<bool> = Vec::new();
    std::mem::swap(&mut r, v);
    r
}

impl Design {
    /// An empty design: every plane false.
    pub fn new(shape: (usize, usize), brush: Brush) -> (d: Design)
        requires
            valid_shape(shape),
            brush.wf(),
            brush.shape.0 >= 1,
            brush.shape.1 >= 1,
        ensures
            d.wf(),
            consistent(d.setup(), d.planes()),
            settled(d.setup(), d.planes()),
            d.shape == shape,
            d.brush.brush@ == brush.brush@,
            d.brush.shape == brush.shape,
            d.planes() == blank_planes(area(shape)),
            d.setup() == setup_of(shape, brush.brush@, brush.shape),
    {
        let (size_x, size_y) = shape;
        let big_brush = compute_big_brush(&brush);
        let very_big_brush = compute_very_big_square_brush(&brush);
        let len = size_x * size_y;
        let d = Design {
            shape: (size_x, size_y),
            brush,
            big_brush,
            very_big_brush,
            void: new_array(len, false),
            solid: new_array(len, false),
            void_pixel_impossible: new_array(len, false),
            void_pixel_existing: new_array(len, false),
            void_pixel_required: new_array(len, false),
            solid_pixel_impossible: new_array(len, false),
            solid_pixel_existing: new_array(len, false),
            solid_pixel_required: new_array(len, false),
            void_touch_required: new_array(len, false),
            void_touch_invalid: new_array(len, false),
            void_touch_existing: new_array(len, false),
            solid_touch_required: new_array(len, false),
            solid_touch_invalid: new_array(len, false),
            solid_touch_existing: new_array(len, false),
        };
        proof {
            lemma_blank_consistent(d.setup(), d.planes());
        }
        d
    }

    /// Exchanges the void and solid planes, without copying them.
    pub fn invert(&mut self)
        ensures
            final(self).planes() == old(self).planes().inverted(),
            final(self).same_setup(old(self)),
            old(self).wf() ==> final(self).wf(),
            consistent(old(self).setup(), old(self).planes()) ==> consistent(final(self).setup(), final(self).planes()),
            settled(old(self).setup(), old(self).planes()) ==> settled(final(self).setup(), final(self).planes()),
    {
        proof {
            lemma_invert_twice(self.planes());
        }
        std::mem::swap(&mut self.void, &mut self.solid);
        std::mem::swap(&mut self.void_pixel_impossible, &mut self.solid_pixel_impossible);
        std::mem::swap(&mut self.void_pixel_existing, &mut self.solid_pixel_existing);
        std::mem::swap(&mut self.void_pixel_required, &mut self.solid_pixel_required);
        std::mem::swap(&mut self.void_touch_required, &mut self.solid_touch_required);
        std::mem::swap(&mut self.void_touch_invalid, &mut self.solid_touch_invalid);
        std::mem::swap(&mut self.void_touch_existing, &mut self.solid_touch_existing);
    }

    fn void_brush_at_pos(&mut self, pos: (usize, usize))
        requires
            old(self).setup_ok(),
            old(self).planes().sized(area(old(self).shape)),
            in_grid(pos.0 as int, pos.1 as int, old(self).shape),
        ensures
            final(self).planes() == old(self).setup().painted(old(self).planes(), pos),
            final(self).same_setup(old(self)),
    {
        let ghost p = self.planes();
        let mut planes: Vec<Vec<bool>> = Vec::new();
        planes.push(take_plane(&mut self.void));
        planes.push(take_plane(&mut self.void_pixel_impossible));
        planes.push(take_plane(&mut self.void_pixel_existing));
        planes.push(take_plane(&mut self.void_pixel_required));
        planes.push(take_plane(&mut self.solid_pixel_impossible));
        planes.push(take_plane(&mut self.solid_pixel_existing));
        planes.push(take_plane(&mut self.solid_pixel_required));
        let mut values: Vec<bool> = Vec::new();
        values.push(true);
        values.push(false);
        values.push(true);
        values.push(false);
        values.push(true);
        values.push(false);
        values.push(false);
        multi_apply_brush(self.shape, &mut planes, &self.brush, pos, &values);
        self.solid_pixel_required = planes.pop().unwrap();
        self.solid_pixel_existing = planes.pop().unwrap();
        self.solid_pixel_impossible = planes.pop().unwrap();
        self.void_pixel_required = planes.pop().unwrap();
        self.void_pixel_existing = planes.pop().unwrap();
        self.void_pixel_impossible = planes.pop().unwrap();
        self.void = planes.pop().unwrap();
        assert(self.planes() == self.setup().painted(p, pos));
    }

    fn void_touch_at_pos(&mut self, pos: (usize, usize))
        requires
            old(self).setup_ok(),
            old(self).planes().sized(area(old(self).shape)),
            in_grid(pos.0 as int, pos.1 as int, old(self).shape),
        ensures
            final(self).planes() == old(self).setup().touched(old(self).planes(), pos),
            final(self).same_setup(old(self)),
    {
        let ghost p = self.planes();
        let mut planes: Vec<Vec<bool>> = Vec::new();
        planes.push(take_plane(&mut self.void_touch_required));
        planes.push(take_plane(&mut self.void_touch_invalid));
        planes.push(take_plane(&mut self.void_touch_existing));
        planes.push(take_plane(&mut self.solid_touch_required));
        planes.push(take_plane(&mut self.solid_touch_existing));
        let mut values: Vec<bool> = Vec::new();
        values.push(false);
        values.push(false);
        values.push(true);
        values.push(false);
        values.push(false);
        multi_apply_touch(self.shape, &mut planes, pos, &values);
        self.solid_touch_existing = planes.pop().unwrap();
        self.solid_touch_required = planes.pop().unwrap();
        self.void_touch_existing = planes.pop().unwrap();
        self.void_touch_invalid = planes.pop().unwrap();
        self.void_touch_required = planes.pop().unwrap();
        assert(self.planes() == self.setup().touched(p, pos));
    }

    fn big_void_brush_at_pos(&mut self, pos: (usize, usize))
        requires
            old(self).setup_ok(),
            old(self).planes().sized(area(old(self).shape)),
            in_grid(pos.0 as int, pos.1 as int, old(self).shape),
        ensures
            final(self).planes() == old(self).setup().invalidated(old(self).planes(), pos),
            final(self).same_setup(old(self)),
    {
        apply_brush(self.shape, &mut self.solid_touch_invalid, &self.big_brush, pos, true);
    }
}


/// Pixel `q` is neither void-existing nor void-impossible, and every solid
/// touch centre under the brush placed at `q` is invalid.
pub open spec fn pixel_required(
    b: Seq<(i32, i32)>,
    shape: (usize, usize),
    ve: Seq<bool>,
    vi: Seq<bool>,
    sti: Seq<bool>,
    q: (usize, usize),
) -> bool {
    let k = lin(q.0 as int, q.1 as int, shape.1 as int);
    let cs = cells(b, q, shape);
    &&& !ve[k]
    &&& !vi[k]
    &&& forall|x: int| 0 <= x < cs.len() ==> #[trigger] sti[lin(cs[x].0 as int, cs[x].1 as int, shape.1 as int)]
}

/// Every cell under the brush placed at `c` is void-existing or void-required.
pub open spec fn touch_free(
    b: Seq<(i32, i32)>,
    shape: (usize, usize),
    ve: Seq<bool>,
    vr: Seq<bool>,
    c: (usize, usize),
) -> bool {
    let cs = cells(b, c, shape);
    forall|x: int|
        0 <= x < cs.len() ==> #[trigger] ve[lin(cs[x].0 as int, cs[x].1 as int, shape.1 as int)] || vr[lin(
            cs[x].0 as int,
            cs[x].1 as int,
            shape.1 as int,
        )]
}

/// Whether pixel `pos` must eventually become void (see `pixel_required`).
fn is_required_pixel(
    pos: (usize, usize),
    shape: (usize, usize),
    brush: &Brush,
    void_pixel_existing: &Vec<bool>,
    void_pixel_impossible: &Vec<bool>,
    solid_touch_invalid: &Vec<bool>,
) -> (r: bool)
    requires
        valid_shape(shape),
        in_grid(pos.0 as int, pos.1 as int, shape),
        void_pixel_existing@.len() == area(shape),
        void_pixel_impossible@.len() == area(shape),
        solid_touch_invalid@.len() == area(shape),
    ensures
        r == pixel_required(brush.brush@, shape, void_pixel_existing@, void_pixel_impossible@, solid_touch_invalid@, pos),
{
    let k = flat_index(pos, shape);
    if void_pixel_existing[k] || void_pixel_impossible[k] {
        return false;
    }
    let cs = brush.at(pos, shape);
    proof {
        lemma_cells_in_grid(brush.brush@, pos, shape);
    }
    let mut x: usize = 0;
    while x < cs.len()
        invariant
            valid_shape(shape),
            cs@ == cells(brush.brush@, pos, shape),
            solid_touch_invalid@.len() == area(shape),
            forall|y: int| 0 <= y < cs@.len() ==> in_grid((#[trigger] cs@[y]).0 as int, cs@[y].1 as int, shape),
            x <= cs@.len(),
            forall|y: int| 0 <= y < x ==> #[trigger] solid_touch_invalid@[lin(cs@[y].0 as int, cs@[y].1 as int, shape.1 as int)],
        decreases cs@.len() - x,
    {
        if !solid_touch_invalid[flat_index(cs[x], shape)] {
            return false;
        }
        x = x + 1;
    }
    true
}

/// Whether a void touch at `pos` would add nothing new (see `touch_free`).
fn is_free_touch(
    pos: (usize, usize),
    brush: &Brush,
    shape: (usize, usize),
    void_pixel_existing: &Vec<bool>,
    void_pixel_required: &Vec<bool>,
) -> (r: bool)
    requires
        valid_shape(shape),
        in_grid(pos.0 as int, pos.1 as int, shape),
        void_pixel_existing@.len() == area(shape),
        void_pixel_required@.len() == area(shape),
    ensures
        r == touch_free(brush.brush@, shape, void_pixel_existing@, void_pixel_required@, pos),
{
    let cs = brush.at(pos, shape);
    proof {
        lemma_cells_in_grid(brush.brush@, pos, shape);
    }
    let mut x: usize = 0;
    while x < cs.len()
        invariant
            valid_shape(shape),
            cs@ == cells(brush.brush@, pos, shape),
            void_pixel_existing@.len() == area(shape),
            void_pixel_required@.len() == area(shape),
            forall|y: int| 0 <= y < cs@.len() ==> in_grid((#[trigger] cs@[y]).0 as int, cs@[y].1 as int, shape),
            x <= cs@.len(),
            forall|y: int|
                0 <= y < x ==> #[trigger] void_pixel_existing@[lin(cs@[y].0 as int, cs@[y].1 as int, shape.1 as int)]
                    || void_pixel_required@[lin(cs@[y].0 as int, cs@[y].1 as int, shape.1 as int)],
        decreases cs@.len() - x,
    {
        let k = flat_index(cs[x], shape);
        if !(void_pixel_existing[k] || void_pixel_required[k]) {
            return false;
        }
        x = x + 1;
    }
    true
}




impl Design {
    fn find_required_pixels_around_pos(&mut self, pos: (usize, usize)) -> (r: Vec<(usize, usize)>)
        requires
            old(self).setup_ok(),
            old(self).planes().sized(area(old(self).shape)),
            in_grid(pos.0 as int, pos.1 as int, old(self).shape),
        ensures
            r@ == old(self).setup().required_around(old(self).planes(), pos),
            final(self).planes() == old(self).setup().flagged(old(self).planes(), r@),
            final(self).same_setup(old(self)),
            forall|x: int| 0 <= x < r@.len() ==> in_grid((#[trigger] r@[x]).0 as int, r@[x].1 as int, old(self).shape),
    {
        let ghost p = self.planes();
        let shape = self.shape;
        let cands = self.very_big_brush.at(pos, shape);
        let ghost items = cands@;
        proof {
            lemma_cells_in_grid(self.very_big_brush.brush@, pos, shape);
        }
        let brush = &self.brush;
        let ve = &self.void_pixel_existing;
        let vi = &self.void_pixel_impossible;
        let sti = &self.solid_touch_invalid;
        let keep = |q: (usize, usize)| -> (b: bool)
            requires
                valid_shape(shape),
                in_grid(q.0 as int, q.1 as int, shape),
                ve@.len() == area(shape),
                vi@.len() == area(shape),
                sti@.len() == area(shape),
            ensures
                b == pixel_required(brush.brush@, shape, ve@, vi@, sti@, q),
            { is_required_pixel(q, shape, brush, ve, vi, sti) };
        let ghost pred = |q: (usize, usize)| pixel_required(brush.brush@, shape, ve@, vi@, sti@, q);
        assert forall|x: (usize, usize)| items.contains(x) implies in_grid(x.0 as int, x.1 as int, shape) by {
            let i = choose|i: int| 0 <= i < items.len() && items[i] == x;
        }
        let required_pixels = par_filter(cands, keep);
        proof {
            lemma_par_filter_exact(items, required_pixels@, keep, pred);
            assert(pred == (|q: (usize, usize)|
                pixel_required(self.brush.brush@, self.shape, p.void_pixel_existing, p.void_pixel_impossible, p.solid_touch_invalid, q)));
            assert forall|x: int| 0 <= x < required_pixels@.len() implies in_grid(
                (#[trigger] required_pixels@[x]).0 as int,
                required_pixels@[x].1 as int,
                shape,
            ) by {
                assert(required_pixels@.contains(required_pixels@[x]));
                crate::scan::lemma_in_filter(items, pred, required_pixels@[x]);
            }
        }
        let mut x: usize = 0;
        while x < required_pixels.len()
            invariant
                valid_shape(shape),
                shape == self.shape,
                x <= required_pixels@.len(),
                forall|y: int| 0 <= y < required_pixels@.len() ==> in_grid((#[trigger] required_pixels@[y]).0 as int, required_pixels@[y].1 as int, shape),
                self.void_pixel_required@.len() == area(shape),
                self.planes() == self.setup().flagged(p, required_pixels@.take(x as int)),
                self.same_setup(old(self)),
                p == old(self).planes(),
                p.sized(area(shape)),
            decreases required_pixels@.len() - x,
        {
            apply_touch(shape, &mut self.void_pixel_required, required_pixels[x], true);
            proof {
                assert(required_pixels@.take(x + 1).drop_last() =~= required_pixels@.take(x as int));
                assert(required_pixels@.take(x + 1).last() == required_pixels@[x as int]);
                crate::grid::lemma_lin_bounds(required_pixels@[x as int].0 as int, required_pixels@[x as int].1 as int, shape);
            }
            x = x + 1;
        }
        assert(required_pixels@.take(x as int) =~= required_pixels@);
        required_pixels
    }

    fn take_free_void_touches_around_pos(&mut self, pos: (usize, usize))
        requires
            old(self).setup_ok(),
            old(self).planes().sized(area(old(self).shape)),
            in_grid(pos.0 as int, pos.1 as int, old(self).shape),
        ensures
            final(self).planes() == old(self).setup().taken(old(self).planes(), old(self).setup().free_around(old(self).planes(), pos)),
            final(self).same_setup(old(self)),
    {
        let ghost p = self.planes();
        let shape = self.shape;
        let cands = self.very_big_brush.at(pos, shape);
        let ghost items = cands@;
        proof {
            lemma_cells_in_grid(self.very_big_brush.brush@, pos, shape);
        }
        let brush = &self.brush;
        let ve = &self.void_pixel_existing;
        let vr = &self.void_pixel_required;
        let keep = |c: (usize, usize)| -> (b: bool)
            requires
                valid_shape(shape),
                in_grid(c.0 as int, c.1 as int, shape),
                ve@.len() == area(shape),
                vr@.len() == area(shape),
            ensures
                b == touch_free(brush.brush@, shape, ve@, vr@, c),
            { is_free_touch(c, brush, shape, ve, vr) };
        let ghost pred = |c: (usize, usize)| touch_free(brush.brush@, shape, ve@, vr@, c);
        assert forall|x: (usize, usize)| items.contains(x) implies in_grid(x.0 as int, x.1 as int, shape) by {
            let i = choose|i: int| 0 <= i < items.len() && items[i] == x;
        }
        let free = par_filter(cands, keep);
        proof {
            lemma_par_filter_exact(items, free@, keep, pred);
            assert(pred == (|c: (usize, usize)|
                touch_free(self.brush.brush@, self.shape, p.void_pixel_existing, p.void_pixel_required, c)));
            assert forall|x: int| 0 <= x < free@.len() implies in_grid((#[trigger] free@[x]).0 as int, free@[x].1 as int, shape) by {
                assert(free@.contains(free@[x]));
                crate::scan::lemma_in_filter(items, pred, free@[x]);
            }
        }
        let mut x: usize = 0;
        while x < free.len()
            invariant
                valid_shape(shape),
                shape == self.shape,
                x <= free@.len(),
                forall|y: int| 0 <= y < free@.len() ==> in_grid((#[trigger] free@[y]).0 as int, free@[y].1 as int, shape),
                self.setup_ok(),
                self.planes() == self.setup().taken(p, free@.take(x as int)),
                self.planes().sized(area(shape)),
                self.same_setup(old(self)),
                p == old(self).planes(),
            decreases free@.len() - x,
        {
            let c = free[x];
            proof {
                crate::grid::lemma_lin_bounds(c.0 as int, c.1 as int, shape);
            }
            self.void_touch_at_pos(c);
            self.void_brush_at_pos(c);
            self.big_void_brush_at_pos(c);
            proof {
                assert(free@.take(x + 1).drop_last() =~= free@.take(x as int));
                assert(free@.take(x + 1).last() == free@[x as int]);
                crate::grid::lemma_lin_bounds(c.0 as int, c.1 as int, shape);
            }
            x = x + 1;
        }
        assert(free@.take(x as int) =~= free@);
    }

    fn find_resolving_touches_for_required_pixels(&self, required_pixels: &Vec<(usize, usize)>) -> (r: Vec<(usize, usize)>)
        requires
            self.setup_ok(),
            self.planes().sized(area(self.shape)),
            forall|y: int| 0 <= y < required_pixels@.len() ==> in_grid((#[trigger] required_pixels@[y]).0 as int, required_pixels@[y].1 as int, self.shape),
        ensures
            r@ == self.setup().resolving(self.planes(), required_pixels@),
            all_in_grid(r@, self.shape),
    {
        let ghost p = self.planes();
        let shape = self.shape;
        let mut out: Vec<(usize, usize)> = Vec::new();
        let mut x: usize = 0;
        while x < required_pixels.len()
            invariant
                self.setup_ok(),
                self.planes().sized(area(self.shape)),
                p == self.planes(),
                shape == self.shape,
                x <= required_pixels@.len(),
                forall|y: int| 0 <= y < required_pixels@.len() ==> in_grid((#[trigger] required_pixels@[y]).0 as int, required_pixels@[y].1 as int, self.shape),
                out@ == self.setup().resolving(p, required_pixels@.take(x as int)),
                all_in_grid(out@, self.shape),
            decreases required_pixels@.len() - x,
        {
            let q = required_pixels[x];
            proof {
                assert(required_pixels@.take(x + 1).drop_last() =~= required_pixels@.take(x as int));
                assert(required_pixels@.take(x + 1).last() == q);
            }
            if !self.void_pixel_existing[flat_index(q, shape)] {
                let cs = self.brush.at(q, shape);
                proof {
                    lemma_cells_in_grid(self.brush.brush@, q, shape);
                }
                let ghost prev = out@;
                let ghost keep = |c: (usize, usize)| !p.void_touch_invalid[lin(c.0 as int, c.1 as int, self.shape.1 as int)];
                let mut y: usize = 0;
                while y < cs.len()
                    invariant
                        self.setup_ok(),
                        self.planes().sized(area(self.shape)),
                        p == self.planes(),
                        shape == self.shape,
                        cs@ == cells(self.brush.brush@, q, shape),
                        forall|z: int| 0 <= z < cs@.len() ==> in_grid((#[trigger] cs@[z]).0 as int, cs@[z].1 as int, shape),
                        y <= cs@.len(),
                        keep == (|c: (usize, usize)| !p.void_touch_invalid[lin(c.0 as int, c.1 as int, self.shape.1 as int)]),
                        out@ == prev + cs@.take(y as int).filter(keep),
                        all_in_grid(out@, self.shape),
                    decreases cs@.len() - y,
                {
                    let c = cs[y];
                    proof {
                        assert(cs@.take(y + 1).drop_last() =~= cs@.take(y as int));
                        assert(cs@.take(y + 1).last() == c);
                        reveal(Seq::filter);
                    }
                    if !self.void_touch_invalid[flat_index(c, shape)] {
                        out.push(c);
                        assert(out@ =~= prev + cs@.take(y + 1).filter(keep));
                    }
                    y = y + 1;
                }
                assert(cs@.take(y as int) =~= cs@);
            }
            x = x + 1;
        }
        assert(required_pixels@.take(x as int) =~= required_pixels@);
        out
    }

    /// Places a void touch centred at `pos` and returns the pixels around it
    /// that have become void-required, with the void touch centres that
    /// would cover those still uncovered.
    pub fn add_void_touch(&mut self, pos: (usize, usize)) -> (r: (Vec<(usize, usize)>, Vec<(usize, usize)>))
        requires
            old(self).wf(),
            in_grid(pos.0 as int, pos.1 as int, old(self).shape),
        ensures
            final(self).wf(),
            final(self).same_setup(old(self)),
            (final(self).planes(), r.0@, r.1@) == old(self).setup().void_touch(old(self).planes(), pos),
            all_in_grid(r.0@, old(self).shape),
            all_in_grid(r.1@, old(self).shape),
            old(self).setup().law_ready() && consistent(old(self).setup(), old(self).planes())
                && !old(self).void_touch_invalid@[at(pos, old(self).shape)] ==> consistent(final(self).setup(), final(self).planes()),
            old(self).setup().law_ready() && splittable(old(self).brush.brush@) && consistent(old(self).setup(), old(self).planes())
                && settled(old(self).setup(), old(self).planes()) && !old(self).void_touch_invalid@[at(pos, old(self).shape)]
                ==> settled(final(self).setup(), final(self).planes()),
    {
        let ghost p = self.planes();
        proof {
            if self.setup().law_ready() && consistent(self.setup(), p) && !p.void_touch_invalid[at(pos, self.shape)] {
                lemma_void_touch_consistent(self.setup(), p, pos);
                if splittable(self.brush.brush@) && settled(self.setup(), p) {
                    lemma_void_touch_exact(self.setup(), p, pos);
                    crate::consistency::lemma_void_touch_valid(self.setup(), p, pos);
                }
            }
        }
        proof {
            self.setup().lemma_painted_keeps(p, pos);
            self.setup().lemma_touched_keeps(self.setup().painted(p, pos), pos);
        }
        self.void_brush_at_pos(pos);
        self.void_touch_at_pos(pos);
        self.big_void_brush_at_pos(pos);
        let ghost s1 = self.planes();
        let required_pixels = self.find_required_pixels_around_pos(pos);
        proof {
            assert forall|x: int| 0 <= x < required_pixels@.len() implies 0 <= lin((#[trigger] required_pixels@[x]).0 as int, required_pixels@[x].1 as int, self.shape.1 as int) < s1.void_pixel_required.len() by {
                crate::grid::lemma_lin_bounds(required_pixels@[x].0 as int, required_pixels@[x].1 as int, self.shape);
            }
            lemma_mark_len(s1.void_pixel_required, required_pixels@, self.shape.1 as int, true);
        }
        let ghost s2 = self.planes();
        self.take_free_void_touches_around_pos(pos);
        proof {
            let free = self.setup().free_around(s2, pos);
            lemma_cells_in_grid(self.very_big_brush.brush@, pos, self.shape);
            assert forall|x: int| 0 <= x < free.len() implies in_grid((#[trigger] free[x]).0 as int, free[x].1 as int, self.shape) by {
                assert(free.contains(free[x]));
                crate::scan::lemma_in_filter(
                    cells(self.very_big_brush.brush@, pos, self.shape),
                    |c: (usize, usize)| touch_free(self.brush.brush@, self.shape, s2.void_pixel_existing, s2.void_pixel_required, c),
                    free[x],
                );
                let items = cells(self.very_big_brush.brush@, pos, self.shape);
                let i = choose|i: int| 0 <= i < items.len() && items[i] == free[x];
            }
            self.setup().lemma_taken_keeps(s2, free);
        }
        let resolving_touches = self.find_resolving_touches_for_required_pixels(&required_pixels);
        (required_pixels, resolving_touches)
    }

    /// A solid touch at `pos`: the void touch of the inverted design,
    /// inverted back.
    pub fn add_solid_touch(&mut self, pos: (usize, usize)) -> (r: (Vec<(usize, usize)>, Vec<(usize, usize)>))
        requires
            old(self).wf(),
            in_grid(pos.0 as int, pos.1 as int, old(self).shape),
        ensures
            final(self).wf(),
            final(self).same_setup(old(self)),
            final(self).planes() == old(self).setup().void_touch(old(self).planes().inverted(), pos).0.inverted(),
            r.0@ == old(self).setup().void_touch(old(self).planes().inverted(), pos).1,
            r.1@ == old(self).setup().void_touch(old(self).planes().inverted(), pos).2,
            old(self).setup().law_ready() && consistent(old(self).setup(), old(self).planes())
                && !old(self).solid_touch_invalid@[at(pos, old(self).shape)] ==> consistent(final(self).setup(), final(self).planes()),
            old(self).setup().law_ready() && splittable(old(self).brush.brush@) && consistent(old(self).setup(), old(self).planes())
                && settled(old(self).setup(), old(self).planes()) && !old(self).solid_touch_invalid@[at(pos, old(self).shape)]
                ==> settled(final(self).setup(), final(self).planes()),
    {
        self.invert();
        let (required_pixels, resolving_touches) = self.add_void_touch(pos);
        self.invert();
        (required_pixels, resolving_touches)
    }
}


/// The number of false bits of `s`.
pub open spec fn count_false(s: Seq<bool>) -> nat
    decreases s.len(),
{
    if s.len() == 0 {
        0
    } else {
        count_false(s.drop_last()) + if s.last() { 0nat } else { 1nat }
    }
}

/// Setting a bit that was false, and clearing none, lowers the count of
/// false bits.
pub proof fn lemma_count_false_drops(a: Seq<bool>, b: Seq<bool>, k: int)
    requires
        a.len() == b.len(),
        forall|i: int| 0 <= i < a.len() && #[trigger] a[i] ==> b[i],
        0 <= k < a.len(),
        !a[k],
        b[k],
    ensures
        count_false(b) < count_false(a),
    decreases a.len(),
{
    if k < a.len() - 1 {
        lemma_count_false_drops(a.drop_last(), b.drop_last(), k);
    } else {
        lemma_count_false_le(a.drop_last(), b.drop_last());
    }
}

pub proof fn lemma_count_false_bound(a: Seq<bool>)
    ensures
        count_false(a) <= a.len(),
    decreases a.len(),
{
    if a.len() > 0 {
        lemma_count_false_bound(a.drop_last());
    }
}

pub proof fn lemma_count_false_le(a: Seq<bool>, b: Seq<bool>)
    requires
        a.len() == b.len(),
        forall|i: int| 0 <= i < a.len() && #[trigger] a[i] ==> b[i],
    ensures
        count_false(b) <= count_false(a),
    decreases a.len(),
{
    if a.len() > 0 {
        lemma_count_false_le(a.drop_last(), b.drop_last());
    }
}

impl Setup {
    /// A void touch records touches and never clears one.
    pub proof fn lemma_taken_keeps_touches(self, p: Planes, cs: Seq<(usize, usize)>)
        requires
            valid_shape(self.shape),
            p.sized(area(self.shape)),
            all_in_grid(cs, self.shape),
        ensures
            forall|i: int| 0 <= i < p.void_touch_existing.len() && #[trigger] p.void_touch_existing[i] ==> self.taken(p, cs).void_touch_existing[i],
            self.taken(p, cs).void_touch_existing.len() == p.void_touch_existing.len(),
        decreases cs.len(),
    {
        if cs.len() > 0 {
            assert(all_in_grid(cs.drop_last(), self.shape)) by {
                assert forall|x: int| 0 <= x < cs.drop_last().len() implies in_grid((#[trigger] cs.drop_last()[x]).0 as int, cs.drop_last()[x].1 as int, self.shape) by {
                    assert(cs.drop_last()[x] == cs[x]);
                }
            }
            self.lemma_taken_keeps_touches(p, cs.drop_last());
            let c = cs.last();
            assert(in_grid(cs[cs.len() - 1].0 as int, cs[cs.len() - 1].1 as int, self.shape));
            crate::grid::lemma_lin_bounds(c.0 as int, c.1 as int, self.shape);
        }
    }

    pub proof fn lemma_void_touch_records(self, p: Planes, t: (usize, usize))
        requires
            valid_shape(self.shape),
            p.sized(area(self.shape)),
            in_grid(t.0 as int, t.1 as int, self.shape),
        ensures
            forall|i: int| 0 <= i < p.void_touch_existing.len() && #[trigger] p.void_touch_existing[i] ==> self.void_touch(p, t).0.void_touch_existing[i],
            self.void_touch(p, t).0.void_touch_existing[lin(t.0 as int, t.1 as int, self.shape.1 as int)],
            self.void_touch(p, t).0.void_touch_existing.len() == p.void_touch_existing.len(),
    {
        crate::grid::lemma_lin_bounds(t.0 as int, t.1 as int, self.shape);
        let s1 = self.stamped(p, t);
        let req = self.required_around(s1, t);
        let s2 = self.flagged(s1, req);
        let free = self.free_around(s2, t);
        lemma_cells_in_grid(self.very_big, t, self.shape);
        assert(all_in_grid(free, self.shape)) by {
            assert forall|x: int| 0 <= x < free.len() implies in_grid((#[trigger] free[x]).0 as int, free[x].1 as int, self.shape) by {
                assert(free.contains(free[x]));
                crate::scan::lemma_in_filter(
                    cells(self.very_big, t, self.shape),
                    |c: (usize, usize)| touch_free(self.brush, self.shape, s2.void_pixel_existing, s2.void_pixel_required, c),
                    free[x],
                );
                let items = cells(self.very_big, t, self.shape);
                let i = choose|i: int| 0 <= i < items.len() && items[i] == free[x];
            }
        }
        self.lemma_painted_keeps_sized(p, t);
        self.lemma_taken_keeps_touches(s2, free);
        let k = lin(t.0 as int, t.1 as int, self.shape.1 as int);
        assert(s2.void_touch_existing == p.void_touch_existing.update(k, true));
        assert(s2.void_touch_existing[k]);
        assert(self.void_touch(p, t).0 == self.taken(s2, free));
        assert forall|i: int| 0 <= i < p.void_touch_existing.len() && #[trigger] p.void_touch_existing[i] implies self.void_touch(p, t).0.void_touch_existing[i] by {
            assert(s2.void_touch_existing[i]);
        }
    }

    pub proof fn lemma_painted_keeps_sized(self, p: Planes, t: (usize, usize))
        requires
            valid_shape(self.shape),
            p.sized(area(self.shape)),
            in_grid(t.0 as int, t.1 as int, self.shape),
        ensures
            self.stamped(p, t).sized(area(self.shape)),
            self.flagged(self.stamped(p, t), self.required_around(self.stamped(p, t), t)).sized(area(self.shape)),
    {
        crate::grid::lemma_lin_bounds(t.0 as int, t.1 as int, self.shape);
        let s1 = self.stamped(p, t);
        let req = self.required_around(s1, t);
        lemma_cells_in_grid(self.very_big, t, self.shape);
        assert forall|x: int| 0 <= x < req.len() implies 0 <= lin((#[trigger] req[x]).0 as int, req[x].1 as int, self.shape.1 as int) < s1.void_pixel_required.len() by {
            assert(req.contains(req[x]));
            crate::scan::lemma_in_filter(
                cells(self.very_big, t, self.shape),
                |q: (usize, usize)| pixel_required(self.brush, self.shape, s1.void_pixel_existing, s1.void_pixel_impossible, s1.solid_touch_invalid, q),
                req[x],
            );
            let items = cells(self.very_big, t, self.shape);
            let i = choose|i: int| 0 <= i < items.len() && items[i] == req[x];
            crate::grid::lemma_lin_bounds(req[x].0 as int, req[x].1 as int, self.shape);
        }
        lemma_mark_len(s1.void_pixel_required, req, self.shape.1 as int, true);
    }
}


/// In a well-formed design, and so after any sequence of touches, no pixel
/// is existing in both polarities.
pub proof fn lemma_existing_disjoint(d: Design)
    requires
        d.wf(),
    ensures
        forall|k: int| 0 <= k < area(d.shape) ==> !(#[trigger] d.void_pixel_existing@[k] && d.solid_pixel_existing@[k]),
{
}

/// In a well-formed design every existing pixel is painted in its polarity.
pub proof fn lemma_existing_painted(d: Design)
    requires
        d.wf(),
    ensures
        forall|k: int| 0 <= k < area(d.shape) && #[trigger] d.void_pixel_existing@[k] ==> d.void@[k],
        forall|k: int| 0 <= k < area(d.shape) && #[trigger] d.solid_pixel_existing@[k] ==> d.solid@[k],
{
    assert forall|k: int| 0 <= k < area(d.shape) && #[trigger] d.solid_pixel_existing@[k] implies d.solid@[k] by {
        assert(d.planes().void_pixel_existing[k] == d.void_pixel_existing@[k]);
    }
}

/// In a well-formed design a pixel existing in one polarity is no longer
/// possible in the other: it is impossible there, and not existing.
pub proof fn lemma_existing_not_possible_opposite(d: Design)
    requires
        d.wf(),
    ensures
        forall|k: int| 0 <= k < area(d.shape) && #[trigger] d.void_pixel_existing@[k] ==> d.solid_pixel_impossible@[k] && !d.solid_pixel_existing@[k],
        forall|k: int| 0 <= k < area(d.shape) && #[trigger] d.solid_pixel_existing@[k] ==> d.void_pixel_impossible@[k] && !d.void_pixel_existing@[k],
{
    assert forall|k: int| 0 <= k < area(d.shape) && #[trigger] d.solid_pixel_existing@[k] implies d.void_pixel_impossible@[k] && !d.void_pixel_existing@[k] by {
        assert(d.planes().void_pixel_existing[k] == d.void_pixel_existing@[k]);
    }
}

} // verus!






