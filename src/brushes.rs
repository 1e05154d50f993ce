//! Brushes: centred lists of integer offsets, and painting them on bitmaps.
use vstd::prelude::*;
use crate::grid::{area, flat_index, in_grid, lin, new_array};

verus! {

/// The largest side of a brush's nominal shape.
pub const MAX_SIDE: usize = 4096;

/// A structuring element: offsets around the centre `(0, 0)`, and the
/// nominal `(rows, cols)` shape they were drawn in.
pub struct Brush {
    pub brush: Vec<(i32, i32)>,
    pub shape: (usize, usize),
}

/// Every offset lies in the nominal shape, centred by floor division.
pub open spec fn centred(offs: Seq<(i32, i32)>, shape: (usize, usize)) -> bool {
    forall|q: int|
        0 <= q < offs.len() ==> {
            &&& -(shape.0 as int / 2) <= (#[trigger] offs[q]).0 < shape.0 as int - shape.0 as int / 2
            &&& -(shape.1 as int / 2) <= offs[q].1 < shape.1 as int - shape.1 as int / 2
        }
}

impl Brush {
    /// A brush whose shape is small enough to be worked with and whose
    /// offsets lie in that shape.
    pub open spec fn wf(&self) -> bool {
        &&& self.shape.0 <= MAX_SIDE
        &&& self.shape.1 <= MAX_SIDE
        &&& centred(self.brush@, self.shape)
    }
}

/// A grid shape whose coordinates fit the offsets' integer type and whose
/// cells can all be indexed.
pub open spec fn valid_shape(shape: (usize, usize)) -> bool {
    &&& shape.0 <= i32::MAX
    &&& shape.1 <= i32::MAX
    &&& area(shape) <= usize::MAX
}

/// The cell that offset `o` lands on when the centre is placed at `pos`.
pub open spec fn shifted(o: (i32, i32), pos: (usize, usize)) -> (int, int) {
    (o.0 + pos.0, o.1 + pos.1)
}

/// The in-grid cells painted by the offsets `offs` placed at `pos`, in the
/// order of the offsets.
pub open spec fn cells(offs: Seq<(i32, i32)>, pos: (usize, usize), shape: (usize, usize)) -> Seq<(usize, usize)>
    decreases offs.len(),
{
    if offs.len() == 0 {
        seq![]
    } else {
        let prev = cells(offs.drop_last(), pos, shape);
        let c = shifted(offs.last(), pos);
        if in_grid(c.0, c.1, shape) {
            prev.push((c.0 as usize, c.1 as usize))
        } else {
            prev
        }
    }
}

/// Offset `o` placed at `pos` lands inside the grid on linear index `k`.
pub open spec fn hits(o: (i32, i32), pos: (usize, usize), shape: (usize, usize), k: int) -> bool {
    let c = shifted(o, pos);
    in_grid(c.0, c.1, shape) && lin(c.0, c.1, shape.1 as int) == k
}

/// Some offset of `offs` placed at `pos` lands on linear index `k`.
pub open spec fn covers(offs: Seq<(i32, i32)>, pos: (usize, usize), shape: (usize, usize), k: int) -> bool {
    exists|q: int| 0 <= q < offs.len() && #[trigger] hits(offs[q], pos, shape, k)
}

/// `plane` with every cell covered by `offs` placed at `pos` set to `v`.
pub open spec fn paint<T>(plane: Seq<T>, offs: Seq<(i32, i32)>, pos: (usize, usize), shape: (usize, usize), v: T) -> Seq<T> {
    Seq::new(plane.len(), |k: int| if covers(offs, pos, shape, k) { v } else { plane[k] })
}

pub proof fn lemma_covers_step(offs: Seq<(i32, i32)>, q: int, pos: (usize, usize), shape: (usize, usize), k: int)
    requires
        0 <= q < offs.len(),
    ensures
        covers(offs.take(q + 1), pos, shape, k) == (covers(offs.take(q), pos, shape, k) || hits(offs[q], pos, shape, k)),
{
    if covers(offs.take(q + 1), pos, shape, k) {
        let r = choose|r: int| 0 <= r < offs.take(q + 1).len() && #[trigger] hits(offs.take(q + 1)[r], pos, shape, k);
        if r < q {
            assert(offs.take(q)[r] == offs.take(q + 1)[r]);
        }
    }
    if covers(offs.take(q), pos, shape, k) {
        let r = choose|r: int| 0 <= r < offs.take(q).len() && #[trigger] hits(offs.take(q)[r], pos, shape, k);
        assert(offs.take(q + 1)[r] == offs.take(q)[r]);
    }
    if hits(offs[q], pos, shape, k) {
        assert(offs.take(q + 1)[q] == offs[q]);
    }
}

pub proof fn lemma_paint_step<T>(plane: Seq<T>, offs: Seq<(i32, i32)>, q: int, pos: (usize, usize), shape: (usize, usize), v: T)
    requires
        0 <= q < offs.len(),
        plane.len() == area(shape),
    ensures
        paint(plane, offs.take(q + 1), pos, shape, v) == if in_grid(shifted(offs[q], pos).0, shifted(offs[q], pos).1, shape) {
            paint(plane, offs.take(q), pos, shape, v).update(lin(shifted(offs[q], pos).0, shifted(offs[q], pos).1, shape.1 as int), v)
        } else {
            paint(plane, offs.take(q), pos, shape, v)
        },
{
    assert forall|k: int| 0 <= k < plane.len() implies covers(offs.take(q + 1), pos, shape, k) == (covers(offs.take(q), pos, shape, k) || hits(offs[q], pos, shape, k)) by {
        lemma_covers_step(offs, q, pos, shape, k);
    }
    let c = shifted(offs[q], pos);
    if in_grid(c.0, c.1, shape) {
        crate::grid::lemma_lin_bounds(c.0, c.1, shape);
        let l = lin(c.0, c.1, shape.1 as int);
        assert forall|k: int| 0 <= k < plane.len() implies #[trigger] paint(plane, offs.take(q + 1), pos, shape, v)[k] == paint(plane, offs.take(q), pos, shape, v).update(l, v)[k] by {
            lemma_covers_step(offs, q, pos, shape, k);
            assert(hits(offs[q], pos, shape, k) == (k == l));
        }
        assert(paint(plane, offs.take(q + 1), pos, shape, v) =~= paint(plane, offs.take(q), pos, shape, v).update(lin(c.0, c.1, shape.1 as int), v));
    } else {
        assert(paint(plane, offs.take(q + 1), pos, shape, v) =~= paint(plane, offs.take(q), pos, shape, v));
    }
}

/// The cell that offset `o` placed at `pos` lands on, when it lands in the grid.
fn place(o: (i32, i32), pos: (usize, usize), shape: (usize, usize)) -> (r: Option<(usize, usize)>)
    requires
        pos.0 <= i32::MAX,
        pos.1 <= i32::MAX,
        valid_shape(shape),
    ensures
        r is Some <==> in_grid(shifted(o, pos).0, shifted(o, pos).1, shape),
        r is Some ==> r->0 == (shifted(o, pos).0 as usize, shifted(o, pos).1 as usize),
{
    let i = o.0 as i64 + pos.0 as i64;
    let j = o.1 as i64 + pos.1 as i64;
    if i < 0 || j < 0 || shape.0 as i64 <= i || shape.1 as i64 <= j {
        None
    } else {
        Some((i as usize, j as usize))
    }
}

impl Brush {
    /// The in-grid cells painted by placing the brush's centre at `pos`.
    pub fn at(&self, pos: (usize, usize), shape: (usize, usize)) -> (r: Vec<(usize, usize)>)
        requires
            pos.0 <= i32::MAX,
            pos.1 <= i32::MAX,
            valid_shape(shape),
        ensures
            r@ == cells(self.brush@, pos, shape),
    {
        let mut new: Vec<(usize, usize)> = Vec::new();
        let mut q: usize = 0;
        while q < self.brush.len()
            invariant
                q <= self.brush@.len(),
                pos.0 <= i32::MAX,
                pos.1 <= i32::MAX,
                valid_shape(shape),
                new@ == cells(self.brush@.take(q as int), pos, shape),
            decreases self.brush@.len() - q,
        {
            assert(self.brush@.take(q + 1).drop_last() =~= self.brush@.take(q as int));
            match place(self.brush[q], pos, shape) {
                Some(c) => {
                    new.push(c);
                },
                None => {},
            }
            q = q + 1;
        }
        assert(self.brush@.take(q as int) =~= self.brush@);
        new
    }
}

/// Sets every cell that `brush` covers when placed at `pos` to `value`.
pub fn apply_brush<T: Copy>(
    shape: (usize, usize),
    array: &mut Vec<T>,
    brush: &Brush,
    pos: (usize, usize),
    value: T,
)
    requires
        pos.0 <= i32::MAX,
        pos.1 <= i32::MAX,
        valid_shape(shape),
        old(array)@.len() == area(shape),
    ensures
        final(array)@ == paint(old(array)@, brush.brush@, pos, shape, value),
{
    let ghost start = array@;
    let mut q: usize = 0;
    while q < brush.brush.len()
        invariant
            q <= brush.brush@.len(),
            pos.0 <= i32::MAX,
            pos.1 <= i32::MAX,
            valid_shape(shape),
            start.len() == area(shape),
            array@ == paint(start, brush.brush@.take(q as int), pos, shape, value),
        decreases brush.brush@.len() - q,
    {
        proof {
            lemma_paint_step(start, brush.brush@, q as int, pos, shape, value);
        }
        match place(brush.brush[q], pos, shape) {
            Some(c) => {
                let idx = flat_index(c, shape);
                array.set(idx, value);
            },
            None => {},
        }
        q = q + 1;
    }
    assert(brush.brush@.take(q as int) =~= brush.brush@);
}


/// The `rows × cols` block of offsets around the centre cell `(ci, cj)`,
/// in row-major order.
pub open spec fn square(rows: int, cols: int, ci: int, cj: int) -> Seq<(i32, i32)> {
    Seq::new((rows * cols) as nat, |k: int| ((k / cols - ci) as i32, (k % cols - cj) as i32))
}

pub proof fn lemma_square_at(rows: int, cols: int, ci: int, cj: int, i: int, j: int)
    requires
        0 <= i < rows,
        0 <= j < cols,
    ensures
        0 <= i * cols + j < rows * cols,
        square(rows, cols, ci, cj).len() == rows * cols,
        square(rows, cols, ci, cj)[i * cols + j] == ((i - ci) as i32, (j - cj) as i32),
{
    assert(0 <= i * cols + j < rows * cols) by (nonlinear_arith)
        requires
            0 <= i < rows,
            0 <= j < cols,
    ;
    vstd::arithmetic::div_mod::lemma_fundamental_div_mod_converse(i * cols + j, cols, i, j);
}

pub proof fn lemma_next_row(i: int, cols: int)
    ensures
        (i + 1) * cols == i * cols + cols,
{
    assert((i + 1) * cols == i * cols + cols) by (nonlinear_arith);
}

pub proof fn lemma_area_small(rows: int, cols: int)
    requires
        0 <= rows <= 3 * MAX_SIDE,
        0 <= cols <= 3 * MAX_SIDE,
    ensures
        0 <= rows * cols <= 150994944,
        rows * cols < 0x1_0000_0000,
{
    assert(0 <= rows * cols <= 12288 * 12288) by (nonlinear_arith)
        requires
            0 <= rows <= 12288,
            0 <= cols <= 12288,
    ;
}

/// An offset of the `width × width` square that lies in none of its four
/// `notch × notch` corners.
pub open spec fn outside_notches(width: int, notch: int, o: (i32, i32)) -> bool {
    let i = o.0 + width / 2;
    let j = o.1 + width / 2;
    &&& !(i < notch && j < notch)
    &&& !(width - notch <= i && j < notch)
    &&& !(i < notch && width - notch <= j)
    &&& !(width - notch <= i && width - notch <= j)
}

/// The offsets of a `width × width` square with `notch × notch` corners
/// removed, centred by floor division, in row-major order.
pub open spec fn notched_offsets(width: int, notch: int) -> Seq<(i32, i32)> {
    square(width, width, width / 2, width / 2).filter(|o: (i32, i32)| outside_notches(width, notch, o))
}

pub fn notched_square_brush(width: usize, notch: usize) -> (brush: Vec<(i32, i32)>)
    requires
        width <= MAX_SIDE,
        notch <= width,
    ensures
        brush@ == notched_offsets(width as int, notch as int),
        centred(brush@, (width, width)),
{
    let ghost sq = square(width as int, width as int, width as int / 2, width as int / 2);
    let ghost keep = |o: (i32, i32)| outside_notches(width as int, notch as int, o);
    let mut brush: Vec<(i32, i32)> = Vec::new();
    let half = (width / 2) as i32;
    let mut i: usize = 0;
    while i < width
        invariant
            i <= width,
            width <= MAX_SIDE,
            notch <= width,
            half == width / 2,
            sq == square(width as int, width as int, width as int / 2, width as int / 2),
            keep == (|o: (i32, i32)| outside_notches(width as int, notch as int, o)),
            brush@ == sq.take(i * width).filter(keep),
            centred(brush@, (width, width)),
        decreases width - i,
    {
        let mut j: usize = 0;
        while j < width
            invariant
                i < width,
                j <= width,
                width <= MAX_SIDE,
                notch <= width,
                half == width / 2,
                sq == square(width as int, width as int, width as int / 2, width as int / 2),
                keep == (|o: (i32, i32)| outside_notches(width as int, notch as int, o)),
                brush@ == sq.take(i * width + j).filter(keep),
                centred(brush@, (width, width)),
            decreases width - j,
        {
            proof {
                lemma_square_at(width as int, width as int, width as int / 2, width as int / 2, i as int, j as int);
                let k = i * width + j;
                assert(sq.take(k + 1).drop_last() =~= sq.take(k));
                assert(sq.take(k + 1).last() == sq[k]);
                reveal(Seq::filter);
            }
            let skip = (i < notch && j < notch) || (width - notch <= i && j < notch) || (i < notch && width - notch <= j)
                || (width - notch <= i && width - notch <= j);
            if !skip {
                brush.push((i as i32 - half, j as i32 - half));
            }
            j = j + 1;
        }
        proof {
            lemma_next_row(i as int, width as int);
        }
        i = i + 1;
    }
    proof {
        assert(sq.len() == width * width) by {
            lemma_area_small(width as int, width as int);
        }
        assert(sq.take(i * width) =~= sq);
    }
    brush
}

impl Brush {
    /// A `width × width` square brush with `notch × notch` corners removed.
    pub fn notched_square(width: usize, notch: usize) -> (r: Brush)
        requires
            width <= MAX_SIDE,
            notch <= width,
        ensures
            r.brush@ == notched_offsets(width as int, notch as int),
            r.shape == (width, width),
            r.wf(),
    {
        let brush = notched_square_brush(width, notch);
        Brush { brush, shape: (width, width) }
    }

    /// The brush rasterised into a bitmap of its own shape, the centre at
    /// `(rows / 2, cols / 2)`; offsets outside the shape are clipped.
    pub fn mask(&self) -> (r: Vec<bool>)
        requires
            self.shape.0 <= MAX_SIDE,
            self.shape.1 <= MAX_SIDE,
        ensures
            r@ == paint(
                Seq::new(area(self.shape) as nat, |k: int| false),
                self.brush@,
                (self.shape.0 / 2, self.shape.1 / 2),
                self.shape,
                true,
            ),
    {
        proof {
            lemma_area_small(self.shape.0 as int, self.shape.1 as int);
        }
        let mut mask = new_array(self.shape.0 * self.shape.1, false);
        apply_brush(self.shape, &mut mask, self, (self.shape.0 / 2, self.shape.1 / 2), true);
        mask
    }
}

/// The `3·rows × 3·cols` block of offsets around the brush's centre: the
/// neighbourhood scanned after each placement.
pub fn compute_very_big_square_brush(brush: &Brush) -> (r: Brush)
    requires
        brush.wf(),
    ensures
        r.shape.0 == 3 * brush.shape.0,
        r.shape.1 == 3 * brush.shape.1,
        r.brush@ == square(r.shape.0 as int, r.shape.1 as int, r.shape.0 as int / 2, r.shape.1 as int / 2),
{
    let (m, n) = brush.shape;
    let (m_, n_) = (3 * m, 3 * n);
    square_offsets(m_, n_, m_ / 2, n_ / 2)
}

/// The `2·rows × 2·cols` block of offsets starting `rows` cells up and
/// `rows` cells to the left of the centre.
pub fn compute_big_square_brush(brush: &Brush) -> (r: Brush)
    requires
        brush.wf(),
    ensures
        r.shape.0 == 2 * brush.shape.0,
        r.shape.1 == 2 * brush.shape.1,
        r.brush@ == square(r.shape.0 as int, r.shape.1 as int, brush.shape.0 as int, brush.shape.0 as int),
{
    let (m, n) = brush.shape;
    square_offsets(2 * m, 2 * n, m, m)
}

/// A brush holding every offset of a `rows × cols` block around `(ci, cj)`.
fn square_offsets(rows: usize, cols: usize, ci: usize, cj: usize) -> (r: Brush)
    requires
        rows <= 3 * MAX_SIDE,
        cols <= 3 * MAX_SIDE,
        ci <= 3 * MAX_SIDE,
        cj <= 3 * MAX_SIDE,
    ensures
        r.shape == (rows, cols),
        r.brush@ == square(rows as int, cols as int, ci as int, cj as int),
{
    let ghost sq = square(rows as int, cols as int, ci as int, cj as int);
    let mut new_brush: Vec<(i32, i32)> = Vec::new();
    let mut i: usize = 0;
    while i < rows
        invariant
            i <= rows,
            rows <= 3 * MAX_SIDE,
            cols <= 3 * MAX_SIDE,
            ci <= 3 * MAX_SIDE,
            cj <= 3 * MAX_SIDE,
            sq == square(rows as int, cols as int, ci as int, cj as int),
            new_brush@ == sq.take(i * cols),
        decreases rows - i,
    {
        let mut j: usize = 0;
        while j < cols
            invariant
                i < rows,
                j <= cols,
                rows <= 3 * MAX_SIDE,
                cols <= 3 * MAX_SIDE,
                ci <= 3 * MAX_SIDE,
                cj <= 3 * MAX_SIDE,
                sq == square(rows as int, cols as int, ci as int, cj as int),
                new_brush@ == sq.take(i * cols + j),
            decreases cols - j,
        {
            proof {
                lemma_square_at(rows as int, cols as int, ci as int, cj as int, i as int, j as int);
                assert(sq.take(i * cols + j + 1) =~= sq.take(i * cols + j).push(sq[i * cols + j]));
            }
            new_brush.push((i as i32 - ci as i32, j as i32 - cj as i32));
            j = j + 1;
        }
        proof {
            lemma_next_row(i as int, cols as int);
        }
        i = i + 1;
    }
    proof {
        lemma_area_small(rows as int, cols as int);
        assert(sq.take(i * cols) =~= sq);
    }
    Brush { brush: new_brush, shape: (rows, cols) }
}

/// Sets, in each plane `arrays[p]` that has a value, every cell that
/// `brush` covers when placed at `pos` to `values[p]`.
pub fn multi_apply_brush<T: Copy>(
    shape: (usize, usize),
    arrays: &mut Vec<Vec<T>>,
    brush: &Brush,
    pos: (usize, usize),
    values: &Vec<T>,
)
    requires
        pos.0 <= i32::MAX,
        pos.1 <= i32::MAX,
        valid_shape(shape),
        forall|p: int| 0 <= p < old(arrays)@.len() ==> (#[trigger] old(arrays)@[p])@.len() == area(shape),
    ensures
        final(arrays)@.len() == old(arrays)@.len(),
        forall|p: int|
            0 <= p < final(arrays)@.len() ==> (#[trigger] final(arrays)@[p])@ == if p < values@.len() {
                paint(old(arrays)@[p]@, brush.brush@, pos, shape, values@[p])
            } else {
                old(arrays)@[p]@
            },
{
    let count = if arrays.len() < values.len() { arrays.len() } else { values.len() };
    let mut p: usize = 0;
    while p < count
        invariant
            count <= arrays@.len(),
            count <= values@.len(),
            p <= count,
            pos.0 <= i32::MAX,
            pos.1 <= i32::MAX,
            valid_shape(shape),
            arrays@.len() == old(arrays)@.len(),
            forall|q: int| 0 <= q < old(arrays)@.len() ==> (#[trigger] old(arrays)@[q])@.len() == area(shape),
            forall|q: int|
                0 <= q < arrays@.len() ==> (#[trigger] arrays@[q])@ == if q < p {
                    paint(old(arrays)@[q]@, brush.brush@, pos, shape, values@[q])
                } else {
                    old(arrays)@[q]@
                },
        decreases count - p,
    {
        let mut plane: Vec<T> = Vec::new();
        std::mem::swap(&mut plane, &mut arrays[p]);
        apply_brush(shape, &mut plane, brush, pos, values[p]);
        std::mem::swap(&mut plane, &mut arrays[p]);
        p = p + 1;
    }
}


/// Offset `o` is `a + b` for two offsets of `offs`, moved by one along each
/// axis whose side is even, so that the result keeps the brush's centre.
pub open spec fn dilated(offs: Seq<(i32, i32)>, shape: (usize, usize), o: (i32, i32)) -> bool {
    exists|a: int, b: int|
        0 <= a < offs.len() && 0 <= b < offs.len() && o.0 == offs[a].0 + offs[b].0 + 1 - shape.0 % 2 && o.1
            == offs[a].1 + offs[b].1 + 1 - shape.1 % 2
}

/// Where the stamp of offset `o` is centred on the doubled mask.
pub open spec fn stamp_centre(o: (i32, i32), shape: (usize, usize)) -> (usize, usize) {
    ((shape.0 + o.0 - shape.0 % 2) as usize, (shape.1 + o.1 - shape.1 % 2) as usize)
}

/// The doubled mask after stamping the first `count` offsets.
pub open spec fn stamped(offs: Seq<(i32, i32)>, shape: (usize, usize), count: int) -> Seq<bool> {
    let big = ((2 * shape.0) as usize, (2 * shape.1) as usize);
    Seq::new(
        area(big) as nat,
        |k: int| exists|a: int| 0 <= a < count && #[trigger] covers(offs, stamp_centre(offs[a], shape), big, k),
    )
}

proof fn lemma_stamped_cell(offs: Seq<(i32, i32)>, shape: (usize, usize), i: int, j: int)
    requires
        centred(offs, shape),
        1 <= shape.0 <= MAX_SIDE,
        1 <= shape.1 <= MAX_SIDE,
        0 <= i < 2 * shape.0,
        0 <= j < 2 * shape.1,
    ensures
        stamped(offs, shape, offs.len() as int)[lin(i, j, 2 * shape.1)] == dilated(
            offs,
            shape,
            ((i - shape.0 + 1) as i32, (j - shape.1 + 1) as i32),
        ),
{
    let big = ((2 * shape.0) as usize, (2 * shape.1) as usize);
    let k = lin(i, j, 2 * shape.1);
    crate::grid::lemma_lin_bounds(i, j, big);
    let o = ((i - shape.0 + 1) as i32, (j - shape.1 + 1) as i32);
    if stamped(offs, shape, offs.len() as int)[k] {
        let a = choose|a: int| 0 <= a < offs.len() && #[trigger] covers(offs, stamp_centre(offs[a], shape), big, k);
        let c = stamp_centre(offs[a], shape);
        let b = choose|b: int| 0 <= b < offs.len() && #[trigger] hits(offs[b], c, big, k);
        let p = shifted(offs[b], c);
        crate::grid::lemma_lin_injective(p.0, p.1, i, j, 2 * shape.1);
        assert(o.0 == offs[a].0 + offs[b].0 + 1 - shape.0 % 2);
        assert(o.1 == offs[a].1 + offs[b].1 + 1 - shape.1 % 2);
    }
    if dilated(offs, shape, o) {
        let (a, b) = choose|a: int, b: int|
            0 <= a < offs.len() && 0 <= b < offs.len() && o.0 == offs[a].0 + offs[b].0 + 1 - shape.0 % 2 && o.1
                == offs[a].1 + offs[b].1 + 1 - shape.1 % 2;
        let c = stamp_centre(offs[a], shape);
        assert(hits(offs[b], c, big, k));
        assert(covers(offs, c, big, k));
    }
}

/// The brush dilated by itself: every sum of two offsets, re-centred for
/// even sides, in row-major order, with nominal shape `(2·rows − 1, 2·cols − 1)`.
pub fn compute_big_brush(brush: &Brush) -> (r: Brush)
    requires
        brush.wf(),
        brush.shape.0 >= 1,
        brush.shape.1 >= 1,
    ensures
        r.shape.0 == 2 * brush.shape.0 - 1,
        r.shape.1 == 2 * brush.shape.1 - 1,
        r.brush@ == square(
            2 * brush.shape.0,
            2 * brush.shape.1,
            brush.shape.0 - 1,
            brush.shape.1 - 1,
        ).filter(|o: (i32, i32)| dilated(brush.brush@, brush.shape, o)),
        centred(r.brush@, r.shape),
{
    let (m, n) = brush.shape;
    let (m_, n_) = (2 * m, 2 * n);
    let ghost offs = brush.brush@;
    let ghost big = (m_, n_);
    proof {
        lemma_area_small(m_ as int, n_ as int);
    }
    let mut mask = new_array(m_ * n_, false);
    assert(mask@ =~= stamped(offs, brush.shape, 0));
    let mut q: usize = 0;
    while q < brush.brush.len()
        invariant
            brush.wf(),
            m == brush.shape.0,
            n == brush.shape.1,
            1 <= m,
            1 <= n,
            m_ == 2 * m,
            n_ == 2 * n,
            big == (m_, n_),
            offs == brush.brush@,
            q <= offs.len(),
            area(big) < 0x1_0000_0000,
            mask@ == stamped(offs, brush.shape, q as int),
        decreases offs.len() - q,
    {
        let (di, dj) = brush.brush[q];
        let i_ = (m as i32 + di) as usize - m % 2;
        let j_ = (n as i32 + dj) as usize - n % 2;
        assert((i_, j_) == stamp_centre(offs[q as int], brush.shape));
        apply_brush((m_, n_), &mut mask, brush, (i_, j_), true);
        proof {
            assert forall|k: int| 0 <= k < mask@.len() implies #[trigger] mask@[k] == stamped(offs, brush.shape, q + 1)[k] by {
                if covers(offs, stamp_centre(offs[q as int], brush.shape), big, k) {
                    assert(covers(offs, stamp_centre(offs[q as int], brush.shape), big, k));
                }
                if stamped(offs, brush.shape, q + 1)[k] {
                    let a = choose|a: int| 0 <= a < q + 1 && #[trigger] covers(offs, stamp_centre(offs[a], brush.shape), big, k);
                    if a < q {
                        assert(stamped(offs, brush.shape, q as int)[k]);
                    }
                }
            }
            assert(mask@ =~= stamped(offs, brush.shape, q + 1));
        }
        q = q + 1;
    }
    let ghost sq = square(m_ as int, n_ as int, m as int - 1, n as int - 1);
    let ghost keep = |o: (i32, i32)| dilated(offs, brush.shape, o);
    let mut new_brush: Vec<(i32, i32)> = Vec::new();
    let mut i: usize = 0;
    while i < m_
        invariant
            brush.wf(),
            m == brush.shape.0,
            n == brush.shape.1,
            1 <= m,
            1 <= n,
            m_ == 2 * m,
            n_ == 2 * n,
            offs == brush.brush@,
            q == offs.len(),
            area((m_, n_)) <= 150994944,
            i <= m_,
            mask@ == stamped(offs, brush.shape, q as int),
            sq == square(m_ as int, n_ as int, m as int - 1, n as int - 1),
            keep == (|o: (i32, i32)| dilated(offs, brush.shape, o)),
            new_brush@ == sq.take(i * n_).filter(keep),
        decreases m_ - i,
    {
        let mut j: usize = 0;
        while j < n_
            invariant
                brush.wf(),
                m == brush.shape.0,
                n == brush.shape.1,
                1 <= m,
                1 <= n,
                m_ == 2 * m,
                n_ == 2 * n,
                offs == brush.brush@,
                q == offs.len(),
                area((m_, n_)) <= 150994944,
                i < m_,
                j <= n_,
                mask@ == stamped(offs, brush.shape, q as int),
                sq == square(m_ as int, n_ as int, m as int - 1, n as int - 1),
                keep == (|o: (i32, i32)| dilated(offs, brush.shape, o)),
                new_brush@ == sq.take(i * n_ + j).filter(keep),
            decreases n_ - j,
        {
            proof {
                lemma_square_at(m_ as int, n_ as int, m as int - 1, n as int - 1, i as int, j as int);
                lemma_stamped_cell(offs, brush.shape, i as int, j as int);
                let k = i * n_ + j;
                assert(sq.take(k + 1).drop_last() =~= sq.take(k));
                assert(sq.take(k + 1).last() == sq[k]);
                reveal(Seq::filter);
            }
            if mask[flat_index((i, j), (m_, n_))] {
                new_brush.push((i as i32 - m as i32 + 1, j as i32 - n as i32 + 1));
            }
            j = j + 1;
        }
        proof {
            lemma_next_row(i as int, n_ as int);
        }
        i = i + 1;
    }
    proof {
        lemma_area_small(m_ as int, n_ as int);
        assert(sq.take(i * n_) =~= sq);
        assert forall|q: int| 0 <= q < new_brush@.len() implies {
            &&& -((m_ - 1) as int / 2) <= (#[trigger] new_brush@[q]).0 < (m_ - 1) as int - (m_ - 1) as int / 2
            &&& -((n_ - 1) as int / 2) <= new_brush@[q].1 < (n_ - 1) as int - (n_ - 1) as int / 2
        } by {
            sq.lemma_filter_pred(keep, q);
            let o = new_brush@[q];
            let (a, b) = choose|a: int, b: int|
                0 <= a < offs.len() && 0 <= b < offs.len() && o.0 == offs[a].0 + offs[b].0 + 1 - brush.shape.0 % 2 && o.1
                    == offs[a].1 + offs[b].1 + 1 - brush.shape.1 % 2;
        }
    }
    Brush { brush: new_brush, shape: (m_ - 1, n_ - 1) }
}


pub proof fn lemma_cells_in_grid(offs: Seq<(i32, i32)>, pos: (usize, usize), shape: (usize, usize))
    ensures
        forall|x: int|
            0 <= x < cells(offs, pos, shape).len() ==> in_grid(
                (#[trigger] cells(offs, pos, shape)[x]).0 as int,
                cells(offs, pos, shape)[x].1 as int,
                shape,
            ),
        cells(offs, pos, shape).len() <= offs.len(),
    decreases offs.len(),
{
    if offs.len() > 0 {
        lemma_cells_in_grid(offs.drop_last(), pos, shape);
    }
}

/// The offsets of the brush dilated by itself (see `compute_big_brush`).
pub open spec fn big_offsets(offs: Seq<(i32, i32)>, shape: (usize, usize)) -> Seq<(i32, i32)> {
    square(2 * shape.0, 2 * shape.1, shape.0 - 1, shape.1 - 1).filter(|o: (i32, i32)| dilated(offs, shape, o))
}


/// The offsets of the set cells of a `rows × cols` mask, centred by floor
/// division, in row-major order.
pub open spec fn mask_offsets(shape: (usize, usize), mask: Seq<bool>) -> Seq<(i32, i32)> {
    square(shape.0 as int, shape.1 as int, shape.0 as int / 2, shape.1 as int / 2).filter(
        |o: (i32, i32)| mask[lin(o.0 + shape.0 / 2, o.1 + shape.1 / 2, shape.1 as int)],
    )
}

impl Brush {
    /// The brush whose offsets are the set cells of `mask`, a bitmap of
    /// shape `shape` centred on its middle cell.
    pub fn from_mask(shape: (usize, usize), mask: &Vec<bool>) -> (r: Brush)
        requires
            shape.0 <= MAX_SIDE,
            shape.1 <= MAX_SIDE,
            mask@.len() == area(shape),
        ensures
            r.shape == shape,
            r.brush@ == mask_offsets(shape, mask@),
            r.wf(),
    {
        let (m, n) = shape;
        let ghost sq = square(m as int, n as int, m as int / 2, n as int / 2);
        let ghost keep = |o: (i32, i32)| mask@[lin(o.0 + shape.0 / 2, o.1 + shape.1 / 2, shape.1 as int)];
        proof {
            lemma_area_small(m as int, n as int);
        }
        let m_ = (m / 2) as i32;
        let n_ = (n / 2) as i32;
        let mut brush: Vec<(i32, i32)> = Vec::new();
        let mut i: usize = 0;
        while i < m
            invariant
                i <= m,
                shape == (m, n),
                m <= MAX_SIDE,
                n <= MAX_SIDE,
                m_ == m / 2,
                n_ == n / 2,
                mask@.len() == area(shape),
                area(shape) <= 150994944,
                sq == square(m as int, n as int, m as int / 2, n as int / 2),
                keep == (|o: (i32, i32)| mask@[lin(o.0 + shape.0 / 2, o.1 + shape.1 / 2, shape.1 as int)]),
                brush@ == sq.take(i * n).filter(keep),
                centred(brush@, shape),
            decreases m - i,
        {
            let mut j: usize = 0;
            while j < n
                invariant
                    i < m,
                    j <= n,
                    shape == (m, n),
                    m <= MAX_SIDE,
                    n <= MAX_SIDE,
                    m_ == m / 2,
                    n_ == n / 2,
                    mask@.len() == area(shape),
                    area(shape) <= 150994944,
                    sq == square(m as int, n as int, m as int / 2, n as int / 2),
                    keep == (|o: (i32, i32)| mask@[lin(o.0 + shape.0 / 2, o.1 + shape.1 / 2, shape.1 as int)]),
                    brush@ == sq.take(i * n + j).filter(keep),
                    centred(brush@, shape),
                decreases n - j,
            {
                proof {
                    lemma_square_at(m as int, n as int, m as int / 2, n as int / 2, i as int, j as int);
                    let k = i * n + j;
                    assert(sq.take(k + 1).drop_last() =~= sq.take(k));
                    assert(sq.take(k + 1).last() == sq[k]);
                    reveal(Seq::filter);
                }
                if mask[flat_index((i, j), shape)] {
                    brush.push((i as i32 - m_, j as i32 - n_));
                }
                j = j + 1;
            }
            proof {
                lemma_next_row(i as int, n as int);
            }
            i = i + 1;
        }
        proof {
            assert(sq.take(i * n) =~= sq);
        }
        Brush { brush, shape }
    }
}

} // verus!




