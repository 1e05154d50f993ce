//! Rendering bitmaps and status planes as rows of coloured terminal blocks.
use vstd::prelude::*;
use vstd::string::StringExecFns;
use crate::brushes::{paint, Brush, MAX_SIDE};
use crate::design::Design;
use crate::grid::{area, flat_index};
use crate::status::Status;

verus! {

#[derive(Clone, Copy, Debug, PartialEq, Eq, Structural)]
pub enum Color {
    Black,
    DarkRed,
    DarkGreen,
    DarkYellow,
    DarkBlue,
    DarkMagenta,
    DarkCyan,
    DarkWhite,
    BrightBlack,
    BrightRed,
    BrightGreen,
    BrightYellow,
    BrightBlue,
    BrightMagenta,
    BrightCyan,
    White,
    Transparent,
}

/// The name under which the colours are also known.
pub type Block = Color;

/// The two-cell terminal text of a colour.
pub open spec fn color_text(c: Color) -> Seq<char> {
    match c {
        Color::Black => "\x1b[0;40m█\x1b[0m\x1b[0;40m█\x1b[0m"@,
        Color::DarkRed => "\x1b[0;31m█\x1b[0m\x1b[0;31m█\x1b[0m"@,
        Color::DarkGreen => "\x1b[0;32m█\x1b[0m\x1b[0;32m█\x1b[0m"@,
        Color::DarkYellow => "\x1b[0;33m█\x1b[0m\x1b[0;33m█\x1b[0m"@,
        Color::DarkBlue => "\x1b[0;34m█\x1b[0m\x1b[0;34m█\x1b[0m"@,
        Color::DarkMagenta => "\x1b[0;35m█\x1b[0m\x1b[0;35m█\x1b[0m"@,
        Color::DarkCyan => "\x1b[0;36m█\x1b[0m\x1b[0;36m█\x1b[0m"@,
        Color::DarkWhite => "\x1b[0;37m█\x1b[0m\x1b[0;37m█\x1b[0m"@,
        Color::BrightBlack => "\x1b[0;90m█\x1b[0m\x1b[0;90m█\x1b[0m"@,
        Color::BrightRed => "\x1b[0;91m█\x1b[0m\x1b[0;91m█\x1b[0m"@,
        Color::BrightGreen => "\x1b[0;92m█\x1b[0m\x1b[0;92m█\x1b[0m"@,
        Color::BrightYellow => "\x1b[0;93m█\x1b[0m\x1b[0;93m█\x1b[0m"@,
        Color::BrightBlue => "\x1b[0;94m█\x1b[0m\x1b[0;94m█\x1b[0m"@,
        Color::BrightMagenta => "\x1b[0;95m█\x1b[0m\x1b[0;95m█\x1b[0m"@,
        Color::BrightCyan => "\x1b[0;96m█\x1b[0m\x1b[0;96m█\x1b[0m"@,
        Color::White => "\x1b[0;97m█\x1b[0m\x1b[0;97m█\x1b[0m"@,
        Color::Transparent => "  "@,
    }
}

/// The colour of a small code; larger codes are transparent.
pub open spec fn color_of_code(n: u8) -> Color {
    if n == 0 {
        Color::DarkWhite
    } else if n == 1 {
        Color::White
    } else if n == 2 {
        Color::BrightBlack
    } else if n == 3 {
        Color::BrightCyan
    } else if n == 4 {
        Color::BrightYellow
    } else if n == 5 {
        Color::DarkMagenta
    } else if n == 6 {
        Color::DarkRed
    } else if n == 7 {
        Color::BrightBlue
    } else if n == 8 {
        Color::DarkBlue
    } else if n == 9 {
        Color::DarkYellow
    } else if n == 10 {
        Color::BrightGreen
    } else if n == 11 {
        Color::BrightMagenta
    } else if n == 12 {
        Color::Black
    } else {
        Color::Transparent
    }
}

/// The colour that shows a status.
pub open spec fn color_of_status(s: Status) -> Color {
    match s {
        Status::Unassigned => Color::DarkWhite,
        Status::Void => Color::White,
        Status::Solid => Color::BrightBlack,
        Status::PixelImpossible => Color::BrightCyan,
        Status::PixelExisting => Color::BrightYellow,
        Status::PixelPossible => Color::DarkMagenta,
        Status::PixelRequired => Color::DarkRed,
        Status::TouchRequired => Color::BrightBlue,
        Status::TouchInvalid => Color::DarkBlue,
        Status::TouchExisting => Color::DarkYellow,
        Status::TouchValid => Color::BrightGreen,
        Status::TouchFree => Color::BrightMagenta,
        Status::TouchResolving => Color::Black,
        Status::Unknown => Color::Transparent,
    }
}

impl Color {
    pub fn to_string(&self) -> (r: String)
        ensures
            r@ == color_text(*self),
    {
        let s = match self {
            Color::Black => "\x1b[0;40m█\x1b[0m\x1b[0;40m█\x1b[0m",
            Color::DarkRed => "\x1b[0;31m█\x1b[0m\x1b[0;31m█\x1b[0m",
            Color::DarkGreen => "\x1b[0;32m█\x1b[0m\x1b[0;32m█\x1b[0m",
            Color::DarkYellow => "\x1b[0;33m█\x1b[0m\x1b[0;33m█\x1b[0m",
            Color::DarkBlue => "\x1b[0;34m█\x1b[0m\x1b[0;34m█\x1b[0m",
            Color::DarkMagenta => "\x1b[0;35m█\x1b[0m\x1b[0;35m█\x1b[0m",
            Color::DarkCyan => "\x1b[0;36m█\x1b[0m\x1b[0;36m█\x1b[0m",
            Color::DarkWhite => "\x1b[0;37m█\x1b[0m\x1b[0;37m█\x1b[0m",
            Color::BrightBlack => "\x1b[0;90m█\x1b[0m\x1b[0;90m█\x1b[0m",
            Color::BrightRed => "\x1b[0;91m█\x1b[0m\x1b[0;91m█\x1b[0m",
            Color::BrightGreen => "\x1b[0;92m█\x1b[0m\x1b[0;92m█\x1b[0m",
            Color::BrightYellow => "\x1b[0;93m█\x1b[0m\x1b[0;93m█\x1b[0m",
            Color::BrightBlue => "\x1b[0;94m█\x1b[0m\x1b[0;94m█\x1b[0m",
            Color::BrightMagenta => "\x1b[0;95m█\x1b[0m\x1b[0;95m█\x1b[0m",
            Color::BrightCyan => "\x1b[0;96m█\x1b[0m\x1b[0;96m█\x1b[0m",
            Color::White => "\x1b[0;97m█\x1b[0m\x1b[0;97m█\x1b[0m",
            Color::Transparent => "  ",
        };
        String::from_str(s)
    }

    pub fn from_u8(u: u8) -> (r: Color)
        ensures
            r == color_of_code(u),
    {
        match u {
            0 => Color::DarkWhite,
            1 => Color::White,
            2 => Color::BrightBlack,
            3 => Color::BrightCyan,
            4 => Color::BrightYellow,
            5 => Color::DarkMagenta,
            6 => Color::DarkRed,
            7 => Color::BrightBlue,
            8 => Color::DarkBlue,
            9 => Color::DarkYellow,
            10 => Color::BrightGreen,
            11 => Color::BrightMagenta,
            12 => Color::Black,
            _ => Color::Transparent,
        }
    }

    pub fn from_status(status: &Status) -> (r: Color)
        ensures
            r == color_of_status(*status),
    {
        match status {
            Status::Unassigned => Color::DarkWhite,
            Status::Void => Color::White,
            Status::Solid => Color::BrightBlack,
            Status::PixelImpossible => Color::BrightCyan,
            Status::PixelExisting => Color::BrightYellow,
            Status::PixelPossible => Color::DarkMagenta,
            Status::PixelRequired => Color::DarkRed,
            Status::TouchRequired => Color::BrightBlue,
            Status::TouchInvalid => Color::DarkBlue,
            Status::TouchExisting => Color::DarkYellow,
            Status::TouchValid => Color::BrightGreen,
            Status::TouchFree => Color::BrightMagenta,
            Status::TouchResolving => Color::Black,
            Status::Unknown => Color::Transparent,
        }
    }
}


/// The colours as terminal text, `n` to a row, each row ended by a newline.
pub open spec fn rendered(colors: Seq<Color>, n: int) -> Seq<char>
    decreases colors.len(),
{
    if colors.len() == 0 {
        seq![]
    } else {
        let k = colors.len() - 1;
        let s = rendered(colors.drop_last(), n) + color_text(colors.last());
        if k % n == n - 1 {
            s + seq!['\n']
        } else {
            s
        }
    }
}

/// The colours as terminal text, `n` to a row.
pub fn render(n: usize, colors: &Vec<Color>) -> (r: String)
    requires
        n > 0 || colors@.len() == 0,
    ensures
        r@ == rendered(colors@, n as int),
{
    let mut s = String::new();
    let mut i: usize = 0;
    while i < colors.len()
        invariant
            n > 0 || colors@.len() == 0,
            i <= colors@.len(),
            s@ == rendered(colors@.take(i as int), n as int),
        decreases colors@.len() - i,
    {
        proof {
            assert(colors@.take(i + 1).drop_last() =~= colors@.take(i as int));
            assert(colors@.take(i + 1).last() == colors@[i as int]);
        }
        let block = colors[i].to_string();
        s.append(block.as_str());
        if i % n == n - 1 {
            s.append("\n");
            proof {
                reveal_strlit("\n");
            }
        }
        i = i + 1;
    }
    assert(colors@.take(i as int) =~= colors@);
    s
}

/// White for a set bit, bright black for a clear one.
pub open spec fn mask_color(b: bool) -> Color {
    if b {
        Color::White
    } else {
        Color::BrightBlack
    }
}

/// A bitmap with `shape.1` columns, as terminal text.
pub fn visualize_mask(shape: (usize, usize), mask: &Vec<bool>) -> (r: String)
    requires
        shape.1 > 0,
    ensures
        r@ == rendered(mask@.map_values(|b: bool| mask_color(b)), shape.1 as int),
{
    let mut colors: Vec<Color> = Vec::new();
    let mut k: usize = 0;
    while k < mask.len()
        invariant
            k <= mask@.len(),
            colors@ == mask@.take(k as int).map_values(|b: bool| mask_color(b)),
        decreases mask@.len() - k,
    {
        colors.push(if mask[k] { Color::White } else { Color::BrightBlack });
        k = k + 1;
        assert(colors@ =~= mask@.take(k as int).map_values(|b: bool| mask_color(b)));
    }
    assert(mask@.take(k as int) =~= mask@);
    render(shape.1, &colors)
}

/// A plane of status codes with `shape.1` columns, as terminal text.
pub fn visualize_u8_array(shape: (usize, usize), array: &Vec<u8>) -> (r: String)
    requires
        shape.1 > 0,
    ensures
        r@ == rendered(array@.map_values(|u: u8| color_of_code(u)), shape.1 as int),
{
    let mut colors: Vec<Color> = Vec::new();
    let mut k: usize = 0;
    while k < array.len()
        invariant
            k <= array@.len(),
            colors@ == array@.take(k as int).map_values(|u: u8| color_of_code(u)),
        decreases array@.len() - k,
    {
        colors.push(Color::from_u8(array[k]));
        k = k + 1;
        assert(colors@ =~= array@.take(k as int).map_values(|u: u8| color_of_code(u)));
    }
    assert(array@.take(k as int) =~= array@);
    render(shape.1, &colors)
}

/// A status plane with `shape.1` columns, as terminal text.
pub fn visualize_status_array(shape: (usize, usize), statuses: &Vec<Status>) -> (r: String)
    requires
        shape.1 > 0,
    ensures
        r@ == rendered(statuses@.map_values(|s: Status| color_of_status(s)), shape.1 as int),
{
    let mut colors: Vec<Color> = Vec::new();
    let mut k: usize = 0;
    while k < statuses.len()
        invariant
            k <= statuses@.len(),
            colors@ == statuses@.take(k as int).map_values(|s: Status| color_of_status(s)),
        decreases statuses@.len() - k,
    {
        colors.push(Color::from_status(&statuses[k]));
        k = k + 1;
        assert(colors@ =~= statuses@.take(k as int).map_values(|s: Status| color_of_status(s)));
    }
    assert(statuses@.take(k as int) =~= statuses@);
    render(shape.1, &colors)
}

/// Planes of shape `(m, n)` laid side by side in one plane of `m` rows and
/// `planes.len() · (n + gap)` columns, each plane followed by `gap` columns
/// of `filler`.
pub open spec fn side_by_side<T>(planes: Seq<Seq<T>>, m: int, n: int, gap: int, filler: T) -> Seq<T> {
    let width = planes.len() * (n + gap);
    Seq::new(
        (m * width) as nat,
        |k: int|
            {
                let j_ = k % width;
                let p = j_ / (n + gap);
                let j = j_ % (n + gap);
                if j < n {
                    planes[p][(k / width) * n + j]
                } else {
                    filler
                }
            },
    )
}

/// Lays the planes side by side (see `side_by_side`).
fn lay_out<T: Copy>(shape: (usize, usize), planes: &Vec<Vec<T>>, gap: usize, filler: T) -> (r: Vec<T>)
    requires
        gap <= 1,
        1 <= shape.1 + gap <= usize::MAX,
        planes@.len() * (shape.1 + gap) <= usize::MAX,
        planes@.len() * (shape.1 + gap) * shape.0 <= usize::MAX,
        area(shape) <= usize::MAX,
        forall|p: int| 0 <= p < planes@.len() ==> (#[trigger] planes@[p])@.len() == area(shape),
    ensures
        r@ == side_by_side(planes@.map_values(|v: Vec<T>| v@), shape.0 as int, shape.1 as int, gap as int, filler),
{
    let (m, n) = shape;
    let l = planes.len();
    let n_ = l * (n + gap);
    let ghost full = side_by_side(planes@.map_values(|v: Vec<T>| v@), m as int, n as int, gap as int, filler);
    let mut r: Vec<T> = Vec::new();
    let mut i: usize = 0;
    while i < m
        invariant
            shape == (m, n),
            gap <= 1,
            1 <= n + gap <= usize::MAX,
            l == planes@.len(),
            n_ == l * (n + gap),
            n_ * m <= usize::MAX,
            forall|p: int| 0 <= p < planes@.len() ==> (#[trigger] planes@[p])@.len() == area(shape),
            full == side_by_side(planes@.map_values(|v: Vec<T>| v@), m as int, n as int, gap as int, filler),
            i <= m,
            area(shape) <= usize::MAX,
            r@ == full.take(i * n_),
        decreases m - i,
    {
        let mut j_: usize = 0;
        while j_ < n_
            invariant
                shape == (m, n),
                gap <= 1,
                1 <= n + gap <= usize::MAX,
                l == planes@.len(),
                n_ == l * (n + gap),
                n_ * m <= usize::MAX,
                forall|p: int| 0 <= p < planes@.len() ==> (#[trigger] planes@[p])@.len() == area(shape),
                full == side_by_side(planes@.map_values(|v: Vec<T>| v@), m as int, n as int, gap as int, filler),
                i < m,
                j_ <= n_,
                area(shape) <= usize::MAX,
                r@ == full.take(i * n_ + j_),
            decreases n_ - j_,
        {
            let p = j_ / (n + gap);
            let j = j_ % (n + gap);
            proof {
                crate::brushes::lemma_square_at(m as int, n_ as int, 0, 0, i as int, j_ as int);
                vstd::arithmetic::div_mod::lemma_fundamental_div_mod_converse(i * n_ + j_, n_ as int, i as int, j_ as int);
                let d = (n + gap) as int;
                let q = (j_ as int) / d;
                let rem = (j_ as int) % d;
                vstd::arithmetic::div_mod::lemma_fundamental_div_mod(j_ as int, d);
                vstd::arithmetic::div_mod::lemma_mod_pos_bound(j_ as int, d);
                assert(q < l) by (nonlinear_arith)
                    requires
                        j_ == d * q + rem,
                        0 <= rem,
                        j_ < l * d,
                        d >= 1,
                ;
            }
            let b = if j < n {
                proof {
                    crate::grid::lemma_lin_bounds(i as int, j as int, shape);
                }
                planes[p][flat_index((i, j), shape)]
            } else {
                filler
            };
            proof {
                assert(full.take(i * n_ + j_ + 1) =~= full.take(i * n_ + j_).push(full[i * n_ + j_]));
            }
            r.push(b);
            j_ = j_ + 1;
        }
        proof {
            crate::brushes::lemma_next_row(i as int, n_ as int);
        }
        i = i + 1;
    }
    proof {
        assert(full.len() == m * n_);
        assert(full.take(i * n_) =~= full);
    }
    r
}


/// Bitmaps of one shape, side by side, as terminal text.
pub fn visualize_masks(shape: (usize, usize), masks: &Vec<Vec<bool>>) -> (r: String)
    requires
        shape.1 > 0,
        masks@.len() * shape.1 <= usize::MAX,
        masks@.len() * shape.1 * shape.0 <= usize::MAX,
        area(shape) <= usize::MAX,
        forall|p: int| 0 <= p < masks@.len() ==> (#[trigger] masks@[p])@.len() == area(shape),
    ensures
        r@ == rendered(
            side_by_side(masks@.map_values(|v: Vec<bool>| v@), shape.0 as int, shape.1 as int, 0, false).map_values(
                |b: bool| mask_color(b),
            ),
            masks@.len() * shape.1,
        ),
{
    let full = lay_out(shape, masks, 0, false);
    let n_ = masks.len() * shape.1;
    let mut colors: Vec<Color> = Vec::new();
    let mut k: usize = 0;
    while k < full.len()
        invariant
            k <= full@.len(),
            colors@ == full@.take(k as int).map_values(|b: bool| mask_color(b)),
        decreases full@.len() - k,
    {
        colors.push(if full[k] { Color::White } else { Color::BrightBlack });
        k = k + 1;
        assert(colors@ =~= full@.take(k as int).map_values(|b: bool| mask_color(b)));
    }
    assert(full@.take(k as int) =~= full@);
    proof {
        if masks@.len() > 0 {
            assert(masks@.len() * shape.1 >= shape.1) by (nonlinear_arith)
                requires
                    masks@.len() >= 1,
            ;
        } else {
            assert(masks@.map_values(|v: Vec<bool>| v@).len() == 0);
            assert(shape.0 * 0 == 0);
        }
    }
    render(n_, &colors)
}

/// Status planes of one shape, side by side with a blank column after each,
/// as terminal text.
pub fn visualize_status_arrays(shape: (usize, usize), arrays: &Vec<Vec<Status>>) -> (r: String)
    requires
        shape.1 < usize::MAX,
        arrays@.len() * (shape.1 + 1) <= usize::MAX,
        arrays@.len() * (shape.1 + 1) * shape.0 <= usize::MAX,
        area(shape) <= usize::MAX,
        forall|p: int| 0 <= p < arrays@.len() ==> (#[trigger] arrays@[p])@.len() == area(shape),
    ensures
        r@ == rendered(
            side_by_side(arrays@.map_values(|v: Vec<Status>| v@), shape.0 as int, shape.1 as int, 1, Status::Unknown).map_values(
                |s: Status| color_of_status(s),
            ),
            arrays@.len() * (shape.1 + 1),
        ),
{
    let full = lay_out(shape, arrays, 1, Status::Unknown);
    let n_ = arrays.len() * (shape.1 + 1);
    let mut colors: Vec<Color> = Vec::new();
    let mut k: usize = 0;
    while k < full.len()
        invariant
            k <= full@.len(),
            colors@ == full@.take(k as int).map_values(|s: Status| color_of_status(s)),
        decreases full@.len() - k,
    {
        colors.push(Color::from_status(&full[k]));
        k = k + 1;
        assert(colors@ =~= full@.take(k as int).map_values(|s: Status| color_of_status(s)));
    }
    assert(full@.take(k as int) =~= full@);
    proof {
        if arrays@.len() > 0 {
            assert(arrays@.len() * (shape.1 + 1) >= shape.1 + 1) by (nonlinear_arith)
                requires
                    arrays@.len() >= 1,
            ;
        } else {
            assert(arrays@.map_values(|v: Vec<Status>| v@).len() == 0);
            assert(shape.0 * 0 == 0);
        }
    }
    render(n_, &colors)
}

impl Brush {
    /// The brush's mask as terminal text.
    pub fn visualize(&self) -> (r: String)
        requires
            self.shape.0 <= MAX_SIDE,
            self.shape.1 <= MAX_SIDE,
            self.shape.1 > 0,
        ensures
            r@ == rendered(
                paint(
                    Seq::new(area(self.shape) as nat, |k: int| false),
                    self.brush@,
                    (self.shape.0 / 2, self.shape.1 / 2),
                    self.shape,
                    true,
                ).map_values(|b: bool| mask_color(b)),
                self.shape.1 as int,
            ),
    {
        let mask = self.mask();
        visualize_mask(self.shape, &mask)
    }
}

impl Design {
    /// The design's five status views side by side, as terminal text.
    pub fn visualize(&self) -> (r: String)
        requires
            self.wf(),
            5 * (self.shape.1 + 1) <= usize::MAX,
            5 * (self.shape.1 + 1) * self.shape.0 <= usize::MAX,
        ensures
            r@ == rendered(
                side_by_side(self.status_views(), self.shape.0 as int, self.shape.1 as int, 1, Status::Unknown).map_values(
                    |s: Status| color_of_status(s),
                ),
                5 * (self.shape.1 + 1),
            ),
    {
        let mut views: Vec<Vec<Status>> = Vec::new();
        views.push(self.design_view());
        views.push(self.void_pixel_view());
        views.push(self.solid_pixel_view());
        views.push(self.void_touches_view());
        views.push(self.solid_touches_view());
        assert(views@.map_values(|v: Vec<Status>| v@) =~= self.status_views());
        visualize_status_arrays(self.shape, &views)
    }
}

} // verus!


