//! Status planes derived from a design's raw bits.
use vstd::prelude::*;
use crate::design::Design;
use crate::status::Status;

verus! {

/// Void before solid; a pixel painted neither way is unassigned.
pub open spec fn design_status(v: bool, s: bool) -> Status {
    if v {
        Status::Void
    } else if s {
        Status::Solid
    } else {
        Status::Unassigned
    }
}

/// Required before existing before impossible; otherwise still possible.
pub open spec fn pixel_status(impossible: bool, existing: bool, required: bool) -> Status {
    if required {
        Status::PixelRequired
    } else if existing {
        Status::PixelExisting
    } else if impossible {
        Status::PixelImpossible
    } else {
        Status::PixelPossible
    }
}

/// Existing before required before invalid; otherwise still valid.
pub open spec fn touch_status(required: bool, invalid: bool, existing: bool) -> Status {
    if existing {
        Status::TouchExisting
    } else if required {
        Status::TouchRequired
    } else if invalid {
        Status::TouchInvalid
    } else {
        Status::TouchValid
    }
}

fn pixel_statuses(impossible: &Vec<bool>, existing: &Vec<bool>, required: &Vec<bool>) -> (r: Vec<Status>)
    requires
        impossible@.len() == existing@.len(),
        required@.len() == existing@.len(),
    ensures
        r@ == Seq::new(existing@.len(), |k: int| pixel_status(impossible@[k], existing@[k], required@[k])),
{
    let mut r: Vec<Status> = Vec::new();
    let mut k: usize = 0;
    while k < existing.len()
        invariant
            k <= existing@.len(),
            impossible@.len() == existing@.len(),
            required@.len() == existing@.len(),
            r@ == Seq::new(k as nat, |q: int| pixel_status(impossible@[q], existing@[q], required@[q])),
        decreases existing@.len() - k,
    {
        let s = if required[k] {
            Status::PixelRequired
        } else if existing[k] {
            Status::PixelExisting
        } else if impossible[k] {
            Status::PixelImpossible
        } else {
            Status::PixelPossible
        };
        r.push(s);
        k = k + 1;
        assert(r@ =~= Seq::new(k as nat, |q: int| pixel_status(impossible@[q], existing@[q], required@[q])));
    }
    r
}

fn touch_statuses(required: &Vec<bool>, invalid: &Vec<bool>, existing: &Vec<bool>) -> (r: Vec<Status>)
    requires
        invalid@.len() == existing@.len(),
        required@.len() == existing@.len(),
    ensures
        r@ == Seq::new(existing@.len(), |k: int| touch_status(required@[k], invalid@[k], existing@[k])),
{
    let mut r: Vec<Status> = Vec::new();
    let mut k: usize = 0;
    while k < existing.len()
        invariant
            k <= existing@.len(),
            invalid@.len() == existing@.len(),
            required@.len() == existing@.len(),
            r@ == Seq::new(k as nat, |q: int| touch_status(required@[q], invalid@[q], existing@[q])),
        decreases existing@.len() - k,
    {
        let s = if existing[k] {
            Status::TouchExisting
        } else if required[k] {
            Status::TouchRequired
        } else if invalid[k] {
            Status::TouchInvalid
        } else {
            Status::TouchValid
        };
        r.push(s);
        k = k + 1;
        assert(r@ =~= Seq::new(k as nat, |q: int| touch_status(required@[q], invalid@[q], existing@[q])));
    }
    r
}

impl Design {
    pub open spec fn design_view_spec(&self) -> Seq<Status> {
        Seq::new(self.void@.len(), |k: int| design_status(self.void@[k], self.solid@[k]))
    }

    pub open spec fn void_pixel_view_spec(&self) -> Seq<Status> {
        Seq::new(
            self.void@.len(),
            |k: int| pixel_status(self.void_pixel_impossible@[k], self.void_pixel_existing@[k], self.void_pixel_required@[k]),
        )
    }

    pub open spec fn solid_pixel_view_spec(&self) -> Seq<Status> {
        Seq::new(
            self.void@.len(),
            |k: int| pixel_status(self.solid_pixel_impossible@[k], self.solid_pixel_existing@[k], self.solid_pixel_required@[k]),
        )
    }

    pub open spec fn void_touches_view_spec(&self) -> Seq<Status> {
        Seq::new(
            self.void@.len(),
            |k: int| touch_status(self.void_touch_required@[k], self.void_touch_invalid@[k], self.void_touch_existing@[k]),
        )
    }

    pub open spec fn solid_touches_view_spec(&self) -> Seq<Status> {
        Seq::new(
            self.void@.len(),
            |k: int| touch_status(self.solid_touch_required@[k], self.solid_touch_invalid@[k], self.solid_touch_existing@[k]),
        )
    }

    /// The five views, in display order.
    pub open spec fn status_views(&self) -> Seq<Seq<Status>> {
        seq![
            self.design_view_spec(),
            self.void_pixel_view_spec(),
            self.solid_pixel_view_spec(),
            self.void_touches_view_spec(),
            self.solid_touches_view_spec(),
        ]
    }

    /// Per pixel: void, solid, or unassigned.
    pub fn design_view(&self) -> (r: Vec<Status>)
        requires
            self.planes().sized(self.void@.len() as int),
        ensures
            r@ == self.design_view_spec(),
    {
        let mut r: Vec<Status> = Vec::new();
        let mut k: usize = 0;
        while k < self.void.len()
            invariant
                self.planes().sized(self.void@.len() as int),
                k <= self.void@.len(),
                r@ == Seq::new(k as nat, |q: int| design_status(self.void@[q], self.solid@[q])),
            decreases self.void@.len() - k,
        {
            let s = if self.void[k] {
                Status::Void
            } else if self.solid[k] {
                Status::Solid
            } else {
                Status::Unassigned
            };
            r.push(s);
            k = k + 1;
            assert(r@ =~= Seq::new(k as nat, |q: int| design_status(self.void@[q], self.solid@[q])));
        }
        r
    }

    /// Per pixel, the void polarity's pixel status.
    pub fn void_pixel_view(&self) -> (r: Vec<Status>)
        requires
            self.planes().sized(self.void@.len() as int),
        ensures
            r@ == self.void_pixel_view_spec(),
    {
        pixel_statuses(&self.void_pixel_impossible, &self.void_pixel_existing, &self.void_pixel_required)
    }

    /// Per pixel, the solid polarity's pixel status.
    pub fn solid_pixel_view(&self) -> (r: Vec<Status>)
        requires
            self.planes().sized(self.void@.len() as int),
        ensures
            r@ == self.solid_pixel_view_spec(),
    {
        pixel_statuses(&self.solid_pixel_impossible, &self.solid_pixel_existing, &self.solid_pixel_required)
    }

    /// Per touch centre, the void polarity's touch status.
    pub fn void_touches_view(&self) -> (r: Vec<Status>)
        requires
            self.planes().sized(self.void@.len() as int),
        ensures
            r@ == self.void_touches_view_spec(),
    {
        touch_statuses(&self.void_touch_required, &self.void_touch_invalid, &self.void_touch_existing)
    }

    /// Per touch centre, the solid polarity's touch status.
    pub fn solid_touches_view(&self) -> (r: Vec<Status>)
        requires
            self.planes().sized(self.void@.len() as int),
        ensures
            r@ == self.solid_touches_view_spec(),
    {
        touch_statuses(&self.solid_touch_required, &self.solid_touch_invalid, &self.solid_touch_existing)
    }
}

} // verus!
