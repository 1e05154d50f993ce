//! The human-readable status of a pixel or a touch centre.
use vstd::prelude::*;
use vstd::string::StringExecFns;

verus! {

#[derive(Clone, Copy, Debug, PartialEq, Eq, Structural)]
pub enum Status {
    Unassigned,
    Void,
    Solid,
    PixelImpossible,
    PixelExisting,
    PixelPossible,
    PixelRequired,
    TouchRequired,
    TouchInvalid,
    TouchExisting,
    TouchValid,
    TouchFree,
    TouchResolving,
    Unknown,
}

/// The status with code `n`; codes past the last status read as `Unknown`.
pub open spec fn status_of_code(n: u8) -> Status {
    if n == 0 {
        Status::Unassigned
    } else if n == 1 {
        Status::Void
    } else if n == 2 {
        Status::Solid
    } else if n == 3 {
        Status::PixelImpossible
    } else if n == 4 {
        Status::PixelExisting
    } else if n == 5 {
        Status::PixelPossible
    } else if n == 6 {
        Status::PixelRequired
    } else if n == 7 {
        Status::TouchRequired
    } else if n == 8 {
        Status::TouchInvalid
    } else if n == 9 {
        Status::TouchExisting
    } else if n == 10 {
        Status::TouchValid
    } else if n == 11 {
        Status::TouchFree
    } else if n == 12 {
        Status::TouchResolving
    } else {
        Status::Unknown
    }
}

/// The two-character label of a status.
pub open spec fn status_label(s: Status) -> Seq<char> {
    match s {
        Status::Unassigned => " U"@,
        Status::Void => " V"@,
        Status::Solid => " S"@,
        Status::PixelImpossible => "PI"@,
        Status::PixelExisting => "PE"@,
        Status::PixelPossible => "PP"@,
        Status::PixelRequired => "PR"@,
        Status::TouchRequired => "TR"@,
        Status::TouchInvalid => "TI"@,
        Status::TouchExisting => "TE"@,
        Status::TouchValid => "TV"@,
        Status::TouchFree => "TF"@,
        Status::TouchResolving => "Tr"@,
        Status::Unknown => "  "@,
    }
}

impl From<u8> for Status {
    fn from(n: u8) -> (r: Status)
        ensures
            r == status_of_code(n),
    {
        match n {
            0 => Status::Unassigned,
            1 => Status::Void,
            2 => Status::Solid,
            3 => Status::PixelImpossible,
            4 => Status::PixelExisting,
            5 => Status::PixelPossible,
            6 => Status::PixelRequired,
            7 => Status::TouchRequired,
            8 => Status::TouchInvalid,
            9 => Status::TouchExisting,
            10 => Status::TouchValid,
            11 => Status::TouchFree,
            12 => Status::TouchResolving,
            _ => Status::Unknown,
        }
    }
}

impl vstd::std_specs::convert::FromSpecImpl<u8> for Status {
    open spec fn obeys_from_spec() -> bool {
        true
    }

    open spec fn from_spec(n: u8) -> Status {
        status_of_code(n)
    }
}

impl Status {
    /// The status's two-character label.
    pub fn label(&self) -> (r: String)
        ensures
            r@ == status_label(*self),
    {
        let s = match self {
            Status::Unassigned => " U",
            Status::Void => " V",
            Status::Solid => " S",
            Status::PixelImpossible => "PI",
            Status::PixelExisting => "PE",
            Status::PixelPossible => "PP",
            Status::PixelRequired => "PR",
            Status::TouchRequired => "TR",
            Status::TouchInvalid => "TI",
            Status::TouchExisting => "TE",
            Status::TouchValid => "TV",
            Status::TouchFree => "TF",
            Status::TouchResolving => "Tr",
            Status::Unknown => "  ",
        };
        String::from_str(s)
    }
}

/// The status of each byte, by its code.
pub fn parse_status(bts: &Vec<u8>) -> (array: Vec<Status>)
    ensures
        array@ == bts@.map_values(|b: u8| status_of_code(b)),
{
    let mut array: Vec<Status> = Vec::new();
    let mut k: usize = 0;
    while k < bts.len()
        invariant
            k <= bts@.len(),
            array@ == bts@.take(k as int).map_values(|b: u8| status_of_code(b)),
        decreases bts@.len() - k,
    {
        let s = Status::from(bts[k]);
        array.push(s);
        k = k + 1;
        assert(array@ =~= bts@.take(k as int).map_values(|b: u8| status_of_code(b)));
    }
    assert(bts@.take(k as int) =~= bts@);
    array
}

} // verus!
