//! Error taxonomy for tile identifiers.

use vstd::prelude::*;
use vstd::string::{StrSliceExecFns, StringExecFns};

verus! {

/// Error returned when the coordinates of a tile identifier are out of range.
#[derive(Debug, Clone, Copy, PartialEq, Eq, Structural)]
pub enum InvalidTileID {
    /// Invalid X coordinate.
    InvalidX(u32),
    /// Invalid Y coordinate.
    InvalidY(u32),
    /// Invalid Z coordinate.
    InvalidZ(u32),
}

/// The decimal digit character for a value below ten.
pub open spec fn digit_char(d: nat) -> char {
    if d == 0 {
        '0'
    } else if d == 1 {
        '1'
    } else if d == 2 {
        '2'
    } else if d == 3 {
        '3'
    } else if d == 4 {
        '4'
    } else if d == 5 {
        '5'
    } else if d == 6 {
        '6'
    } else if d == 7 {
        '7'
    } else if d == 8 {
        '8'
    } else {
        '9'
    }
}

/// The base-10 rendering of a value: most significant digit first, no sign,
/// no leading zero (except for the value zero itself).
pub open spec fn spec_decimal(v: nat) -> Seq<char>
    decreases v,
{
    if v < 10 {
        seq![digit_char(v)]
    } else {
        spec_decimal(v / 10) + seq![digit_char(v % 10)]
    }
}

/// The error's human-readable description: which coordinate was invalid,
/// and its value in decimal.
pub open spec fn spec_message(e: InvalidTileID) -> Seq<char> {
    match e {
        InvalidTileID::InvalidX(v) => "invalid x coordinate: "@ + spec_decimal(v as nat),
        InvalidTileID::InvalidY(v) => "invalid y coordinate: "@ + spec_decimal(v as nat),
        InvalidTileID::InvalidZ(v) => "invalid z coordinate: "@ + spec_decimal(v as nat),
    }
}

/// The single-digit string for a value below ten.
fn digit_str(d: u32) -> (r: &'static str)
    requires
        d < 10,
    ensures
        r@ == seq![digit_char(d as nat)],
{
    proof {
        reveal_strlit("0");
        reveal_strlit("1");
        reveal_strlit("2");
        reveal_strlit("3");
        reveal_strlit("4");
        reveal_strlit("5");
        reveal_strlit("6");
        reveal_strlit("7");
        reveal_strlit("8");
        reveal_strlit("9");
    }
    let r: &'static str = if d == 0 {
        "0"
    } else if d == 1 {
        "1"
    } else if d == 2 {
        "2"
    } else if d == 3 {
        "3"
    } else if d == 4 {
        "4"
    } else if d == 5 {
        "5"
    } else if d == 6 {
        "6"
    } else if d == 7 {
        "7"
    } else if d == 8 {
        "8"
    } else {
        "9"
    };
    proof {
        assert(r@ =~= seq![digit_char(d as nat)]);
    }
    r
}

/// Renders a value in decimal, most significant digit first.
fn u32_decimal(v: u32) -> (r: String)
    ensures
        r@ == spec_decimal(v as nat),
        r@.len() >= 1,
    decreases v,
{
    if v < 10 {
        let d = digit_str(v);
        let s = String::from_str(d);
        s
    } else {
        let high = u32_decimal(v / 10);
        let low = digit_str(v % 10);
        let r = high.concat(low);
        proof {
            assert(r@ =~= spec_decimal(v as nat));
        }
        r
    }
}

impl InvalidTileID {
    /// Human-readable description of the error: the offending coordinate
    /// and its value.
    pub fn message(&self) -> (r: String)
        ensures
            r@ == spec_message(*self),
            r@.len() > 0,
    {
        let (label, value): (&'static str, u32) = match *self {
            InvalidTileID::InvalidX(v) => ("invalid x coordinate: ", v),
            InvalidTileID::InvalidY(v) => ("invalid y coordinate: ", v),
            InvalidTileID::InvalidZ(v) => ("invalid z coordinate: ", v),
        };
        let mut s = String::from_str(label);
        let digits = u32_decimal(value);
        s.append(digits.as_str());
        s
    }
}

} // verus!
