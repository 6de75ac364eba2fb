//! The `dimension` type of the Design Tokens Format Module 2025.10.

use vstd::prelude::*;

use crate::number::Binary64;
use crate::text::{chars_of, str_eq, string_of};

verus! {

/// The unit of a dimension: the format allows exactly `px` and `rem`.
#[derive(Debug, Clone, Copy, PartialEq, Eq, Hash, PartialOrd, Ord, Structural)]
pub enum Unit {
    /// CSS pixels.
    Px,
    /// Root em: relative to the root font size.
    Rem,
}

impl Unit {
    /// The identifier the JSON carries in `unit`.
    pub open spec fn spec_id(self) -> Seq<char> {
        match self {
            Unit::Px => "px"@,
            Unit::Rem => "rem"@,
        }
    }

    /// The unit whose identifier is `s`, if any.
    pub open spec fn spec_parse(s: Seq<char>) -> Option<Unit> {
        if s == "px"@ {
            Some(Unit::Px)
        } else if s == "rem"@ {
            Some(Unit::Rem)
        } else {
            None
        }
    }

    /// The identifier the JSON carries in `unit`.
    pub fn as_str(self) -> (r: &'static str)
        ensures
            r@ == self.spec_id(),
    {
        match self {
            Unit::Px => "px",
            Unit::Rem => "rem",
        }
    }

    /// The unit for a `unit` identifier, `None` for anything else (`em`, `%`, `pt`, ...).
    pub fn parse(s: &str) -> (r: Option<Self>)
        ensures
            r == Self::spec_parse(s@),
    {
        if str_eq(s, "px") {
            Some(Unit::Px)
        } else if str_eq(s, "rem") {
            Some(Unit::Rem)
        } else {
            None
        }
    }

    /// The identifier, as text (what `Display` prints).
    pub fn to_string(self) -> (r: String)
        ensures
            r@ == self.spec_id(),
    {
        let cs = chars_of(self.as_str());
        string_of(cs.as_slice())
    }
}

/// Reading a unit's identifier gives the unit back.
pub proof fn lemma_unit_round_trip(u: Unit)
    ensures
        Unit::spec_parse(u.spec_id()) == Some(u),
{
    reveal_strlit("px");
    reveal_strlit("rem");
    assert("rem"@.len() != "px"@.len());
}

/// A distance: the `dimension` type, a number with a unit.
#[derive(Debug, Clone, Copy, PartialEq)]
pub struct Dimension {
    /// The amount.
    pub value: Binary64,
    /// Its unit.
    pub unit: Unit,
}

impl Dimension {
    /// A dimension in CSS pixels.
    pub fn px(value: Binary64) -> (r: Self)
        ensures
            r == (Dimension { value, unit: Unit::Px }),
    {
        Dimension { value, unit: Unit::Px }
    }

    /// A dimension in root ems.
    pub fn rem(value: Binary64) -> (r: Self)
        ensures
            r == (Dimension { value, unit: Unit::Rem }),
    {
        Dimension { value, unit: Unit::Rem }
    }
}

} // verus!
