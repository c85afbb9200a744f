//! ASCII case folding and the yes/no answer reader.

use vstd::prelude::*;
use vstd::string::StringSliceAdditionalSpecFns;

verus! {

/// ASCII code of 'A'.
pub const UPPER_A: u8 = 65;

/// ASCII code of 'Z'.
pub const UPPER_Z: u8 = 90;

/// Distance between an ASCII uppercase letter and its lowercase form.
pub const CASE_GAP: u8 = 32;

/// ASCII code of 'y'.
pub const LOWER_Y: u8 = 121;

/// ASCII code of 'e'.
pub const LOWER_E: u8 = 101;

/// ASCII code of 's'.
pub const LOWER_S: u8 = 115;

/// An ASCII uppercase letter folded to lowercase; every other byte is left
/// unchanged.
pub open spec fn lower_byte_spec(b: u8) -> u8 {
    if UPPER_A <= b && b <= UPPER_Z {
        (b + CASE_GAP) as u8
    } else {
        b
    }
}

/// The byte sequence with every ASCII uppercase letter folded to lowercase.
pub open spec fn lower_bytes(s: Seq<u8>) -> Seq<u8> {
    Seq::new(s.len(), |i: int| lower_byte_spec(s[i]))
}

/// The bytes of "yes".
pub open spec fn yes_bytes() -> Seq<u8> {
    seq![LOWER_Y, LOWER_E, LOWER_S]
}

/// The bytes of "y".
pub open spec fn y_bytes() -> Seq<u8> {
    seq![LOWER_Y]
}

/// Whether the text answers yes: "yes" or "y", compared without regard to
/// ASCII case.
pub open spec fn is_yes(s: Seq<u8>) -> bool {
    lower_bytes(s) == yes_bytes() || lower_bytes(s) == y_bytes()
}

/// ASCII case folding of one byte.
pub fn lower_byte(b: u8) -> (r: u8)
    ensures
        r == lower_byte_spec(b),
{
    if UPPER_A <= b && b <= UPPER_Z {
        b + CASE_GAP
    } else {
        b
    }
}

/// Reads a yes/no answer: "yes" or "y" in any ASCII case means true, any
/// other text means false.
pub fn parse_bool(input: &str) -> (r: bool)
    ensures
        r == is_yes(input.spec_bytes()),
{
    let b = input.as_bytes();
    if b.len() == 3 {
        let m = lower_byte(b[0]) == LOWER_Y && lower_byte(b[1]) == LOWER_E && lower_byte(b[2])
            == LOWER_S;
        proof {
            if m {
                assert(lower_bytes(b@) =~= yes_bytes());
            } else {
                assert(lower_bytes(b@) != yes_bytes());
            }
            assert(lower_bytes(b@).len() != y_bytes().len());
        }
        m
    } else if b.len() == 1 {
        let m = lower_byte(b[0]) == LOWER_Y;
        proof {
            if m {
                assert(lower_bytes(b@) =~= y_bytes());
            } else {
                assert(lower_bytes(b@)[0] != y_bytes()[0]);
            }
            assert(lower_bytes(b@).len() != yes_bytes().len());
        }
        m
    } else {
        proof {
            assert(lower_bytes(b@).len() != yes_bytes().len());
            assert(lower_bytes(b@).len() != y_bytes().len());
        }
        false
    }
}

} // verus!
