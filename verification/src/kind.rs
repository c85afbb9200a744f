//! The classification of a transaction as income or expense, and its
//! reading from free text.

use vstd::prelude::*;
use vstd::string::StringSliceAdditionalSpecFns;
use crate::text::{lower_byte, lower_bytes, LOWER_E};

verus! {

/// ASCII code of 'i'.
pub const LOWER_I: u8 = 105;

/// ASCII code of 'n'.
pub const LOWER_N: u8 = 110;

/// ASCII code of 'c'.
pub const LOWER_C: u8 = 99;

/// ASCII code of 'o'.
pub const LOWER_O: u8 = 111;

/// ASCII code of 'm'.
pub const LOWER_M: u8 = 109;

/// Whether a recorded transaction brings money in or sends it out.
#[derive(Clone, Copy, Debug, PartialEq, Eq, Structural)]
pub enum TransactionKind {
    Income,
    Expense,
}

/// The bytes of "income".
pub open spec fn income_bytes() -> Seq<u8> {
    seq![LOWER_I, LOWER_N, LOWER_C, LOWER_O, LOWER_M, LOWER_E]
}

/// The kind named by a piece of text: "income" in any ASCII case is
/// [`TransactionKind::Income`]; every other text, "expense" included, is
/// [`TransactionKind::Expense`].  The lenient fallback to `Expense` for
/// unrecognized text is deliberate.
pub open spec fn kind_from_bytes(s: Seq<u8>) -> TransactionKind {
    if lower_bytes(s) == income_bytes() {
        TransactionKind::Income
    } else {
        TransactionKind::Expense
    }
}

impl TransactionKind {
    /// Reads a kind from free text, case-insensitively; unrecognized text
    /// falls back to `Expense`.
    pub fn from_text(s: &str) -> (r: TransactionKind)
        ensures
            r == kind_from_bytes(s.spec_bytes()),
    {
        let b = s.as_bytes();
        if b.len() == 6 {
            let m = lower_byte(b[0]) == LOWER_I && lower_byte(b[1]) == LOWER_N && lower_byte(b[2])
                == LOWER_C && lower_byte(b[3]) == LOWER_O && lower_byte(b[4]) == LOWER_M
                && lower_byte(b[5]) == LOWER_E;
            proof {
                if m {
                    assert(lower_bytes(b@) =~= income_bytes());
                }
            }
            if m {
                TransactionKind::Income
            } else {
                TransactionKind::Expense
            }
        } else {
            proof {
                assert(lower_bytes(b@).len() != income_bytes().len());
            }
            TransactionKind::Expense
        }
    }

    /// The kind's display name, "Income" or "Expense".
    pub fn as_text(&self) -> (r: String)
        ensures
            *self is Income ==> r@ == "Income"@,
            *self is Expense ==> r@ == "Expense"@,
    {
        match self {
            TransactionKind::Income => "Income".to_owned(),
            TransactionKind::Expense => "Expense".to_owned(),
        }
    }
}

impl<'a> From<&'a str> for TransactionKind {
    /// Same reading as [`TransactionKind::from_text`].
    fn from(s: &'a str) -> (r: TransactionKind) {
        TransactionKind::from_text(s)
    }
}

impl<'a> vstd::std_specs::convert::FromSpecImpl<&'a str> for TransactionKind {
    open spec fn obeys_from_spec() -> bool {
        true
    }

    open spec fn from_spec(s: &'a str) -> TransactionKind {
        kind_from_bytes(s.spec_bytes())
    }
}

} // verus!
