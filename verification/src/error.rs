//! Error type of the crate.

use vstd::prelude::*;
use vstd::string::StringExecFns;

verus! {

/// Errors returned by rotational quantization operations.
#[derive(Debug, Clone, PartialEq, Eq)]
pub enum Error {
    /// A code passed to a distance routine did not have the dimension this
    /// quantizer produces.
    DimensionMismatch {
        /// Dimension expected by the quantizer (the rotation's output dimension).
        /// Parsing a flat code without a quantizer knows no such dimension: it
        /// gives the number of metadata bytes instead.
        expected: usize,
        /// Dimension actually found in the supplied code, zero where that is too
        /// short for the metadata. Parsing a flat code without a quantizer gives
        /// the number of bytes instead.
        actual: usize,
    },
    /// The requested bit width is not supported.
    UnsupportedBits(u32),
}

/// Convenience alias used throughout the crate.
pub type Result<T> = core::result::Result<T, Error>;

/// The character of a decimal digit.
pub open spec fn digit_char(d: nat) -> char {
    (('0' as u8) + d) as char
}

/// The decimal notation of `n`, without leading zeros.
pub open spec fn decimal(n: nat) -> Seq<char>
    decreases n,
{
    if n < 10 {
        seq![digit_char(n)]
    } else {
        decimal(n / 10).push(digit_char(n % 10))
    }
}

/// The number that decimal digits stand for.
pub open spec fn decimal_value(text: Seq<char>) -> nat
    decreases text.len(),
{
    if text.len() == 0 {
        0
    } else {
        10 * decimal_value(text.drop_last()) + (text.last() as nat - '0' as nat) as nat
    }
}

/// The decimal notation of a number stands for the number, consists of digits,
/// and starts with a zero only for zero.
pub proof fn law_decimal(n: nat)
    ensures
        decimal(n).len() > 0,
        decimal_value(decimal(n)) == n,
        forall|k: int| 0 <= k < decimal(n).len() ==> '0' <= #[trigger] decimal(n)[k] <= '9',
        decimal(n)[0] == '0' ==> n == 0,
    decreases n,
{
    let text = decimal(n);
    if n < 10 {
        assert(text.drop_last() =~= Seq::<char>::empty());
        assert(decimal_value(text.drop_last()) == 0);
    } else {
        let rest = decimal(n / 10);
        law_decimal(n / 10);
        assert(text.drop_last() =~= rest);
        assert(text[0] == rest[0]);
        assert forall|k: int| 0 <= k < text.len() implies '0' <= #[trigger] text[k] <= '9' by {
            if k < rest.len() {
                assert(text[k] == rest[k]);
            }
        }
    }
}

impl Error {
    /// The text of the message.
    pub open spec fn text(self) -> Seq<char> {
        match self {
            Error::DimensionMismatch { expected, actual } => {
                "code dimensions don't match: expected "@ + decimal(expected as nat) + ", got "@
                    + decimal(actual as nat)
            },
            Error::UnsupportedBits(bits) => {
                "unsupported bit width: "@ + decimal(bits as nat) + " (only 8-bit is implemented)"@
            },
        }
    }

    /// The message for a reader.
    pub fn message(&self) -> (text: String)
        ensures
            text@ == self.text(),
    {
        match self {
            Error::DimensionMismatch { expected, actual } => {
                let mut out: String = String::from_str("code dimensions don't match: expected ");
                push_decimal(&mut out, *expected as u64);
                out.append(", got ");
                push_decimal(&mut out, *actual as u64);
                out
            },
            Error::UnsupportedBits(bits) => {
                let mut out: String = String::from_str("unsupported bit width: ");
                push_decimal(&mut out, *bits as u64);
                out.append(" (only 8-bit is implemented)");
                out
            },
        }
    }
}

/// A message holds the numbers of the error in decimal notation.
pub proof fn law_message(expected: usize, actual: usize, bits: u32)
    ensures
        exists|a: Seq<char>, b: Seq<char>|
            #![trigger decimal_value(a), decimal_value(b)]
            {
                &&& decimal_value(a) == expected && decimal_value(b) == actual
                &&& (Error::DimensionMismatch { expected, actual }).text()
                    == "code dimensions don't match: expected "@ + a + ", got "@ + b
            },
        exists|a: Seq<char>|
            #![trigger decimal_value(a)]
            {
                &&& decimal_value(a) == bits
                &&& Error::UnsupportedBits(bits).text() == "unsupported bit width: "@ + a
                    + " (only 8-bit is implemented)"@
            },
{
    law_decimal(expected as nat);
    law_decimal(actual as nat);
    law_decimal(bits as nat);
}

/// A decimal digit as text.
fn digit_text(d: u64) -> (text: &'static str)
    requires
        d < 10,
    ensures
        text@ == seq![digit_char(d as nat)],
{
    let text: &'static str = match d {
        0 => {
            proof {
                reveal_strlit("0");
            }
            "0"
        },
        1 => {
            proof {
                reveal_strlit("1");
            }
            "1"
        },
        2 => {
            proof {
                reveal_strlit("2");
            }
            "2"
        },
        3 => {
            proof {
                reveal_strlit("3");
            }
            "3"
        },
        4 => {
            proof {
                reveal_strlit("4");
            }
            "4"
        },
        5 => {
            proof {
                reveal_strlit("5");
            }
            "5"
        },
        6 => {
            proof {
                reveal_strlit("6");
            }
            "6"
        },
        7 => {
            proof {
                reveal_strlit("7");
            }
            "7"
        },
        8 => {
            proof {
                reveal_strlit("8");
            }
            "8"
        },
        _ => {
            proof {
                reveal_strlit("9");
            }
            "9"
        },
    };
    assert(text@ =~= seq![digit_char(d as nat)]);
    text
}

/// Appends the decimal notation of `n`.
fn push_decimal(out: &mut String, n: u64)
    ensures
        final(out)@ == old(out)@ + decimal(n as nat),
    decreases n,
{
    let ghost before = out@;
    if n >= 10 {
        push_decimal(out, n / 10);
    }
    out.append(digit_text(n % 10));
    assert(out@ =~= before + decimal(n as nat));
}

} // verus!
