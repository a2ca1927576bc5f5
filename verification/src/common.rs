//! The error type shared by every reader, and small shared helpers: the
//! bit probe and a decimal renderer for diagnostic text.

use vstd::prelude::*;

verus! {

/// Why a load failed. Any error aborts the whole load; there is no partial
/// result. The payload, where present, is the offending tag value.
#[derive(Clone, Copy, Debug, PartialEq, Eq, Structural)]
pub enum LoadError {
    /// The byte source ran out before the requested bytes were read.
    UnexpectedEnd,
    /// A gamma-encoded integer had all four escape bits and the fifth set.
    MalformedGamma,
    /// A length-prefixed string was not valid UTF-8.
    InvalidUtf8,
    /// A schema entry's low four bits name no known field type.
    UnknownTypeTag(u8),
    /// A scalar field was declared with a tag that has no scalar encoding.
    UnsupportedScalarTag,
    /// A chunk's type byte names no known chunk kind.
    UnknownChunkKind(u8),
    /// A chunk of a known kind for which no length convention is modelled.
    UnimplementedChunkKind(u8),
    /// A structured chunk declared a schema block of length zero.
    ZeroLengthSchemaBlock,
    /// The outer file header names a compression format this crate cannot read.
    UnsupportedFormat,
    /// The compressed payload could not be decompressed.
    DecompressionFailed,
}

/// True iff bit `n` of `input` is set.
///
/// Out-of-range bit positions are rejected by the precondition: asking for a
/// bit beyond the width of the integer is a caller error, never a silent
/// `false`.
pub fn has_bit(input: u64, n: u8) -> (r: bool)
    requires
        n < 64,
    ensures
        r == (input & (1u64 << n) != 0),
        r == (((input >> n) & 1u64) == 1),
{
    proof {
        assert(n < 64 ==> ((input & (1u64 << n) != 0) == (((input >> n) & 1u64) == 1)))
            by (bit_vector);
    }
    input & (1u64 << n) != 0
}

/// The total form of the bit probe: for a bit position beyond the width of
/// the integer it fails visibly instead of silently answering `false`, and
/// the shift is never evaluated out of range.
pub fn has_bit_checked(input: u64, n: u8) -> (r: Option<bool>)
    ensures
        match r {
            Some(b) => n < 64 && b == (input & (1u64 << n) != 0),
            None => n >= 64,
        },
{
    if n < 64 {
        Some(has_bit(input, n))
    } else {
        None
    }
}

/// True iff `suf` is what remains of `s` after consuming some prefix.
pub open spec fn is_suffix_of(suf: Seq<u8>, s: Seq<u8>) -> bool {
    suf.len() <= s.len() && suf =~= s.skip(s.len() - suf.len())
}

pub proof fn lemma_suffix_trans(a: Seq<u8>, b: Seq<u8>, c: Seq<u8>)
    requires
        is_suffix_of(a, b),
        is_suffix_of(b, c),
    ensures
        is_suffix_of(a, c),
{
    assert(a =~= c.skip(c.len() - a.len()));
}

pub proof fn lemma_skip_is_suffix(s: Seq<u8>, n: int)
    requires
        0 <= n <= s.len(),
    ensures
        is_suffix_of(s.skip(n), s),
{
    assert(s.skip(n) =~= s.skip(s.len() - s.skip(n).len()));
}

/// The character for a single decimal digit.
pub open spec fn digit_char(d: nat) -> char {
    if d == 0 {
        '0'
    } else if d == 1 {
        '1'
    } else if d == 2 {
        '2'
    } else if d == 3 {
        '3'
    } else if d == 4 {
        '4'
    } else if d == 5 {
        '5'
    } else if d == 6 {
        '6'
    } else if d == 7 {
        '7'
    } else if d == 8 {
        '8'
    } else {
        '9'
    }
}

/// The decimal digits of `n`, most significant first, with no leading zeros
/// (a single `'0'` for zero).
pub open spec fn decimal_digits(n: nat) -> Seq<char>
    decreases n,
{
    if n < 10 {
        seq![digit_char(n)]
    } else {
        decimal_digits(n / 10) + seq![digit_char(n % 10)]
    }
}

fn digit_str(d: u64) -> (r: &'static str)
    requires
        d < 10,
    ensures
        r@ == seq![digit_char(d as nat)],
{
    if d == 0 {
        proof {
            reveal_strlit("0");
            assert("0"@ =~= seq![digit_char(0)]);
        }
        "0"
    } else if d == 1 {
        proof {
            reveal_strlit("1");
            assert("1"@ =~= seq![digit_char(1)]);
        }
        "1"
    } else if d == 2 {
        proof {
            reveal_strlit("2");
            assert("2"@ =~= seq![digit_char(2)]);
        }
        "2"
    } else if d == 3 {
        proof {
            reveal_strlit("3");
            assert("3"@ =~= seq![digit_char(3)]);
        }
        "3"
    } else if d == 4 {
        proof {
            reveal_strlit("4");
            assert("4"@ =~= seq![digit_char(4)]);
        }
        "4"
    } else if d == 5 {
        proof {
            reveal_strlit("5");
            assert("5"@ =~= seq![digit_char(5)]);
        }
        "5"
    } else if d == 6 {
        proof {
            reveal_strlit("6");
            assert("6"@ =~= seq![digit_char(6)]);
        }
        "6"
    } else if d == 7 {
        proof {
            reveal_strlit("7");
            assert("7"@ =~= seq![digit_char(7)]);
        }
        "7"
    } else if d == 8 {
        proof {
            reveal_strlit("8");
            assert("8"@ =~= seq![digit_char(8)]);
        }
        "8"
    } else {
        proof {
            reveal_strlit("9");
            assert("9"@ =~= seq![digit_char(9)]);
        }
        "9"
    }
}

/// Renders `n` in decimal, for diagnostic messages.
pub fn u64_to_decimal(n: u64) -> (s: String)
    ensures
        s@ == decimal_digits(n as nat),
    decreases n,
{
    if n < 10 {
        String::from_str(digit_str(n))
    } else {
        let mut s = u64_to_decimal(n / 10);
        s.append(digit_str(n % 10));
        s
    }
}

} // verus!
