//! Hex-string parsing for cache-query tooling: a hex string, with or without
//! a leading "0x", decoded into its bytes.

use vstd::prelude::*;

verus! {

/// Why a hex string was rejected.
#[derive(Clone, Copy, PartialEq, Eq, Structural, Debug)]
pub enum HexError {
    /// The string (after any "0x" prefix) has an odd number of digits.
    OddLength,
    /// A character is not a hexadecimal digit.
    InvalidDigit,
}

/// True of an ASCII hexadecimal digit, either case.
pub open spec fn is_hex_digit(b: u8) -> bool {
    (48 <= b <= 57) || (97 <= b <= 102) || (65 <= b <= 70)
}

/// The value of one hexadecimal digit.
pub open spec fn hex_val(b: u8) -> u8 {
    if 48 <= b <= 57 {
        (b - 48) as u8
    } else if 97 <= b <= 102 {
        (b - 87) as u8
    } else {
        (b - 55) as u8
    }
}

/// `s` with a leading "0x" removed, when present.
pub open spec fn strip_hex_prefix(s: Seq<u8>) -> Seq<u8> {
    if s.len() >= 2 && s[0] == 48 && s[1] == 120 {
        s.skip(2)
    } else {
        s
    }
}

/// True when every byte is a hexadecimal digit.
pub open spec fn all_hex(s: Seq<u8>) -> bool {
    forall|i: int| 0 <= i < s.len() ==> is_hex_digit(#[trigger] s[i])
}

/// The bytes decoded from an even-length hex digit string, two digits each.
pub open spec fn hex_decode(s: Seq<u8>) -> Seq<u8> {
    Seq::new(s.len() / 2, |i: int| (16 * hex_val(s[2 * i]) + hex_val(s[2 * i + 1])) as u8)
}

/// Exec test for a hexadecimal digit.
fn is_hex_digit_byte(b: u8) -> (r: bool)
    ensures
        r == is_hex_digit(b),
{
    (48 <= b && b <= 57) || (97 <= b && b <= 102) || (65 <= b && b <= 70)
}

/// The value of one hexadecimal digit.
fn hex_val_byte(b: u8) -> (r: u8)
    requires
        is_hex_digit(b),
    ensures
        r == hex_val(b),
        r < 16,
{
    if 48 <= b && b <= 57 {
        b - 48
    } else if 97 <= b && b <= 102 {
        b - 87
    } else {
        b - 55
    }
}

/// Parses a hex string, with or without a leading "0x", into its bytes.
/// An odd number of digits is rejected before any digit is read; otherwise
/// the first non-digit rejects the string.
pub fn parse_hex(s: &[u8]) -> (r: Result<Vec<u8>, HexError>)
    ensures
        ({
            let t = strip_hex_prefix(s@);
            &&& (r is Ok <==> t.len() % 2 == 0 && all_hex(t))
            &&& (r matches Ok(v) ==> v@ == hex_decode(t))
            &&& (t.len() % 2 != 0 ==> r == Result::<Vec<u8>, HexError>::Err(HexError::OddLength))
            &&& (t.len() % 2 == 0 && !all_hex(t) ==> r == Result::<Vec<u8>, HexError>::Err(
                HexError::InvalidDigit,
            ))
        }),
{
    let ghost t = strip_hex_prefix(s@);
    let start: usize = if s.len() >= 2 && s[0] == 48 && s[1] == 120 {
        2
    } else {
        0
    };
    proof {
        assert(s@.skip(start as int) =~= t);
    }
    let n = s.len();
    if (n - start) % 2 != 0 {
        return Err(HexError::OddLength);
    }
    let mut out: Vec<u8> = Vec::new();
    let mut i: usize = start;
    proof {
        assert(t.take(0) =~= Seq::<u8>::empty());
        assert(hex_decode(t.take(0)) =~= Seq::<u8>::empty());
    }
    while i < n
        invariant
            start <= i <= n,
            n == s@.len(),
            t == s@.skip(start as int),
            t == strip_hex_prefix(s@),
            (i - start) % 2 == 0,
            (n - start) % 2 == 0,
            all_hex(t.take(i - start)),
            out@ == hex_decode(t.take(i - start)),
        decreases n - i,
    {
        proof {
            assert(n - i >= 2) by {
                assert((n - i) % 2 == 0);
            }
        }
        let hi = s[i];
        let lo = s[i + 1];
        proof {
            assert(t[i - start] == s@[i as int]);
            assert(t[i + 1 - start] == s@[i + 1]);
        }
        if !is_hex_digit_byte(hi) {
            proof {
                assert(!is_hex_digit(t[i - start]));
                assert(!all_hex(t));
            }
            return Err(HexError::InvalidDigit);
        }
        if !is_hex_digit_byte(lo) {
            proof {
                assert(!is_hex_digit(t[i + 1 - start]));
                assert(!all_hex(t));
            }
            return Err(HexError::InvalidDigit);
        }
        let b = 16 * hex_val_byte(hi) + hex_val_byte(lo);
        out.push(b);
        proof {
            let k = i - start;
            assert(all_hex(t.take(k + 2))) by {
                assert(forall|p: int| 0 <= p < k ==> t.take(k + 2)[p] == t.take(k)[p]);
                assert(t.take(k + 2)[k] == t[k]);
                assert(t.take(k + 2)[k + 1] == t[k + 1]);
            }
            assert(out@ =~= hex_decode(t.take(k + 2))) by {
                assert(hex_decode(t.take(k + 2)).len() == (k + 2) / 2);
                assert(forall|q: int|
                    0 <= q < k / 2 ==> hex_decode(t.take(k + 2))[q] == hex_decode(t.take(k))[q]);
                assert(t.take(k + 2)[2 * (k / 2)] == t[k]);
                assert(t.take(k + 2)[2 * (k / 2) + 1] == t[k + 1]);
            }
        }
        i += 2;
    }
    proof {
        assert(t.take(n - start) =~= t);
    }
    Ok(out)
}

} // verus!
