//! Lowercase hex encoding of byte strings, and the inverse used for keys and
//! signatures arriving on the wire (which may use either letter case).

use vstd::prelude::*;
use crate::jsontext::hex_digit_lower;
use crate::jsontext::hex_digit;

verus! {

/// The lowercase hex spelling of a byte string.
pub open spec fn hex_lower(s: Seq<u8>) -> Seq<u8>
    decreases s.len(),
{
    if s.len() == 0 {
        Seq::empty()
    } else {
        hex_lower(s.drop_last()) + seq![
            hex_digit_lower((s.last() / 16) as nat),
            hex_digit_lower((s.last() % 16) as nat),
        ]
    }
}

/// Hex spelling doubles the length.
pub proof fn lemma_hex_lower_len(s: Seq<u8>)
    ensures
        hex_lower(s).len() == 2 * s.len(),
    decreases s.len(),
{
    if s.len() > 0 {
        lemma_hex_lower_len(s.drop_last());
    }
}

/// Whether a byte is a hex digit in either case.
pub open spec fn is_hex_digit(b: u8) -> bool {
    (48 <= b <= 57) || (97 <= b <= 102) || (65 <= b <= 70)
}

/// The value of a hex digit in either case.
pub open spec fn hex_val(b: u8) -> int {
    if 48 <= b <= 57 {
        b - 48
    } else if 97 <= b <= 102 {
        b - 87
    } else {
        b - 55
    }
}

/// The bytes spelled by a hex string: `None` when the length is odd or a
/// byte is not a hex digit.
pub open spec fn unhex(s: Seq<u8>) -> Option<Seq<u8>>
    decreases s.len(),
{
    if s.len() == 0 {
        Some(Seq::empty())
    } else if s.len() == 1 {
        None
    } else {
        let hi = s[s.len() - 2];
        let lo = s.last();
        if is_hex_digit(hi) && is_hex_digit(lo) {
            match unhex(s.take(s.len() - 2)) {
                Some(p) => Some(p.push((hex_val(hi) * 16 + hex_val(lo)) as u8)),
                None => None,
            }
        } else {
            None
        }
    }
}

/// Encode bytes as lowercase hex.
pub fn to_hex(s: &[u8]) -> (r: Vec<u8>)
    ensures
        r@ == hex_lower(s@),
{
    let mut out: Vec<u8> = Vec::new();
    let mut i: usize = 0;
    while i < s.len()
        invariant
            0 <= i <= s@.len(),
            out@ =~= hex_lower(s@.take(i as int)),
        decreases s@.len() - i,
    {
        let b = s[i];
        out.push(hex_digit(b / 16));
        out.push(hex_digit(b % 16));
        proof {
            assert(s@.take(i + 1).drop_last() =~= s@.take(i as int));
            assert(s@.take(i + 1).last() == b);
            assert(out@ =~= hex_lower(s@.take(i + 1)));
        }
        i += 1;
    }
    proof {
        assert(s@.take(s@.len() as int) =~= s@);
    }
    out
}

/// The value of a hex digit in either case.
fn hex_digit_val(b: u8) -> (r: Option<u8>)
    ensures
        match r {
            Some(v) => is_hex_digit(b) && v == hex_val(b),
            None => !is_hex_digit(b),
        },
{
    if b >= 48 && b <= 57 {
        Some(b - 48)
    } else if b >= 97 && b <= 102 {
        Some(b - 87)
    } else if b >= 65 && b <= 70 {
        Some(b - 55)
    } else {
        None
    }
}

/// Decode a hex string in either case; `None` when the length is odd or a
/// byte is not a hex digit.
pub fn from_hex(s: &[u8]) -> (r: Option<Vec<u8>>)
    ensures
        match r {
            Some(v) => unhex(s@) == Some(v@),
            None => unhex(s@) is None,
        },
{
    if s.len() % 2 != 0 {
        proof {
            lemma_unhex_odd(s@);
        }
        return None;
    }
    let mut out: Vec<u8> = Vec::new();
    let mut i: usize = 0;
    while i < s.len()
        invariant
            0 <= i <= s@.len(),
            i % 2 == 0,
            s@.len() % 2 == 0,
            unhex(s@.take(i as int)) == Some(out@),
        decreases s@.len() - i,
    {
        let hi = match hex_digit_val(s[i]) {
            Some(v) => v,
            None => {
                proof {
                    lemma_unhex_bad_digit(s@, i as int);
                }
                return None;
            },
        };
        let lo = match hex_digit_val(s[i + 1]) {
            Some(v) => v,
            None => {
                proof {
                    lemma_unhex_bad_digit(s@, i as int + 1);
                }
                return None;
            },
        };
        let ghost before = out@;
        out.push(hi * 16 + lo);
        proof {
            let t = s@.take(i + 2);
            assert(t[t.len() - 2] == s@[i as int]);
            assert(t.last() == s@[i + 1]);
            assert(t.take(t.len() - 2) =~= s@.take(i as int));
            assert(unhex(t) == Some(before.push((hex_val(s@[i as int]) * 16 + hex_val(
                s@[i + 1],
            )) as u8)));
        }
        i += 2;
    }
    proof {
        assert(s@.take(s@.len() as int) =~= s@);
    }
    Some(out)
}

/// A hex string of odd length decodes to nothing.
proof fn lemma_unhex_odd(s: Seq<u8>)
    requires
        s.len() % 2 == 1,
    ensures
        unhex(s) is None,
    decreases s.len(),
{
    if s.len() > 1 {
        if is_hex_digit(s[s.len() - 2]) && is_hex_digit(s.last()) {
            lemma_unhex_odd(s.take(s.len() - 2));
        }
    }
}

/// A hex string with a non-digit byte decodes to nothing.
proof fn lemma_unhex_bad_digit(s: Seq<u8>, i: int)
    requires
        0 <= i < s.len(),
        !is_hex_digit(s[i]),
    ensures
        unhex(s) is None,
    decreases s.len(),
{
    if s.len() == 1 {
    } else if i >= s.len() - 2 {
    } else {
        if is_hex_digit(s[s.len() - 2]) && is_hex_digit(s.last()) {
            assert(s.take(s.len() - 2)[i] == s[i]);
            lemma_unhex_bad_digit(s.take(s.len() - 2), i);
        }
    }
}

/// Decoding inverts lowercase hex encoding.
pub proof fn lemma_unhex_hex_lower(s: Seq<u8>)
    ensures
        unhex(hex_lower(s)) == Some(s),
    decreases s.len(),
{
    if s.len() == 0 {
        assert(hex_lower(s).len() == 0);
        assert(unhex(hex_lower(s)) == Some(Seq::<u8>::empty()));
        assert(s =~= Seq::<u8>::empty());
    } else {
        lemma_unhex_hex_lower(s.drop_last());
        lemma_hex_lower_len(s.drop_last());
        let h = hex_lower(s);
        let b = s.last();
        let hi = hex_digit_lower((b / 16) as nat);
        let lo = hex_digit_lower((b % 16) as nat);
        assert(h.len() == hex_lower(s.drop_last()).len() + 2);
        assert(h[h.len() - 2] == hi);
        assert(h.last() == lo);
        assert(h.take(h.len() - 2) =~= hex_lower(s.drop_last()));
        assert(is_hex_digit(hi) && hex_val(hi) == b / 16);
        assert(is_hex_digit(lo) && hex_val(lo) == b % 16);
        assert((hex_val(hi) * 16 + hex_val(lo)) as u8 == b) by {
            vstd::arithmetic::div_mod::lemma_fundamental_div_mod(b as int, 16);
        }
        assert(s.drop_last().push(b) =~= s);
    }
}

} // verus!
