//! Byte-level building blocks of the canonical JSON texts the crate writes:
//! decimal numbers, fixed fragments, big-endian 32-bit framing, and JSON
//! string escaping.
//!
//! All encoders are specified against small recursive spec functions, and the
//! parsing helpers are proved to invert them exactly.

use vstd::prelude::*;
use vstd::arithmetic::div_mod::*;

verus! {

/// Whether a byte is an ASCII decimal digit.
pub open spec fn is_digit(b: u8) -> bool {
    48 <= b <= 57
}

/// The shortest decimal form of `n`, as ASCII bytes.
pub open spec fn dec_u64(n: nat) -> Seq<u8>
    decreases n,
{
    if n < 10 {
        seq![(48 + n) as u8]
    } else {
        dec_u64(n / 10).push((48 + n % 10) as u8)
    }
}

/// The value spelled by a sequence of ASCII digits.
pub open spec fn digits_val(s: Seq<u8>) -> int
    decreases s.len(),
{
    if s.len() == 0 {
        0
    } else {
        digits_val(s.drop_last()) * 10 + (s.last() - 48)
    }
}

/// Whether every byte of `s` is an ASCII digit.
pub open spec fn all_digits(s: Seq<u8>) -> bool {
    forall|i: int| 0 <= i < s.len() ==> is_digit(s[i])
}

/// Length of the longest digit prefix of `s`.
pub open spec fn digit_run_len(s: Seq<u8>) -> nat
    decreases s.len(),
{
    if s.len() == 0 || !is_digit(s[0]) {
        0
    } else {
        1 + digit_run_len(s.drop_first())
    }
}

/// The longest digit prefix of `s` starting at `pos`.
pub open spec fn digit_run_at(s: Seq<u8>, pos: int) -> Seq<u8> {
    s.subrange(pos, pos + digit_run_len(s.skip(pos)))
}

/// The decimal form of `n` is nonempty, all digits, and starts with a
/// nonzero digit unless `n` is zero.
pub proof fn lemma_dec_u64_shape(n: nat)
    ensures
        dec_u64(n).len() >= 1,
        all_digits(dec_u64(n)),
        n >= 10 ==> dec_u64(n)[0] != 48,
        n < 10 ==> dec_u64(n) == seq![(48 + n) as u8],
    decreases n,
{
    if n >= 10 {
        lemma_dec_u64_shape(n / 10);
        assert(dec_u64(n) == dec_u64(n / 10).push((48 + n % 10) as u8));
        assert(forall|i: int|
            0 <= i < dec_u64(n).len() ==> is_digit(#[trigger] dec_u64(n)[i])) by {
            assert forall|i: int| 0 <= i < dec_u64(n).len() implies is_digit(
                #[trigger] dec_u64(n)[i],
            ) by {
                if i < dec_u64(n / 10).len() {
                    assert(dec_u64(n)[i] == dec_u64(n / 10)[i]);
                }
            }
        }
        if n / 10 >= 10 {
            assert(dec_u64(n)[0] == dec_u64(n / 10)[0]);
        } else {
            assert(n / 10 >= 1);
            assert(dec_u64(n)[0] == (48 + n / 10) as u8);
        }
    }
}

/// Reading the decimal form of `n` back as digits yields `n`.
pub proof fn lemma_dec_u64_val(n: nat)
    ensures
        digits_val(dec_u64(n)) == n,
    decreases n,
{
    if n < 10 {
        let s = dec_u64(n);
        assert(s.last() == (48 + n) as u8);
        assert(s.drop_last() =~= Seq::<u8>::empty());
        assert(digits_val(Seq::<u8>::empty()) == 0);
        assert(digits_val(s) == digits_val(s.drop_last()) * 10 + (s.last() - 48));
    } else {
        lemma_dec_u64_val(n / 10);
        let s = dec_u64(n);
        assert(s.drop_last() =~= dec_u64(n / 10));
        assert(s.last() == (48 + n % 10) as u8);
        lemma_fundamental_div_mod(n as int, 10);
    }
}

/// The digit value of a sequence of digits is nonnegative.
pub proof fn lemma_digits_val_nonneg(s: Seq<u8>)
    requires
        all_digits(s),
    ensures
        digits_val(s) >= 0,
    decreases s.len(),
{
    if s.len() > 0 {
        assert(forall|i: int| 0 <= i < s.drop_last().len() ==> is_digit(
            #[trigger] s.drop_last()[i],
        ));
        lemma_digits_val_nonneg(s.drop_last());
    }
}

/// A digit prefix spells at most the value of the whole digit string.
pub proof fn lemma_digits_val_prefix_le(s: Seq<u8>, k: int)
    requires
        all_digits(s),
        0 <= k <= s.len(),
    ensures
        digits_val(s.take(k)) <= digits_val(s),
    decreases s.len(),
{
    if k == s.len() {
        assert(s.take(k) =~= s);
    } else {
        let d = s.drop_last();
        assert(forall|i: int| 0 <= i < d.len() ==> is_digit(#[trigger] d[i]));
        assert(s.take(k) =~= d.take(k));
        lemma_digits_val_prefix_le(d, k);
        lemma_digits_val_nonneg(d);
        assert(is_digit(s.last()));
        assert(digits_val(s) == digits_val(d) * 10 + (s.last() - 48));
        assert(digits_val(d) * 10 >= digits_val(d)) by {
            lemma_digits_val_nonneg(d);
            assert(forall|i: int| 0 <= i < d.len() ==> is_digit(#[trigger] d[i]));
        }
    }
}

/// The digit run of a digit string followed by a non-digit boundary is
/// exactly the digit string.
pub proof fn lemma_digit_run_of_concat(d: Seq<u8>, rest: Seq<u8>)
    requires
        all_digits(d),
        rest.len() == 0 || !is_digit(rest[0]),
    ensures
        digit_run_len(d + rest) == d.len(),
    decreases d.len(),
{
    if d.len() == 0 {
        assert(d + rest =~= rest);
    } else {
        assert((d + rest)[0] == d[0]);
        assert(is_digit(d[0]));
        assert((d + rest).drop_first() =~= d.drop_first() + rest);
        assert(forall|i: int| 0 <= i < d.drop_first().len() ==> is_digit(
            #[trigger] d.drop_first()[i],
        ));
        lemma_digit_run_of_concat(d.drop_first(), rest);
    }
}

/// Append the bytes of `s` to `out`.
pub fn append_bytes(out: &mut Vec<u8>, s: &[u8])
    ensures
        final(out)@ == old(out)@ + s@,
{
    let mut i: usize = 0;
    while i < s.len()
        invariant
            0 <= i <= s@.len(),
            out@ =~= old(out)@ + s@.take(i as int),
        decreases s@.len() - i,
    {
        out.push(s[i]);
        i += 1;
    }
    proof {
        assert(out@ =~= old(out)@ + s@);
    }
}

/// Append the shortest decimal form of `n` to `out`.
pub fn push_dec_u64(out: &mut Vec<u8>, n: u64)
    ensures
        final(out)@ == old(out)@ + dec_u64(n as nat),
{
    let mut tmp: Vec<u8> = Vec::new();
    let mut m: u64 = n;
    while m >= 10
        invariant
            dec_u64(n as nat) =~= dec_u64(m as nat) + tmp@.reverse(),
        decreases m,
    {
        let d: u8 = (m % 10) as u8 + 48;
        let ghost old_tmp = tmp@;
        tmp.push(d);
        m = m / 10;
        proof {
            assert(tmp@.reverse() =~= seq![d] + old_tmp.reverse());
            assert(dec_u64((m * 10 + (d - 48)) as nat) == dec_u64(m as nat).push(d));
            assert(dec_u64(m as nat).push(d) + old_tmp.reverse() =~= dec_u64(m as nat) + (seq![d]
                + old_tmp.reverse()));
        }
    }
    let d: u8 = m as u8 + 48;
    let ghost old_tmp = tmp@;
    tmp.push(d);
    proof {
        assert(tmp@.reverse() =~= seq![d] + old_tmp.reverse());
        assert(dec_u64(m as nat) == seq![d]);
        assert(dec_u64(n as nat) =~= tmp@.reverse());
    }
    let mut i: usize = tmp.len();
    while i > 0
        invariant
            0 <= i <= tmp@.len(),
            out@ =~= old(out)@ + tmp@.reverse().take((tmp@.len() - i) as int),
        decreases i,
    {
        i -= 1;
        out.push(tmp[i]);
        proof {
            assert(tmp@.reverse()[(tmp@.len() - i - 1) as int] == tmp@[i as int]);
            assert(out@ =~= old(out)@ + tmp@.reverse().take((tmp@.len() - i) as int));
        }
    }
    proof {
        assert(tmp@.reverse().take(tmp@.len() as int) =~= tmp@.reverse());
    }
}

/// Append the shortest decimal form of `n` to `out`.
pub fn push_dec_u32(out: &mut Vec<u8>, n: u32)
    ensures
        final(out)@ == old(out)@ + dec_u64(n as nat),
{
    push_dec_u64(out, n as u64);
}

/// Parse the digit run starting at `pos` as a `u64`.
///
/// Returns the value and the position after the run; `None` when no digit
/// starts at `pos` or the run's value exceeds `u64::MAX`.
pub fn parse_dec_u64(s: &[u8], pos: usize) -> (r: Option<(u64, usize)>)
    requires
        pos <= s@.len(),
    ensures
        match r {
            Some(vp) => {
                &&& digit_run_len(s@.skip(pos as int)) == vp.1 - pos
                &&& vp.1 <= s@.len()
                &&& vp.1 > pos
                &&& vp.0 == digits_val(s@.subrange(pos as int, vp.1 as int))
            },
            None => digit_run_len(s@.skip(pos as int)) == 0 || digits_val(
                digit_run_at(s@, pos as int),
            ) > u64::MAX,
        },
{
    let ghost whole = s@;
    let mut i: usize = pos;
    let mut val: u64 = 0;
    let mut any: bool = false;
    loop
        invariant
            pos <= i <= whole.len(),
            s@ == whole,
            all_digits(whole.subrange(pos as int, i as int)),
            val == digits_val(whole.subrange(pos as int, i as int)),
            any == (i > pos),
        ensures
            pos <= i <= whole.len(),
            s@ == whole,
            all_digits(whole.subrange(pos as int, i as int)),
            val == digits_val(whole.subrange(pos as int, i as int)),
            any == (i > pos),
            i == whole.len() || !is_digit(whole[i as int]),
        decreases whole.len() - i,
    {
        if i >= s.len() {
            break;
        }
        let b = s[i];
        if !(b >= 48 && b <= 57) {
            break;
        }
        let d: u64 = (b - 48) as u64;
        proof {
            let cur = whole.subrange(pos as int, i + 1);
            assert(cur.drop_last() =~= whole.subrange(pos as int, i as int));
            assert(cur.last() == b);
            assert(forall|j: int| 0 <= j < cur.len() - 1 ==> cur[j] == whole.subrange(
                pos as int,
                i as int,
            )[j]);
            assert(all_digits(cur));
            assert(digits_val(cur) == val * 10 + (b - 48));
        }
        if val > (u64::MAX - d) / 10 {
            // The run continues but its value no longer fits.
            proof {
                let cur = whole.subrange(pos as int, i + 1);
                lemma_run_is_digits(whole, pos as int);
                lemma_run_extends(whole, pos as int, i + 1);
                let run = digit_run_at(whole, pos as int);
                assert(cur =~= run.take(i + 1 - pos));
                lemma_digits_val_prefix_le(run, i + 1 - pos);
                assert(val * 10 + d > u64::MAX) by {
                    assert(val >= (u64::MAX - d) / 10 + 1);
                    lemma_fundamental_div_mod((u64::MAX - d) as int, 10);
                    assert(val * 10 >= ((u64::MAX - d) / 10 + 1) * 10) by (nonlinear_arith)
                        requires
                            val >= (u64::MAX - d) / 10 + 1,
                    ;
                    assert(((u64::MAX - d) / 10 + 1) * 10 == (u64::MAX - d) / 10 * 10 + 10);
                }
                assert(digits_val(run) >= digits_val(cur));
            }
            return None;
        }
        val = val * 10 + d;
        i += 1;
        any = true;
    }
    proof {
        let d = whole.subrange(pos as int, i as int);
        let rest = whole.skip(i as int);
        assert(d + rest =~= whole.skip(pos as int));
        if i < whole.len() {
            assert(rest[0] == whole[i as int]);
        }
        lemma_digit_run_of_concat(d, rest);
    }
    if any {
        Some((val, i))
    } else {
        None
    }
}

/// A digit run is made of digits.
pub proof fn lemma_run_is_digits(s: Seq<u8>, pos: int)
    requires
        0 <= pos <= s.len(),
    ensures
        all_digits(digit_run_at(s, pos)),
        pos + digit_run_len(s.skip(pos)) <= s.len(),
{
    lemma_run_bounds(s.skip(pos));
    let t = s.skip(pos);
    let rl = digit_run_len(t);
    assert forall|i: int| 0 <= i < digit_run_at(s, pos).len() implies is_digit(
        #[trigger] digit_run_at(s, pos)[i],
    ) by {
        lemma_run_digit_at(t, i);
        assert(digit_run_at(s, pos)[i] == t[i]);
    }
}

/// A digit run lies within the sequence.
proof fn lemma_run_bounds(s: Seq<u8>)
    ensures
        digit_run_len(s) <= s.len(),
    decreases s.len(),
{
    if s.len() > 0 && is_digit(s[0]) {
        lemma_run_bounds(s.drop_first());
    }
}

/// Positions inside a digit run hold digits.
proof fn lemma_run_digit_at(s: Seq<u8>, i: int)
    requires
        0 <= i < digit_run_len(s),
    ensures
        i < s.len() && is_digit(s[i]),
    decreases i,
{
    lemma_run_bounds(s);
    if i > 0 {
        lemma_run_digit_at(s.drop_first(), i - 1);
    }
}

/// If positions `pos..j` all hold digits, the digit run at `pos` reaches at
/// least `j`.
pub proof fn lemma_run_extends(s: Seq<u8>, pos: int, j: int)
    requires
        0 <= pos <= j <= s.len(),
        all_digits(s.subrange(pos, j)),
    ensures
        digit_run_len(s.skip(pos)) >= j - pos,
    decreases j - pos,
{
    if j > pos {
        assert(is_digit(s.subrange(pos, j)[0]));
        assert(s.skip(pos)[0] == s[pos]);
        assert(s.skip(pos).drop_first() =~= s.skip(pos + 1));
        assert(s.subrange(pos + 1, j) =~= s.subrange(pos, j).drop_first());
        assert(forall|i: int| 0 <= i < s.subrange(pos + 1, j).len() ==> is_digit(
            #[trigger] s.subrange(pos + 1, j)[i],
        ));
        lemma_run_extends(s, pos + 1, j);
    }
}

/// Whether `p` occurs in `s` at offset `pos`.
pub open spec fn bytes_at(s: Seq<u8>, pos: int, p: Seq<u8>) -> bool {
    &&& 0 <= pos
    &&& pos + p.len() <= s.len()
    &&& s.subrange(pos, pos + p.len()) == p
}

/// Check that `lit` occurs in `s` at offset `pos`; on success return the
/// position after it.
pub fn eat_lit(s: &[u8], pos: usize, lit: &[u8]) -> (r: Option<usize>)
    requires
        pos <= s@.len(),
    ensures
        match r {
            Some(p2) => bytes_at(s@, pos as int, lit@) && p2 == pos + lit@.len(),
            None => !bytes_at(s@, pos as int, lit@),
        },
{
    if s.len() - pos < lit.len() {
        return None;
    }
    let mut i: usize = 0;
    while i < lit.len()
        invariant
            0 <= i <= lit@.len(),
            pos + lit@.len() <= s@.len(),
            s@.len() <= usize::MAX,
            forall|j: int| 0 <= j < i ==> s@[pos + j] == lit@[j],
        decreases lit@.len() - i,
    {
        if s[pos + i] != lit[i] {
            proof {
                assert(s@.subrange(pos as int, pos + lit@.len())[i as int] != lit@[i as int]);
            }
            return None;
        }
        i += 1;
    }
    proof {
        assert(s@.subrange(pos as int, pos + lit@.len()) =~= lit@);
    }
    Some(pos + lit.len())
}

/// The value of four big-endian bytes.
pub open spec fn be32_val(s: Seq<u8>) -> int
    recommends
        s.len() == 4,
{
    s[0] * 0x1000000 + s[1] * 0x10000 + s[2] * 0x100 + s[3]
}

/// The four big-endian bytes of a value below 2^32.
pub open spec fn be32_of(x: int) -> Seq<u8> {
    seq![
        (x / 0x1000000 % 0x100) as u8,
        (x / 0x10000 % 0x100) as u8,
        (x / 0x100 % 0x100) as u8,
        (x % 0x100) as u8,
    ]
}

/// Reading back the big-endian bytes of a value below 2^32 yields it.
pub proof fn lemma_be32_of_val(x: int)
    requires
        0 <= x < 0x100000000,
    ensures
        be32_val(be32_of(x)) == x,
{
    assert(0 <= x / 0x1000000 < 0x100);
    vstd::arithmetic::div_mod::lemma_small_mod((x / 0x1000000) as nat, 0x100);
    lemma_be32_recompose_int(x);
}

/// The four big-endian bytes of `x`.
pub fn be32_bytes(x: u32) -> (r: Vec<u8>)
    ensures
        r@.len() == 4,
        r@ == be32_of(x as int),
        be32_val(r@) == x,
{
    let b0: u8 = (x / 0x1000000) as u8;
    let b1: u8 = ((x / 0x10000) % 0x100) as u8;
    let b2: u8 = ((x / 0x100) % 0x100) as u8;
    let b3: u8 = (x % 0x100) as u8;
    let r: Vec<u8> = vec![b0, b1, b2, b3];
    proof {
        lemma_be32_recompose_int(x as int);
        assert(0 <= x / 0x1000000 < 0x100);
        vstd::arithmetic::div_mod::lemma_small_mod((x as int / 0x1000000) as nat, 0x100);
        assert(r@[0] == b0 && r@[1] == b1 && r@[2] == b2 && r@[3] == b3);
        assert(r@ =~= be32_of(x as int));
    }
    r
}

/// Splitting a value below 2^32 into big-endian bytes and recombining them
/// yields it.
proof fn lemma_be32_recompose_int(x: int)
    requires
        0 <= x < 0x100000000,
    ensures
        (x / 0x1000000) * 0x1000000 + ((x / 0x10000) % 0x100) * 0x10000 + ((x / 0x100) % 0x100)
            * 0x100 + (x % 0x100) == x,
{
    lemma_fundamental_div_mod(x, 0x100);
    lemma_fundamental_div_mod(x / 0x100, 0x100);
    lemma_fundamental_div_mod(x / 0x10000, 0x100);
    lemma_div_denominator(x, 0x100, 0x100);
    lemma_div_denominator(x, 0x10000, 0x100);
    assert(x / 0x100 / 0x100 == x / 0x10000);
    assert(x / 0x10000 / 0x100 == x / 0x1000000);
}

/// Read four big-endian bytes at `pos`.
pub fn read_be32(s: &[u8], pos: usize) -> (r: u32)
    requires
        pos + 4 <= s@.len(),
    ensures
        r == be32_val(s@.subrange(pos as int, pos + 4)),
{
    let b0 = s[pos] as u32;
    let b1 = s[pos + 1] as u32;
    let b2 = s[pos + 2] as u32;
    let b3 = s[pos + 3] as u32;
    let r = b0 * 0x1000000 + b1 * 0x10000 + b2 * 0x100 + b3;
    proof {
        let sub = s@.subrange(pos as int, pos + 4);
        assert(sub[0] == s@[pos as int] && sub[1] == s@[pos + 1] && sub[2] == s@[pos + 2] && sub[3]
            == s@[pos + 3]);
    }
    r
}

/// The JSON escape of one string byte, as `serde_json` writes it: quote and
/// backslash get a two-byte escape, the named control characters get their
/// short escapes, other bytes below 0x20 get a `\u00XX` escape with lowercase
/// hex digits, and everything else stands for itself.
pub open spec fn esc_byte(b: u8) -> Seq<u8> {
    if b == 34 {
        seq![92u8, 34u8]
    } else if b == 92 {
        seq![92u8, 92u8]
    } else if b == 8 {
        seq![92u8, 98u8]
    } else if b == 9 {
        seq![92u8, 116u8]
    } else if b == 10 {
        seq![92u8, 110u8]
    } else if b == 12 {
        seq![92u8, 102u8]
    } else if b == 13 {
        seq![92u8, 114u8]
    } else if b < 32 {
        seq![92u8, 117u8, 48u8, 48u8, hex_digit_lower((b / 16) as nat), hex_digit_lower(
            (b % 16) as nat,
        )]
    } else {
        seq![b]
    }
}

/// The JSON escape of a whole byte string.
pub open spec fn esc(s: Seq<u8>) -> Seq<u8>
    decreases s.len(),
{
    if s.len() == 0 {
        Seq::empty()
    } else {
        esc(s.drop_last()) + esc_byte(s.last())
    }
}

/// The lowercase hex digit for a value below 16.
pub open spec fn hex_digit_lower(v: nat) -> u8 {
    if v < 10 {
        (48 + v) as u8
    } else {
        (87 + v) as u8
    }
}

/// The lowercase hex digit for a value below 16.
pub fn hex_digit(v: u8) -> (r: u8)
    requires
        v < 16,
    ensures
        r == hex_digit_lower(v as nat),
{
    if v < 10 {
        48 + v
    } else {
        87 + v
    }
}

/// Append the JSON escape of `s` to `out`.
pub fn push_escaped(out: &mut Vec<u8>, s: &[u8])
    ensures
        final(out)@ == old(out)@ + esc(s@),
{
    let mut i: usize = 0;
    while i < s.len()
        invariant
            0 <= i <= s@.len(),
            out@ =~= old(out)@ + esc(s@.take(i as int)),
        decreases s@.len() - i,
    {
        let b = s[i];
        let ghost before = out@;
        if b == 34 {
            out.push(92);
            out.push(34);
        } else if b == 92 {
            out.push(92);
            out.push(92);
        } else if b == 8 {
            out.push(92);
            out.push(98);
        } else if b == 9 {
            out.push(92);
            out.push(116);
        } else if b == 10 {
            out.push(92);
            out.push(110);
        } else if b == 12 {
            out.push(92);
            out.push(102);
        } else if b == 13 {
            out.push(92);
            out.push(114);
        } else if b < 32 {
            out.push(92);
            out.push(117);
            out.push(48);
            out.push(48);
            out.push(hex_digit(b / 16));
            out.push(hex_digit(b % 16));
        } else {
            out.push(b);
        }
        proof {
            assert(out@ =~= before + esc_byte(b));
            assert(s@.take(i + 1).drop_last() =~= s@.take(i as int));
            assert(s@.take(i + 1).last() == b);
            assert(esc(s@.take(i + 1)) == esc(s@.take(i as int)) + esc_byte(b));
            assert(out@ =~= old(out)@ + esc(s@.take(i + 1)));
        }
        i += 1;
    }
    proof {
        assert(s@.take(s@.len() as int) =~= s@);
    }
}

/// The bytes of the JSON fragment `{"input":"`.
pub open spec fn lit_input_open() -> Seq<u8> {
    seq![123u8, 34u8, 105u8, 110u8, 112u8, 117u8, 116u8, 34u8, 58u8, 34u8]
}

/// Append the JSON fragment `{"input":"`.
pub fn push_input_open(out: &mut Vec<u8>)
    ensures
        final(out)@ == old(out)@ + lit_input_open(),
{
    let ghost start = out@;
    let vals: Vec<u8> = vec![123, 34, 105, 110, 112, 117, 116, 34, 58, 34];
    append_bytes(out, vals.as_slice());
    proof {
        assert(vals@ =~= lit_input_open());
    }
}

/// The bytes of the JSON fragment `","ops":{`.
pub open spec fn lit_ops_open() -> Seq<u8> {
    seq![34u8, 44u8, 34u8, 111u8, 112u8, 115u8, 34u8, 58u8, 123u8]
}

/// Append the JSON fragment `","ops":{`.
pub fn push_ops_open(out: &mut Vec<u8>)
    ensures
        final(out)@ == old(out)@ + lit_ops_open(),
{
    let ghost start = out@;
    let vals: Vec<u8> = vec![34, 44, 34, 111, 112, 115, 34, 58, 123];
    append_bytes(out, vals.as_slice());
    proof {
        assert(vals@ =~= lit_ops_open());
    }
}

/// The bytes of the JSON fragment `"width":`.
pub open spec fn lit_width_key() -> Seq<u8> {
    seq![34u8, 119u8, 105u8, 100u8, 116u8, 104u8, 34u8, 58u8]
}

/// Append the JSON fragment `"width":`.
pub fn push_width_key(out: &mut Vec<u8>)
    ensures
        final(out)@ == old(out)@ + lit_width_key(),
{
    let ghost start = out@;
    let vals: Vec<u8> = vec![34, 119, 105, 100, 116, 104, 34, 58];
    append_bytes(out, vals.as_slice());
    proof {
        assert(vals@ =~= lit_width_key());
    }
}

/// The bytes of the JSON fragment `"height":`.
pub open spec fn lit_height_key() -> Seq<u8> {
    seq![34u8, 104u8, 101u8, 105u8, 103u8, 104u8, 116u8, 34u8, 58u8]
}

/// Append the JSON fragment `"height":`.
pub fn push_height_key(out: &mut Vec<u8>)
    ensures
        final(out)@ == old(out)@ + lit_height_key(),
{
    let ghost start = out@;
    let vals: Vec<u8> = vec![34, 104, 101, 105, 103, 104, 116, 34, 58];
    append_bytes(out, vals.as_slice());
    proof {
        assert(vals@ =~= lit_height_key());
    }
}

/// The bytes of the JSON fragment `"out_type":"`.
pub open spec fn lit_out_type_key() -> Seq<u8> {
    seq![34u8, 111u8, 117u8, 116u8, 95u8, 116u8, 121u8, 112u8, 101u8, 34u8, 58u8, 34u8]
}

/// Append the JSON fragment `"out_type":"`.
pub fn push_out_type_key(out: &mut Vec<u8>)
    ensures
        final(out)@ == old(out)@ + lit_out_type_key(),
{
    let ghost start = out@;
    let vals: Vec<u8> = vec![34, 111, 117, 116, 95, 116, 121, 112, 101, 34, 58, 34];
    append_bytes(out, vals.as_slice());
    proof {
        assert(vals@ =~= lit_out_type_key());
    }
}

/// The bytes of the JSON fragment `"quality":`.
pub open spec fn lit_quality_key() -> Seq<u8> {
    seq![34u8, 113u8, 117u8, 97u8, 108u8, 105u8, 116u8, 121u8, 34u8, 58u8]
}

/// Append the JSON fragment `"quality":`.
pub fn push_quality_key(out: &mut Vec<u8>)
    ensures
        final(out)@ == old(out)@ + lit_quality_key(),
{
    let ghost start = out@;
    let vals: Vec<u8> = vec![34, 113, 117, 97, 108, 105, 116, 121, 34, 58];
    append_bytes(out, vals.as_slice());
    proof {
        assert(vals@ =~= lit_quality_key());
    }
}

/// The bytes of the JSON fragment `"blur":`.
pub open spec fn lit_blur_key() -> Seq<u8> {
    seq![34u8, 98u8, 108u8, 117u8, 114u8, 34u8, 58u8]
}

/// Append the JSON fragment `"blur":`.
pub fn push_blur_key(out: &mut Vec<u8>)
    ensures
        final(out)@ == old(out)@ + lit_blur_key(),
{
    let ghost start = out@;
    let vals: Vec<u8> = vec![34, 98, 108, 117, 114, 34, 58];
    append_bytes(out, vals.as_slice());
    proof {
        assert(vals@ =~= lit_blur_key());
    }
}

/// The bytes of the JSON fragment `}}`.
pub open spec fn lit_close_braces() -> Seq<u8> {
    seq![125u8, 125u8]
}

/// Append the JSON fragment `}}`.
pub fn push_close_braces(out: &mut Vec<u8>)
    ensures
        final(out)@ == old(out)@ + lit_close_braces(),
{
    let ghost start = out@;
    let vals: Vec<u8> = vec![125, 125];
    append_bytes(out, vals.as_slice());
    proof {
        assert(vals@ =~= lit_close_braces());
    }
}

/// The bytes of the JSON fragment `"`.
pub open spec fn lit_quote() -> Seq<u8> {
    seq![34u8]
}

/// Append the JSON fragment `"`.
pub fn push_quote(out: &mut Vec<u8>)
    ensures
        final(out)@ == old(out)@ + lit_quote(),
{
    let ghost start = out@;
    let vals: Vec<u8> = vec![34];
    append_bytes(out, vals.as_slice());
    proof {
        assert(vals@ =~= lit_quote());
    }
}

/// The bytes of the JSON fragment `,`.
pub open spec fn lit_comma() -> Seq<u8> {
    seq![44u8]
}

/// Append the JSON fragment `,`.
pub fn push_comma(out: &mut Vec<u8>)
    ensures
        final(out)@ == old(out)@ + lit_comma(),
{
    let ghost start = out@;
    let vals: Vec<u8> = vec![44];
    append_bytes(out, vals.as_slice());
    proof {
        assert(vals@ =~= lit_comma());
    }
}

/// The bytes of the JSON fragment `{"img_type":"`.
pub open spec fn lit_meta_open() -> Seq<u8> {
    seq![123u8, 34u8, 105u8, 109u8, 103u8, 95u8, 116u8, 121u8, 112u8, 101u8, 34u8, 58u8, 34u8]
}

/// Append the JSON fragment `{"img_type":"`.
pub fn push_meta_open(out: &mut Vec<u8>)
    ensures
        final(out)@ == old(out)@ + lit_meta_open(),
{
    let ghost start = out@;
    let vals: Vec<u8> = vec![123, 34, 105, 109, 103, 95, 116, 121, 112, 101, 34, 58, 34];
    append_bytes(out, vals.as_slice());
    proof {
        assert(vals@ =~= lit_meta_open());
    }
}

/// The bytes of the JSON fragment `","width":`.
pub open spec fn lit_meta_width() -> Seq<u8> {
    seq![34u8, 44u8, 34u8, 119u8, 105u8, 100u8, 116u8, 104u8, 34u8, 58u8]
}

/// Append the JSON fragment `","width":`.
pub fn push_meta_width(out: &mut Vec<u8>)
    ensures
        final(out)@ == old(out)@ + lit_meta_width(),
{
    let ghost start = out@;
    let vals: Vec<u8> = vec![34, 44, 34, 119, 105, 100, 116, 104, 34, 58];
    append_bytes(out, vals.as_slice());
    proof {
        assert(vals@ =~= lit_meta_width());
    }
}

/// The bytes of the JSON fragment `,"height":`.
pub open spec fn lit_meta_height() -> Seq<u8> {
    seq![44u8, 34u8, 104u8, 101u8, 105u8, 103u8, 104u8, 116u8, 34u8, 58u8]
}

/// Append the JSON fragment `,"height":`.
pub fn push_meta_height(out: &mut Vec<u8>)
    ensures
        final(out)@ == old(out)@ + lit_meta_height(),
{
    let ghost start = out@;
    let vals: Vec<u8> = vec![44, 34, 104, 101, 105, 103, 104, 116, 34, 58];
    append_bytes(out, vals.as_slice());
    proof {
        assert(vals@ =~= lit_meta_height());
    }
}

/// The bytes of the JSON fragment `,"orig_size":`.
pub open spec fn lit_meta_orig_size() -> Seq<u8> {
    seq![44u8, 34u8, 111u8, 114u8, 105u8, 103u8, 95u8, 115u8, 105u8, 122u8, 101u8, 34u8, 58u8]
}

/// Append the JSON fragment `,"orig_size":`.
pub fn push_meta_orig_size(out: &mut Vec<u8>)
    ensures
        final(out)@ == old(out)@ + lit_meta_orig_size(),
{
    let ghost start = out@;
    let vals: Vec<u8> = vec![44, 34, 111, 114, 105, 103, 95, 115, 105, 122, 101, 34, 58];
    append_bytes(out, vals.as_slice());
    proof {
        assert(vals@ =~= lit_meta_orig_size());
    }
}

/// The bytes of the JSON fragment `,"orig_type":"`.
pub open spec fn lit_meta_orig_type() -> Seq<u8> {
    seq![44u8, 34u8, 111u8, 114u8, 105u8, 103u8, 95u8, 116u8, 121u8, 112u8, 101u8, 34u8, 58u8, 34u8]
}

/// Append the JSON fragment `,"orig_type":"`.
pub fn push_meta_orig_type(out: &mut Vec<u8>)
    ensures
        final(out)@ == old(out)@ + lit_meta_orig_type(),
{
    let ghost start = out@;
    let vals: Vec<u8> = vec![44, 34, 111, 114, 105, 103, 95, 116, 121, 112, 101, 34, 58, 34];
    append_bytes(out, vals.as_slice());
    proof {
        assert(vals@ =~= lit_meta_orig_type());
    }
}

/// The bytes of the JSON fragment `","orig_width":`.
pub open spec fn lit_meta_orig_width() -> Seq<u8> {
    seq![34u8, 44u8, 34u8, 111u8, 114u8, 105u8, 103u8, 95u8, 119u8, 105u8, 100u8, 116u8, 104u8, 34u8, 58u8]
}

/// Append the JSON fragment `","orig_width":`.
pub fn push_meta_orig_width(out: &mut Vec<u8>)
    ensures
        final(out)@ == old(out)@ + lit_meta_orig_width(),
{
    let ghost start = out@;
    let vals: Vec<u8> = vec![34, 44, 34, 111, 114, 105, 103, 95, 119, 105, 100, 116, 104, 34, 58];
    append_bytes(out, vals.as_slice());
    proof {
        assert(vals@ =~= lit_meta_orig_width());
    }
}

/// The bytes of the JSON fragment `,"orig_height":`.
pub open spec fn lit_meta_orig_height() -> Seq<u8> {
    seq![44u8, 34u8, 111u8, 114u8, 105u8, 103u8, 95u8, 104u8, 101u8, 105u8, 103u8, 104u8, 116u8, 34u8, 58u8]
}

/// Append the JSON fragment `,"orig_height":`.
pub fn push_meta_orig_height(out: &mut Vec<u8>)
    ensures
        final(out)@ == old(out)@ + lit_meta_orig_height(),
{
    let ghost start = out@;
    let vals: Vec<u8> = vec![44, 34, 111, 114, 105, 103, 95, 104, 101, 105, 103, 104, 116, 34, 58];
    append_bytes(out, vals.as_slice());
    proof {
        assert(vals@ =~= lit_meta_orig_height());
    }
}

/// The bytes of the JSON fragment `}`.
pub open spec fn lit_meta_close() -> Seq<u8> {
    seq![125u8]
}

/// Append the JSON fragment `}`.
pub fn push_meta_close(out: &mut Vec<u8>)
    ensures
        final(out)@ == old(out)@ + lit_meta_close(),
{
    let ghost start = out@;
    let vals: Vec<u8> = vec![125];
    append_bytes(out, vals.as_slice());
    proof {
        assert(vals@ =~= lit_meta_close());
    }
}


} // verus!
