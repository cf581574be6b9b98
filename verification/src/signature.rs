//! The signed-URL verifier: canonicalizes the request's path and query and
//! checks a detached HMAC-SHA-256 signature against the configured keys.
//!
//! The canonical message is `/<path>?<filtered-sorted-query>`: the query is
//! URL-decoded into pairs, every `s` pair (the signature parameter itself)
//! is dropped, the rest are sorted by key and re-encoded. A request verifies
//! exactly when its hex signature decodes and some configured key's tag over
//! the canonical message equals it.

use vstd::prelude::*;
use crate::hexcodec::from_hex;
use crate::hexcodec::hex_val;
use crate::hexcodec::is_hex_digit;
use crate::hexcodec::unhex;
use crate::image_types::bytes_eq;
use crate::jsontext::append_bytes;
use crate::outside::hmac_sha256_of;
use crate::outside::hmac_sha256_tag;

verus! {

/// One decoded query pair.
pub type Pair = (Seq<u8>, Seq<u8>);

/// URL-decode one byte string: `+` means space, `%` followed by two hex
/// digits means that byte, anything else stands for itself.
pub open spec fn pct_decode(s: Seq<u8>) -> Seq<u8>
    decreases s.len(),
{
    if s.len() == 0 {
        Seq::empty()
    } else if s[0] == 43 {
        seq![32u8] + pct_decode(s.drop_first())
    } else if s[0] == 37 && s.len() >= 3 && is_hex_digit(s[1]) && is_hex_digit(s[2]) {
        seq![(hex_val(s[1]) * 16 + hex_val(s[2])) as u8] + pct_decode(s.skip(3))
    } else {
        seq![s[0]] + pct_decode(s.drop_first())
    }
}

/// URL-decode a byte string.
pub fn pct_decode_exec(s: &[u8]) -> (r: Vec<u8>)
    ensures
        r@ == pct_decode(s@),
{
    let mut out: Vec<u8> = Vec::new();
    let mut i: usize = 0;
    proof {
        assert(s@.skip(0) =~= s@);
    }
    while i < s.len()
        invariant
            0 <= i <= s@.len(),
            pct_decode(s@) =~= out@ + pct_decode(s@.skip(i as int)),
        decreases s@.len() - i,
    {
        let ghost t = s@.skip(i as int);
        let b = s[i];
        proof {
            assert(t[0] == b);
        }
        if b == 43 {
            out.push(32);
            proof {
                assert(t.drop_first() =~= s@.skip(i + 1));
                assert(pct_decode(t) == seq![32u8] + pct_decode(s@.skip(i + 1)));
            }
            i += 1;
        } else if b == 37 && s.len() - i >= 3 && is_hex_exec(s[i + 1]) && is_hex_exec(
            s[i + 2],
        ) {
            proof {
                assert(t.len() >= 3);
                assert(t[1] == s@[i + 1] && t[2] == s@[i + 2]);
                assert(t.skip(3) =~= s@.skip(i + 3));
            }
            let hi = hex_val_exec(s[i + 1]);
            let lo = hex_val_exec(s[i + 2]);
            out.push(hi * 16 + lo);
            i += 3;
        } else {
            proof {
                if b == 37 {
                    assert(!(t.len() >= 3 && is_hex_digit(t[1]) && is_hex_digit(t[2])));
                }
                assert(t.drop_first() =~= s@.skip(i + 1));
                assert(pct_decode(t) == seq![b] + pct_decode(s@.skip(i + 1)));
            }
            out.push(b);
            i += 1;
        }
        proof {
            assert(pct_decode(s@) =~= out@ + pct_decode(s@.skip(i as int)));
        }
    }
    proof {
        assert(s@.skip(s@.len() as int).len() == 0);
        assert(pct_decode(s@) =~= out@);
    }
    out
}

/// Whether a byte is a hex digit, in executable form.
fn is_hex_exec(b: u8) -> (r: bool)
    ensures
        r == is_hex_digit(b),
{
    (b >= 48 && b <= 57) || (b >= 97 && b <= 102) || (b >= 65 && b <= 70)
}

/// The value of a hex digit, in executable form.
fn hex_val_exec(b: u8) -> (r: u8)
    requires
        is_hex_digit(b),
    ensures
        r == hex_val(b),
{
    if b >= 48 && b <= 57 {
        b - 48
    } else if b >= 97 && b <= 102 {
        b - 87
    } else {
        b - 55
    }
}

/// The index of the first occurrence of `b`, or the length when absent.
pub open spec fn scan_to(s: Seq<u8>, b: u8) -> nat
    decreases s.len(),
{
    if s.len() == 0 {
        0
    } else if s[0] == b {
        0
    } else {
        1 + scan_to(s.drop_first(), b)
    }
}

/// `scan_to` finds the first occurrence.
pub proof fn lemma_scan_to(s: Seq<u8>, b: u8)
    ensures
        scan_to(s, b) <= s.len(),
        forall|j: int| 0 <= j < scan_to(s, b) ==> s[j] != b,
        scan_to(s, b) < s.len() ==> s[scan_to(s, b) as int] == b,
    decreases s.len(),
{
    if s.len() > 0 && s[0] != b {
        let d = s.drop_first();
        lemma_scan_to(d, b);
        assert forall|j: int| 0 <= j < scan_to(s, b) implies s[j] != b by {
            if j > 0 {
                assert(s[j] == d[j - 1]);
            }
        }
        if scan_to(s, b) < s.len() {
            assert(s[scan_to(s, b) as int] == d[scan_to(d, b) as int]);
        }
    }
}

/// Find the first occurrence of `b` at or after `pos`.
pub fn find_byte(s: &[u8], pos: usize, b: u8) -> (r: usize)
    requires
        pos <= s@.len(),
    ensures
        r - pos == scan_to(s@.skip(pos as int), b),
        pos <= r <= s@.len(),
{
    let mut i: usize = pos;
    while i < s.len()
        invariant
            pos <= i <= s@.len(),
            forall|j: int| pos <= j < i ==> s@[j] != b,
        decreases s@.len() - i,
    {
        if s[i] == b {
            proof {
                lemma_scan_found(s@.skip(pos as int), b, (i - pos) as int);
            }
            return i;
        }
        i += 1;
    }
    proof {
        lemma_scan_found(s@.skip(pos as int), b, (i - pos) as int);
    }
    i
}

/// When everything before `k` differs from `b`, and `k` is the end or holds
/// `b`, the scan stops at `k`.
proof fn lemma_scan_found(s: Seq<u8>, b: u8, k: int)
    requires
        0 <= k <= s.len(),
        forall|j: int| 0 <= j < k ==> s[j] != b,
        k == s.len() || s[k] == b,
    ensures
        scan_to(s, b) == k,
    decreases k,
{
    if k > 0 {
        let d = s.drop_first();
        assert(forall|j: int| 1 <= j < s.len() ==> s[j] == #[trigger] d[j - 1]);
        lemma_scan_found(d, b, k - 1);
    }
}

/// Split one `key=value` segment and decode both sides; a segment without
/// `=` is a key with an empty value.
pub open spec fn split_pair(seg: Seq<u8>) -> Pair {
    let j = scan_to(seg, 61) as int;
    if j < seg.len() {
        (pct_decode(seg.take(j)), pct_decode(seg.skip(j + 1)))
    } else {
        (pct_decode(seg), Seq::empty())
    }
}

/// Parse a raw query into decoded pairs: split on `&`, skip empty
/// segments, split each segment at its first `=`.
pub open spec fn parse_query(s: Seq<u8>) -> Seq<Pair>
    decreases s.len(),
{
    if s.len() == 0 {
        Seq::empty()
    } else {
        let i = scan_to(s, 38) as int;
        let seg = s.take(i);
        let rest = if i < s.len() {
            s.skip(i + 1)
        } else {
            Seq::empty()
        };
        if seg.len() == 0 {
            parse_query(rest)
        } else {
            seq![split_pair(seg)] + parse_query(rest)
        }
    }
}

/// The pairs with the signature parameter `s` (one lowercase letter as a
/// key) removed.
pub open spec fn drop_sig(pairs: Seq<Pair>) -> Seq<Pair>
    decreases pairs.len(),
{
    if pairs.len() == 0 {
        Seq::empty()
    } else if pairs[0].0 == seq![115u8] {
        drop_sig(pairs.drop_first())
    } else {
        seq![pairs[0]] + drop_sig(pairs.drop_first())
    }
}

/// Byte-string order, lexicographic with shorter prefixes first.
pub open spec fn bytes_le(a: Seq<u8>, b: Seq<u8>) -> bool
    decreases a.len(),
{
    if a.len() == 0 {
        true
    } else if b.len() == 0 {
        false
    } else if a[0] < b[0] {
        true
    } else if a[0] > b[0] {
        false
    } else {
        bytes_le(a.drop_first(), b.drop_first())
    }
}

/// The order is total.
pub proof fn lemma_bytes_le_total(a: Seq<u8>, b: Seq<u8>)
    ensures
        bytes_le(a, b) || bytes_le(b, a),
    decreases a.len(),
{
    if a.len() > 0 && b.len() > 0 && a[0] == b[0] {
        lemma_bytes_le_total(a.drop_first(), b.drop_first());
    }
}

/// The order is transitive.
pub proof fn lemma_bytes_le_trans(a: Seq<u8>, b: Seq<u8>, c: Seq<u8>)
    requires
        bytes_le(a, b),
        bytes_le(b, c),
    ensures
        bytes_le(a, c),
    decreases a.len(),
{
    if a.len() > 0 && b.len() > 0 && c.len() > 0 && a[0] == b[0] && b[0] == c[0] {
        lemma_bytes_le_trans(a.drop_first(), b.drop_first(), c.drop_first());
    }
}

/// Place a pair into a sorted list, after every pair whose key is not
/// larger; a stable insertion.
pub open spec fn place(s: Seq<Pair>, x: Pair) -> Seq<Pair>
    decreases s.len(),
{
    if s.len() == 0 {
        seq![x]
    } else if bytes_le(s[0].0, x.0) {
        seq![s[0]] + place(s.drop_first(), x)
    } else {
        seq![x] + s
    }
}

/// Sort pairs by key, ascending and stable: each pair in turn is placed
/// after the already-sorted pairs whose keys are not larger.
pub open spec fn sort_pairs(s: Seq<Pair>) -> Seq<Pair>
    decreases s.len(),
{
    if s.len() == 0 {
        Seq::empty()
    } else {
        place(sort_pairs(s.drop_last()), s.last())
    }
}

/// The byte a pair encoder leaves unchanged: ASCII alphanumerics and
/// `*`, `-`, `.`, `_`.
pub open spec fn enc_plain(b: u8) -> bool {
    b == 42 || b == 45 || b == 46 || (48 <= b <= 57) || (65 <= b <= 90) || b == 95 || (97 <= b
        <= 122)
}

/// URL-encode one byte: space becomes `+`, plain bytes stand for
/// themselves, everything else becomes `%XX` with uppercase hex.
pub open spec fn enc_byte(b: u8) -> Seq<u8> {
    if b == 32 {
        seq![43u8]
    } else if enc_plain(b) {
        seq![b]
    } else {
        seq![37u8, hex_digit_upper((b / 16) as nat), hex_digit_upper((b % 16) as nat)]
    }
}

/// The uppercase hex digit for a value below 16.
pub open spec fn hex_digit_upper(v: nat) -> u8 {
    if v < 10 {
        (48 + v) as u8
    } else {
        (55 + v) as u8
    }
}

/// URL-encode a byte string.
pub open spec fn enc(s: Seq<u8>) -> Seq<u8>
    decreases s.len(),
{
    if s.len() == 0 {
        Seq::empty()
    } else {
        enc(s.drop_last()) + enc_byte(s.last())
    }
}

/// The serialization of the sorted pairs: `k=v` joined by `&`.
pub open spec fn enc_pairs(pairs: Seq<Pair>) -> Seq<u8>
    decreases pairs.len(),
{
    if pairs.len() == 0 {
        Seq::empty()
    } else if pairs.len() == 1 {
        enc(pairs[0].0) + seq![61u8] + enc(pairs[0].1)
    } else {
        enc_pairs(pairs.drop_last()) + seq![38u8] + enc(pairs.last().0) + seq![61u8] + enc(
            pairs.last().1,
        )
    }
}

/// The canonical message that is signed: the path (with a leading slash
/// supplied if missing), a `?`, and the filtered, sorted, re-encoded query.
pub open spec fn canonical_message(path: Seq<u8>, query: Option<Seq<u8>>) -> Seq<u8> {
    let p = if path.len() == 0 || path[0] != 47 {
        seq![47u8] + path
    } else {
        path
    };
    let base = p + seq![63u8];
    match query {
        Option::None => base,
        Option::Some(q) => {
            let pairs = drop_sig(parse_query(q));
            if pairs.len() == 0 {
                base
            } else {
                base + enc_pairs(sort_pairs(pairs))
            }
        },
    }
}

/// The decoded pairs held by an executable pair list.
pub open spec fn view_pairs(v: Seq<(Vec<u8>, Vec<u8>)>) -> Seq<Pair> {
    v.map_values(|p: (Vec<u8>, Vec<u8>)| (p.0@, p.1@))
}

/// Parse a raw query into decoded pairs.
fn parse_query_exec(s: &[u8]) -> (r: Vec<(Vec<u8>, Vec<u8>)>)
    ensures
        view_pairs(r@) == parse_query(s@),
{
    let mut out: Vec<(Vec<u8>, Vec<u8>)> = Vec::new();
    let mut pos: usize = 0;
    let ghost whole = s@;
    proof {
        assert(whole.skip(0) =~= whole);
        assert(view_pairs(out@) =~= Seq::<Pair>::empty());
    }
    while pos < s.len()
        invariant
            0 <= pos <= whole.len(),
            s@ == whole,
            parse_query(whole) == view_pairs(out@) + parse_query(whole.skip(pos as int)),
        decreases whole.len() - pos,
    {
        let ghost t = whole.skip(pos as int);
        let amp = find_byte(s, pos, 38);
        proof {
            lemma_scan_to(t, 38);
            assert(t.take(amp - pos) =~= whole.subrange(pos as int, amp as int));
        }
        let ghost seg = t.take(amp - pos);
        if amp == pos {
            // empty segment
            proof {
                assert(seg.len() == 0);
                if amp < whole.len() {
                    assert(t.skip(amp - pos + 1) =~= whole.skip(amp + 1));
                }
            }
            pos = amp + 1;
            proof {
                if pos <= whole.len() {
                    assert(parse_query(whole) == view_pairs(out@) + parse_query(
                        whole.skip(pos as int),
                    ));
                }
            }
        } else {
            // split the segment at its first '='
            let eq = find_byte(s, pos, 61);
            let ghost j = scan_to(seg, 61) as int;
            proof {
                lemma_scan_to(whole.skip(pos as int), 61);
                if eq < amp {
                    lemma_scan_within(t, 61, (eq - pos) as int, (amp - pos) as int);
                } else {
                    lemma_scan_beyond(t, 61, (amp - pos) as int, (eq - pos) as int);
                }
            }
            let key_end = if eq < amp {
                eq
            } else {
                amp
            };
            let key_raw = vstd::slice::slice_subrange(s, pos, key_end);
            let key = pct_decode_exec(key_raw);
            let value = if eq < amp {
                let val_raw = vstd::slice::slice_subrange(s, eq + 1, amp);
                pct_decode_exec(val_raw)
            } else {
                Vec::new()
            };
            proof {
                if eq < amp {
                    assert(seg.take(j) =~= whole.subrange(pos as int, eq as int));
                    assert(seg.skip(j + 1) =~= whole.subrange(pos as int + j + 1, amp as int));
                    assert(whole.subrange(eq + 1, amp as int) =~= whole.subrange(
                        pos as int + j + 1,
                        amp as int,
                    ));
                } else {
                    assert(seg =~= whole.subrange(pos as int, amp as int));
                }
                assert((key@, value@) == split_pair(seg));
            }
            let ghost out_before = view_pairs(out@);
            out.push((key, value));
            proof {
                assert(view_pairs(out@) =~= out_before + seq![(key@, value@)]);
                if amp < whole.len() {
                    assert(t.skip(amp - pos + 1) =~= whole.skip(amp + 1));
                }
                assert(parse_query(t) == seq![split_pair(seg)] + parse_query(
                    if amp < whole.len() {
                        whole.skip(amp + 1)
                    } else {
                        Seq::<u8>::empty()
                    },
                ));
            }
            if amp == s.len() {
                pos = amp;
                proof {
                    assert(whole.skip(pos as int).len() == 0);
                    assert(parse_query(whole) =~= view_pairs(out@) + parse_query(
                        whole.skip(pos as int),
                    ));
                }
            } else {
                pos = amp + 1;
                proof {
                    assert(parse_query(whole) =~= view_pairs(out@) + parse_query(
                        whole.skip(pos as int),
                    ));
                }
            }
        }
    }
    proof {
        assert(whole.skip(pos as int).len() == 0);
        assert(parse_query(whole) =~= view_pairs(out@));
    }
    out
}

/// When `b` occurs inside the first `m` bytes at offset `k`, the scan of
/// the prefix stops at `k` too.
proof fn lemma_scan_within(t: Seq<u8>, b: u8, k: int, m: int)
    requires
        0 <= k < m <= t.len(),
        scan_to(t, b) == k,
    ensures
        scan_to(t.take(m), b) == k,
{
    lemma_scan_to(t, b);
    assert(forall|j: int| 0 <= j < k ==> t.take(m)[j] == t[j]);
    assert(t.take(m)[k] == t[k]);
    lemma_scan_found(t.take(m), b, k);
}

/// When the first occurrence of `b` lies at or beyond `m`, the first `m`
/// bytes hold none.
proof fn lemma_scan_beyond(t: Seq<u8>, b: u8, m: int, k: int)
    requires
        0 <= m <= k <= t.len(),
        scan_to(t, b) == k,
        m <= t.len(),
    ensures
        scan_to(t.take(m), b) == m,
{
    lemma_scan_to(t, b);
    assert(forall|j: int| 0 <= j < m ==> t.take(m)[j] == t[j]);
    lemma_scan_found(t.take(m), b, m);
}


/// Drop the signature parameter from an executable pair list.
fn drop_sig_exec(pairs: &Vec<(Vec<u8>, Vec<u8>)>) -> (r: Vec<(Vec<u8>, Vec<u8>)>)
    ensures
        view_pairs(r@) == drop_sig(view_pairs(pairs@)),
{
    let ghost vp = view_pairs(pairs@);
    let mut out: Vec<(Vec<u8>, Vec<u8>)> = Vec::new();
    let mut i: usize = 0;
    proof {
        assert(vp.skip(0) =~= vp);
        assert(view_pairs(out@) =~= Seq::<Pair>::empty());
    }
    while i < pairs.len()
        invariant
            0 <= i <= vp.len(),
            vp.len() == pairs@.len(),
            vp == view_pairs(pairs@),
            drop_sig(vp) == view_pairs(out@) + drop_sig(vp.skip(i as int)),
        decreases vp.len() - i,
    {
        let ghost t = vp.skip(i as int);
        proof {
            assert(t[0] == vp[i as int]);
            assert(vp[i as int] == (pairs@[i as int].0@, pairs@[i as int].1@));
            assert(t.drop_first() =~= vp.skip(i + 1));
        }
        let is_sig = pairs[i].0.len() == 1 && pairs[i].0[0] == 115;
        proof {
            if is_sig {
                assert(pairs@[i as int].0@ =~= seq![115u8]);
            } else {
                if pairs@[i as int].0@ == seq![115u8] {
                    assert(pairs@[i as int].0@.len() == 1);
                    assert(pairs@[i as int].0@[0] == 115);
                }
            }
        }
        if !is_sig {
            let key = crate::image_types::clone_bytes(&pairs[i].0);
            let value = crate::image_types::clone_bytes(&pairs[i].1);
            let ghost before = view_pairs(out@);
            out.push((key, value));
            proof {
                assert(view_pairs(out@) =~= before + seq![vp[i as int]]);
            }
        }
        i += 1;
        proof {
            assert(drop_sig(vp) =~= view_pairs(out@) + drop_sig(vp.skip(i as int)));
        }
    }
    proof {
        assert(vp.skip(vp.len() as int).len() == 0);
        assert(drop_sig(vp) =~= view_pairs(out@));
    }
    out
}

/// Compare two byte strings in the key order.
fn bytes_le_exec(a: &[u8], b: &[u8]) -> (r: bool)
    ensures
        r == bytes_le(a@, b@),
{
    let mut i: usize = 0;
    proof {
        assert(a@.skip(0) =~= a@);
        assert(b@.skip(0) =~= b@);
    }
    while i < a.len() && i < b.len()
        invariant
            0 <= i <= a@.len(),
            0 <= i <= b@.len(),
            bytes_le(a@, b@) == bytes_le(a@.skip(i as int), b@.skip(i as int)),
        decreases a@.len() - i,
    {
        let ghost ta = a@.skip(i as int);
        let ghost tb = b@.skip(i as int);
        proof {
            assert(ta[0] == a@[i as int] && tb[0] == b@[i as int]);
            assert(ta.drop_first() =~= a@.skip(i + 1));
            assert(tb.drop_first() =~= b@.skip(i + 1));
        }
        if a[i] < b[i] {
            return true;
        }
        if a[i] > b[i] {
            return false;
        }
        i += 1;
    }
    proof {
        if i >= a@.len() {
            assert(a@.skip(i as int).len() == 0);
        } else {
            assert(b@.skip(i as int).len() == 0);
            assert(a@.skip(i as int).len() > 0);
        }
    }
    i >= a.len()
}

/// Where `place` puts the new pair: after the longest prefix of keys that
/// are not larger.
proof fn lemma_place_at(s: Seq<Pair>, x: Pair, idx: int)
    requires
        0 <= idx <= s.len(),
        forall|j: int| 0 <= j < idx ==> bytes_le(s[j].0, x.0),
        idx == s.len() || !bytes_le(s[idx].0, x.0),
    ensures
        place(s, x) == s.take(idx) + seq![x] + s.skip(idx),
    decreases idx,
{
    if s.len() == 0 {
        assert(place(s, x) =~= s.take(idx) + seq![x] + s.skip(idx));
    } else if idx == 0 {
        assert(place(s, x) =~= s.take(0) + seq![x] + s.skip(0));
    } else {
        let d = s.drop_first();
        assert(forall|j: int| 1 <= j < s.len() ==> s[j] == #[trigger] d[j - 1]);
        lemma_place_at(d, x, idx - 1);
        assert(bytes_le(s[0].0, x.0));
        assert(place(s, x) == seq![s[0]] + place(d, x));
        assert(seq![s[0]] + (d.take(idx - 1) + seq![x] + d.skip(idx - 1)) =~= s.take(idx)
            + seq![x] + s.skip(idx));
    }
}

/// Insert a pair into an already-sorted executable pair list, keeping the
/// model in step with `place`.
fn place_exec(v: Vec<(Vec<u8>, Vec<u8>)>, x: (Vec<u8>, Vec<u8>)) -> (r: Vec<(Vec<u8>, Vec<u8>)>)
    ensures
        view_pairs(r@) == place(view_pairs(v@), (x.0@, x.1@)),
{
    let mut out = v;
    let ghost s = view_pairs(out@);
    let ghost xv = (x.0@, x.1@);
    let mut idx: usize = 0;
    loop
        invariant
            0 <= idx <= s.len(),
            s.len() == out@.len(),
            s == view_pairs(out@),
            xv == (x.0@, x.1@),
            forall|j: int| 0 <= j < idx ==> bytes_le(s[j].0, xv.0),
        ensures
            0 <= idx <= s.len(),
            s == view_pairs(out@),
            forall|j: int| 0 <= j < idx ==> bytes_le(s[j].0, xv.0),
            idx == s.len() || !bytes_le(s[idx as int].0, xv.0),
        decreases s.len() - idx,
    {
        if idx >= out.len() {
            break;
        }
        proof {
            assert(s[idx as int] == (out@[idx as int].0@, out@[idx as int].1@));
        }
        let le = bytes_le_exec(out[idx].0.as_slice(), x.0.as_slice());
        proof {
            assert(le == bytes_le(s[idx as int].0, xv.0));
        }
        if !le {
            break;
        }
        idx += 1;
    }
    proof {
        lemma_place_at(s, xv, idx as int);
    }
    out.insert(idx, x);
    proof {
        assert(view_pairs(out@) =~= s.take(idx as int) + seq![xv] + s.skip(idx as int));
    }
    out
}

/// Sort an executable pair list by key, stable and ascending.
fn sort_pairs_exec(pairs: Vec<(Vec<u8>, Vec<u8>)>) -> (r: Vec<(Vec<u8>, Vec<u8>)>)
    ensures
        view_pairs(r@) == sort_pairs(view_pairs(pairs@)),
{
    let ghost vp = view_pairs(pairs@);
    let mut out: Vec<(Vec<u8>, Vec<u8>)> = Vec::new();
    let mut i: usize = 0;
    proof {
        assert(vp.take(0) =~= Seq::<Pair>::empty());
        assert(view_pairs(out@) =~= Seq::<Pair>::empty());
    }
    while i < pairs.len()
        invariant
            0 <= i <= vp.len(),
            vp.len() == pairs@.len(),
            vp == view_pairs(pairs@),
            view_pairs(out@) == sort_pairs(vp.take(i as int)),
        decreases vp.len() - i,
    {
        let key = crate::image_types::clone_bytes(&pairs[i].0);
        let value = crate::image_types::clone_bytes(&pairs[i].1);
        proof {
            assert(vp[i as int] == (pairs@[i as int].0@, pairs@[i as int].1@));
            assert(vp.take(i + 1).drop_last() =~= vp.take(i as int));
            assert(vp.take(i + 1).last() == vp[i as int]);
        }
        out = place_exec(out, (key, value));
        i += 1;
    }
    proof {
        assert(vp.take(vp.len() as int) =~= vp);
    }
    out
}

/// Append the URL encoding of a byte string.
fn enc_exec(out: &mut Vec<u8>, s: &[u8])
    ensures
        final(out)@ == old(out)@ + enc(s@),
{
    let mut i: usize = 0;
    while i < s.len()
        invariant
            0 <= i <= s@.len(),
            out@ =~= old(out)@ + enc(s@.take(i as int)),
        decreases s@.len() - i,
    {
        let b = s[i];
        let ghost before = out@;
        if b == 32 {
            out.push(43);
        } else if b == 42 || b == 45 || b == 46 || (b >= 48 && b <= 57) || (b >= 65 && b <= 90)
            || b == 95 || (b >= 97 && b <= 122) {
            out.push(b);
        } else {
            out.push(37);
            out.push(hex_upper(b / 16));
            out.push(hex_upper(b % 16));
        }
        proof {
            assert(out@ =~= before + enc_byte(b));
            assert(s@.take(i + 1).drop_last() =~= s@.take(i as int));
            assert(s@.take(i + 1).last() == b);
            assert(out@ =~= old(out)@ + enc(s@.take(i + 1)));
        }
        i += 1;
    }
    proof {
        assert(s@.take(s@.len() as int) =~= s@);
    }
}

/// The uppercase hex digit for a value below 16.
fn hex_upper(v: u8) -> (r: u8)
    requires
        v < 16,
    ensures
        r == hex_digit_upper(v as nat),
{
    if v < 10 {
        48 + v
    } else {
        55 + v
    }
}

/// Append the serialization of the sorted pairs.
fn enc_pairs_exec(out: &mut Vec<u8>, pairs: &Vec<(Vec<u8>, Vec<u8>)>)
    ensures
        final(out)@ == old(out)@ + enc_pairs(view_pairs(pairs@)),
{
    let ghost vp = view_pairs(pairs@);
    let mut i: usize = 0;
    proof {
        assert(enc_pairs(vp.take(0)) =~= Seq::<u8>::empty());
        assert(out@ =~= old(out)@ + enc_pairs(vp.take(0)));
    }
    while i < pairs.len()
        invariant
            0 <= i <= vp.len(),
            vp.len() == pairs@.len(),
            vp == view_pairs(pairs@),
            out@ =~= old(out)@ + enc_pairs(vp.take(i as int)),
        decreases vp.len() - i,
    {
        proof {
            assert(vp[i as int] == (pairs@[i as int].0@, pairs@[i as int].1@));
            assert(vp.take(i + 1).drop_last() =~= vp.take(i as int));
            assert(vp.take(i + 1).last() == vp[i as int]);
        }
        if i > 0 {
            out.push(38);
        }
        enc_exec(out, pairs[i].0.as_slice());
        out.push(61);
        enc_exec(out, pairs[i].1.as_slice());
        proof {
            assert(out@ =~= old(out)@ + enc_pairs(vp.take(i + 1)));
        }
        i += 1;
    }
    proof {
        assert(vp.take(vp.len() as int) =~= vp);
    }
}

/// Build the canonical message for a path and an optional raw query.
pub fn get_message(path: &[u8], query: Option<&[u8]>) -> (r: Vec<u8>)
    ensures
        r@ == canonical_message(
            path@,
            match query {
                Option::Some(q) => Option::Some(q@),
                Option::None => Option::None,
            },
        ),
{
    let mut out: Vec<u8> = Vec::new();
    if path.len() == 0 || path[0] != 47 {
        out.push(47);
    }
    append_bytes(&mut out, path);
    out.push(63);
    let ghost base = out@;
    match query {
        Option::Some(q) => {
            let pairs = parse_query_exec(q);
            let filtered = drop_sig_exec(&pairs);
            if filtered.len() > 0 {
                let sorted = sort_pairs_exec(filtered);
                enc_pairs_exec(&mut out, &sorted);
            }
            proof {
                assert(out@ =~= canonical_message(path@, Option::Some(q@)));
            }
        },
        Option::None => {
            proof {
                assert(out@ =~= canonical_message(path@, Option::None));
            }
        },
    }
    out
}

/// Why a signed request was rejected.
#[derive(Clone, Copy, Debug, PartialEq, Eq, Structural)]
pub enum SignatureError {
    /// A configured key is not valid hex; fatal at construction.
    BadKeyHex,
    /// The provided signature is not valid hex.
    BadSignatureHex,
    /// No configured key's tag over the canonical message matches.
    Unverified,
}

/// The signed-URL verifier: the configured HMAC-SHA-256 keys.
pub struct Verifier {
    keys: Vec<Vec<u8>>,
}

impl Verifier {
    /// The configured keys.
    pub closed spec fn keys_model(&self) -> Seq<Seq<u8>> {
        self.keys@.map_values(|k: Vec<u8>| k@)
    }

    /// Build a verifier from hex-encoded keys; rejected when any key is not
    /// valid hex.
    pub fn new(keys_hex: &Vec<Vec<u8>>) -> (r: Result<Verifier, SignatureError>)
        ensures
            match r {
                Ok(v) => {
                    &&& v.keys_model().len() == keys_hex@.len()
                    &&& forall|i: int|
                        0 <= i < keys_hex@.len() ==> unhex(keys_hex@[i]@) == Some(
                            #[trigger] v.keys_model()[i],
                        )
                },
                Err(e) => e == SignatureError::BadKeyHex && exists|i: int|
                    0 <= i < keys_hex@.len() && unhex(#[trigger] keys_hex@[i]@) is None,
            },
    {
        let mut keys: Vec<Vec<u8>> = Vec::new();
        let mut i: usize = 0;
        while i < keys_hex.len()
            invariant
                0 <= i <= keys_hex@.len(),
                keys@.len() == i,
                forall|j: int|
                    0 <= j < i ==> unhex(keys_hex@[j]@) == Some(#[trigger] keys@[j]@),
            decreases keys_hex@.len() - i,
        {
            match from_hex(keys_hex[i].as_slice()) {
                Some(k) => {
                    keys.push(k);
                },
                None => {
                    return Err(SignatureError::BadKeyHex);
                },
            }
            i += 1;
        }
        let v = Verifier { keys };
        proof {
            assert(forall|j: int|
                0 <= j < v.keys_model().len() ==> v.keys_model()[j] == #[trigger] v.keys@[j]@);
        }
        Ok(v)
    }

    /// Verify a detached hex signature over the canonical message of the
    /// path and raw query. Accepts exactly when the signature decodes and
    /// some configured key's tag over the canonical message equals it.
    pub fn verify(&self, path: &[u8], query: Option<&[u8]>, hex_sig: &[u8]) -> (r: Result<
        (),
        SignatureError,
    >)
        ensures
            ({
                let msg = canonical_message(
                    path@,
                    match query {
                        Option::Some(q) => Option::Some(q@),
                        Option::None => Option::None,
                    },
                );
                match r {
                    Ok(u) => match unhex(hex_sig@) {
                        Some(sg) => exists|i: int|
                            0 <= i < self.keys_model().len() && hmac_sha256_of(
                                #[trigger] self.keys_model()[i],
                                msg,
                            ) == sg,
                        None => false,
                    },
                    Err(SignatureError::BadSignatureHex) => unhex(hex_sig@) is None,
                    Err(SignatureError::Unverified) => match unhex(hex_sig@) {
                        Some(sg) => forall|i: int|
                            0 <= i < self.keys_model().len() ==> hmac_sha256_of(
                                #[trigger] self.keys_model()[i],
                                msg,
                            ) != sg,
                        None => false,
                    },
                    Err(SignatureError::BadKeyHex) => false,
                }
            }),
    {
        let msg = get_message(path, query);
        let sig = match from_hex(hex_sig) {
            Some(sg) => sg,
            None => {
                return Err(SignatureError::BadSignatureHex);
            },
        };
        let mut i: usize = 0;
        while i < self.keys.len()
            invariant
                0 <= i <= self.keys_model().len(),
                self.keys_model().len() == self.keys@.len(),
                unhex(hex_sig@) == Some(sig@),
                msg@ == canonical_message(
                    path@,
                    match query {
                        Option::Some(q) => Option::Some(q@),
                        Option::None => Option::None,
                    },
                ),
                forall|j: int|
                    0 <= j < i ==> hmac_sha256_of(#[trigger] self.keys_model()[j], msg@) != sig@,
            decreases self.keys@.len() - i,
        {
            let tag = hmac_sha256_tag(self.keys[i].as_slice(), msg.as_slice());
            proof {
                assert(self.keys_model()[i as int] == self.keys@[i as int]@);
            }
            if bytes_eq(tag.as_slice(), sig.as_slice()) {
                return Ok(());
            }
            i += 1;
        }
        Err(SignatureError::Unverified)
    }
}

// --- the laws of the canonical message ---

/// No two pairs share a key.
pub open spec fn distinct_keys(pairs: Seq<Pair>) -> bool {
    forall|i: int, j: int| 0 <= i < j < pairs.len() ==> pairs[i].0 != pairs[j].0
}

/// Whether a pair list is sorted by key.
pub open spec fn sorted_pairs(pairs: Seq<Pair>) -> bool {
    forall|i: int, j: int| 0 <= i < j < pairs.len() ==> bytes_le(pairs[i].0, pairs[j].0)
}

/// The key order is reflexive.
proof fn lemma_bytes_le_refl(a: Seq<u8>)
    ensures
        bytes_le(a, a),
    decreases a.len(),
{
    if a.len() > 0 {
        lemma_bytes_le_refl(a.drop_first());
    }
}

/// The key order is antisymmetric: mutual order means equality.
proof fn lemma_bytes_le_antisym(a: Seq<u8>, b: Seq<u8>)
    requires
        bytes_le(a, b),
        bytes_le(b, a),
    ensures
        a == b,
    decreases a.len(),
{
    if a.len() == 0 {
        assert(b.len() == 0);
        assert(a =~= b);
    } else {
        assert(b.len() > 0);
        assert(a[0] == b[0]);
        lemma_bytes_le_antisym(a.drop_first(), b.drop_first());
        assert(seq![a[0]] + a.drop_first() =~= a);
        assert(seq![b[0]] + b.drop_first() =~= b);
    }
}

/// Placing adds exactly the new pair to the list's contents.
proof fn lemma_place_multiset(s: Seq<Pair>, x: Pair)
    ensures
        place(s, x).to_multiset() == s.to_multiset().insert(x),
        place(s, x).len() == s.len() + 1,
    decreases s.len(),
{
    broadcast use vstd::seq_lib::group_to_multiset_ensures;
    broadcast use vstd::multiset::group_multiset_axioms;

    if s.len() == 0 {
        assert(place(s, x) =~= Seq::<Pair>::empty().push(x));
        assert(Seq::<Pair>::empty().push(x).to_multiset() =~= Seq::<
            Pair,
        >::empty().to_multiset().insert(x));
        assert(s.to_multiset() =~= Seq::<Pair>::empty().to_multiset());
    } else if bytes_le(s[0].0, x.0) {
        let d = s.drop_first();
        lemma_place_multiset(d, x);
        assert(place(s, x) == seq![s[0]] + place(d, x));
        lemma_cons_multiset(s[0], place(d, x));
        lemma_cons_multiset(s[0], d);
        assert(seq![s[0]] + d =~= s);
        assert forall|y: Pair| place(s, x).to_multiset().count(y) == s.to_multiset().insert(
            x,
        ).count(y) by {
        }
        assert(place(s, x).to_multiset() =~= s.to_multiset().insert(x));
    } else {
        assert(place(s, x) == seq![x] + s);
        lemma_cons_multiset(x, s);
        assert(place(s, x).to_multiset() =~= s.to_multiset().insert(x));
    }
}

/// Prepending one element inserts it into the contents.
proof fn lemma_cons_multiset(x: Pair, s: Seq<Pair>)
    ensures
        (seq![x] + s).to_multiset() == s.to_multiset().insert(x),
        (seq![x] + s).len() == s.len() + 1,
    decreases s.len(),
{
    broadcast use vstd::seq_lib::group_to_multiset_ensures;
    broadcast use vstd::multiset::group_multiset_axioms;

    if s.len() == 0 {
        assert(seq![x] + s =~= Seq::<Pair>::empty().push(x));
        assert(Seq::<Pair>::empty().push(x).to_multiset() =~= s.to_multiset().insert(x));
    } else {
        let d = s.drop_last();
        lemma_cons_multiset(x, d);
        assert((seq![x] + d).push(s.last()) =~= seq![x] + s);
        assert((seq![x] + s).to_multiset() == (seq![x] + d).to_multiset().insert(s.last()));
        assert(d.push(s.last()) =~= s);
        assert(s.to_multiset() == d.to_multiset().insert(s.last()));
        assert forall|y: Pair| (seq![x] + s).to_multiset().count(y) == s.to_multiset().insert(
            x,
        ).count(y) by {
        }
        assert((seq![x] + s).to_multiset() =~= s.to_multiset().insert(x));
    }
}

/// Sorting keeps exactly the given pairs.
proof fn lemma_sort_multiset(s: Seq<Pair>)
    ensures
        sort_pairs(s).to_multiset() == s.to_multiset(),
        sort_pairs(s).len() == s.len(),
    decreases s.len(),
{
    broadcast use vstd::seq_lib::group_to_multiset_ensures;
    broadcast use vstd::multiset::group_multiset_axioms;

    if s.len() > 0 {
        let d = s.drop_last();
        lemma_sort_multiset(d);
        lemma_place_multiset(sort_pairs(d), s.last());
        assert(d.push(s.last()) =~= s);
        assert(s.to_multiset() == d.to_multiset().insert(s.last()));
    }
}

/// Every element of a placed list is the new pair or one of the old ones.
proof fn lemma_place_member(s: Seq<Pair>, x: Pair, i: int)
    requires
        0 <= i < place(s, x).len(),
    ensures
        place(s, x)[i] == x || s.contains(place(s, x)[i]),
    decreases s.len(),
{
    lemma_place_multiset(s, x);
    if s.len() == 0 {
    } else if bytes_le(s[0].0, x.0) {
        let d = s.drop_first();
        assert(place(s, x) == seq![s[0]] + place(d, x));
        if i == 0 {
            assert(place(s, x)[0] == s[0]);
            assert(s[0] == s[0]);
        } else {
            lemma_place_member(d, x, i - 1);
            assert(place(s, x)[i] == place(d, x)[i - 1]);
            if d.contains(place(d, x)[i - 1]) {
                let j = choose|j: int| 0 <= j < d.len() && d[j] == place(d, x)[i - 1];
                assert(s[j + 1] == d[j]);
            }
        }
    } else {
        assert(place(s, x) == seq![x] + s);
        if i > 0 {
            assert(place(s, x)[i] == s[i - 1]);
        }
    }
}

/// Placing into a sorted list keeps it sorted.
proof fn lemma_place_sorted(s: Seq<Pair>, x: Pair)
    requires
        sorted_pairs(s),
    ensures
        sorted_pairs(place(s, x)),
    decreases s.len(),
{
    if s.len() == 0 {
    } else if bytes_le(s[0].0, x.0) {
        let d = s.drop_first();
        assert(forall|j: int| 1 <= j < s.len() ==> s[j] == #[trigger] d[j - 1]);
        assert(sorted_pairs(d));
        lemma_place_sorted(d, x);
        let f = place(s, x);
        assert(f == seq![s[0]] + place(d, x));
        assert forall|i: int, j: int| 0 <= i < j < f.len() implies bytes_le(
            f[i].0,
            f[j].0,
        ) by {
            if i == 0 {
                assert(f[j] == place(d, x)[j - 1]);
                lemma_place_member(d, x, j - 1);
                if place(d, x)[j - 1] == x {
                    assert(bytes_le(s[0].0, x.0));
                } else {
                    let m = choose|m: int| 0 <= m < d.len() && d[m] == place(d, x)[j - 1];
                    assert(bytes_le(s[0].0, s[m + 1].0));
                }
            } else {
                assert(f[i] == place(d, x)[i - 1] && f[j] == place(d, x)[j - 1]);
            }
        }
    } else {
        let f = place(s, x);
        assert(f == seq![x] + s);
        lemma_bytes_le_total(s[0].0, x.0);
        assert(bytes_le(x.0, s[0].0));
        assert forall|i: int, j: int| 0 <= i < j < f.len() implies bytes_le(
            f[i].0,
            f[j].0,
        ) by {
            if i == 0 {
                assert(f[j] == s[j - 1]);
                if j == 1 {
                } else {
                    lemma_bytes_le_trans(x.0, s[0].0, s[j - 1].0);
                }
            } else {
                assert(f[i] == s[i - 1] && f[j] == s[j - 1]);
            }
        }
    }
}

/// Sorting sorts.
proof fn lemma_sort_sorted(s: Seq<Pair>)
    ensures
        sorted_pairs(sort_pairs(s)),
    decreases s.len(),
{
    if s.len() > 0 {
        lemma_sort_sorted(s.drop_last());
        lemma_place_sorted(sort_pairs(s.drop_last()), s.last());
    }
}

/// Two sorted pair lists with the same contents and no repeated keys are
/// equal.
proof fn lemma_sorted_unique(a: Seq<Pair>, b: Seq<Pair>)
    requires
        sorted_pairs(a),
        sorted_pairs(b),
        distinct_keys(a),
        a.to_multiset() == b.to_multiset(),
    ensures
        a == b,
    decreases a.len(),
{
    broadcast use vstd::seq_lib::group_to_multiset_ensures;
    broadcast use vstd::multiset::group_multiset_axioms;

    if a.len() == 0 {
        assert(b.to_multiset().len() == 0);
        assert(a =~= b);
    } else {
        assert(b.len() == a.len()) by {
            assert(a.to_multiset().len() == a.len());
            assert(b.to_multiset().len() == b.len());
        }
        // each head occurs in the other list
        assert(a.to_multiset().count(a[0]) > 0) by {
            assert(a.contains(a[0]));
        }
        assert(b.contains(a[0])) by {
            assert(b.to_multiset().count(a[0]) > 0);
        }
        assert(a.contains(b[0])) by {
            assert(b.to_multiset().count(b[0]) > 0) by {
                assert(b.contains(b[0]));
            }
            assert(a.to_multiset().count(b[0]) > 0);
        }
        let ia = choose|ia: int| 0 <= ia < a.len() && a[ia] == b[0];
        let ib = choose|ib: int| 0 <= ib < b.len() && b[ib] == a[0];
        assert(bytes_le(a[0].0, a[ia].0)) by {
            if ia == 0 {
                lemma_bytes_le_refl(a[0].0);
            }
        }
        assert(bytes_le(b[0].0, b[ib].0)) by {
            if ib == 0 {
                lemma_bytes_le_refl(b[0].0);
            }
        }
        lemma_bytes_le_antisym(a[0].0, b[0].0);
        // same key at both heads; distinct keys force the same pair
        assert(a[0] == b[0]) by {
            if ia != 0 {
                assert(a[ia].0 == b[0].0);
                assert(a[0].0 == a[ia].0);
                assert(a[0].0 != a[ia].0);
            }
            assert(a[ia] == b[0]);
        }
        let da = a.drop_first();
        let db = b.drop_first();
        assert(forall|j: int| 1 <= j < a.len() ==> a[j] == #[trigger] da[j - 1]);
        assert(forall|j: int| 1 <= j < b.len() ==> b[j] == #[trigger] db[j - 1]);
        assert(da.to_multiset() == db.to_multiset()) by {
            lemma_cons_multiset(a[0], da);
            lemma_cons_multiset(b[0], db);
            assert(seq![a[0]] + da =~= a);
            assert(seq![b[0]] + db =~= b);
            assert(a.to_multiset() == da.to_multiset().insert(a[0]));
            assert(b.to_multiset() == db.to_multiset().insert(b[0]));
            assert forall|y: Pair| da.to_multiset().count(y) == db.to_multiset().count(y) by {
                assert(da.to_multiset().insert(a[0]).count(y) == db.to_multiset().insert(
                    b[0],
                ).count(y));
            }
            assert(da.to_multiset() =~= db.to_multiset());
        }
        lemma_sorted_unique(da, db);
        assert(seq![a[0]] + da =~= a);
        assert(seq![b[0]] + db =~= b);
    }
}

/// Law: the canonical message does not depend on the order in which query
/// parameters arrive — any rearrangement of the same pairs, no key given
/// twice, sorts to the same sequence and so signs the same bytes.
pub proof fn lemma_message_ignores_order(pairs1: Seq<Pair>, pairs2: Seq<Pair>)
    requires
        pairs1.to_multiset() == pairs2.to_multiset(),
        distinct_keys(pairs1),
    ensures
        sort_pairs(pairs1) == sort_pairs(pairs2),
{
    lemma_sort_multiset(pairs1);
    lemma_sort_multiset(pairs2);
    lemma_sort_sorted(pairs1);
    lemma_sort_sorted(pairs2);
    assert(distinct_keys(sort_pairs(pairs1))) by {
        lemma_sort_distinct(pairs1);
    }
    lemma_sorted_unique(sort_pairs(pairs1), sort_pairs(pairs2));
}

/// Sorting pairs with no repeated keys yields no repeated keys.
proof fn lemma_sort_distinct(s: Seq<Pair>)
    requires
        distinct_keys(s),
    ensures
        distinct_keys(sort_pairs(s)),
{
    broadcast use vstd::seq_lib::group_to_multiset_ensures;
    broadcast use vstd::multiset::group_multiset_axioms;

    lemma_sort_multiset(s);
    let t = sort_pairs(s);
    assert forall|i: int, j: int| 0 <= i < j < t.len() implies t[i].0 != t[j].0 by {
        lemma_multiset_member(t, s, i);
        lemma_multiset_member(t, s, j);
        let mi = choose|mi: int| 0 <= mi < s.len() && s[mi] == t[i];
        let mj = choose|mj: int| 0 <= mj < s.len() && s[mj] == t[j];
        if t[i].0 == t[j].0 {
            if mi == mj {
                // the same pair would occur twice in t but once in s
                lemma_count_distinct(s, mi);
                lemma_count_two(t, i, j);
            }
        }
    }
}

/// An element of a multiset-equal list occurs in the other list.
proof fn lemma_multiset_member(t: Seq<Pair>, s: Seq<Pair>, i: int)
    requires
        0 <= i < t.len(),
        t.to_multiset() == s.to_multiset(),
    ensures
        exists|m: int| 0 <= m < s.len() && s[m] == t[i],
{
    broadcast use vstd::seq_lib::group_to_multiset_ensures;

    assert(t.contains(t[i]));
    assert(t.to_multiset().count(t[i]) > 0);
    assert(s.to_multiset().count(t[i]) > 0);
    assert(s.contains(t[i]));
}

/// A list with distinct keys holds each pair at most once.
proof fn lemma_count_distinct(s: Seq<Pair>, m: int)
    requires
        0 <= m < s.len(),
        distinct_keys(s),
    ensures
        s.to_multiset().count(s[m]) == 1,
{
    broadcast use vstd::seq_lib::group_to_multiset_ensures;

    assert(s.to_multiset().count(s[m]) >= 1) by {
        assert(s.contains(s[m]));
    }
    if s.to_multiset().count(s[m]) > 1 {
        lemma_two_positions(s, s[m]);
        let p = choose|p: (int, int)|
            0 <= p.0 < p.1 < s.len() && s[p.0] == s[m] && s[p.1] == s[m];
        assert(s[p.0].0 == s[p.1].0);
    }
}

/// A value counted at least twice occurs at two positions.
proof fn lemma_two_positions(s: Seq<Pair>, x: Pair)
    requires
        s.to_multiset().count(x) > 1,
    ensures
        exists|p: (int, int)| 0 <= p.0 < p.1 < s.len() && s[p.0] == x && s[p.1] == x,
    decreases s.len(),
{
    broadcast use vstd::seq_lib::group_to_multiset_ensures;
    broadcast use vstd::multiset::group_multiset_axioms;

    assert(s.len() > 0) by {
        if s.len() == 0 {
            assert(s.to_multiset().len() == 0);
            vstd::multiset::axiom_count_le_len::<Pair>(s.to_multiset(), x);
        }
    }
    let d = s.drop_last();
    assert(d.push(s.last()) =~= s);
    assert(s.to_multiset() == d.to_multiset().insert(s.last()));
    if s.last() == x {
        if d.to_multiset().count(x) > 0 {
            assert(d.contains(x));
            let j = choose|j: int| 0 <= j < d.len() && d[j] == x;
            let ghost p = (j, s.len() - 1);
            assert(s[p.0] == x && s[p.1] == x && p.0 < p.1);
        } else {
            assert(s.to_multiset().count(x) == d.to_multiset().count(x) + 1);
            assert(false);
        }
    } else {
        assert(s.to_multiset().count(x) == d.to_multiset().count(x));
        lemma_two_positions(d, x);
        let p0 = choose|p: (int, int)|
            0 <= p.0 < p.1 < d.len() && d[p.0] == x && d[p.1] == x;
        assert(s[p0.0] == x && s[p0.1] == x);
    }
}

/// The same pair at two positions is counted at least twice.
proof fn lemma_count_two(t: Seq<Pair>, i: int, j: int)
    requires
        0 <= i < j < t.len(),
        t[i] == t[j],
    ensures
        t.to_multiset().count(t[i]) >= 2,
    decreases t.len(),
{
    broadcast use vstd::seq_lib::group_to_multiset_ensures;
    broadcast use vstd::multiset::group_multiset_axioms;

    let d = t.drop_last();
    assert(d.push(t.last()) =~= t);
    assert(t.to_multiset() == d.to_multiset().insert(t.last()));
    if j == t.len() - 1 {
        assert(d[i] == t[i]);
        assert(d.contains(t[i]));
        assert(d.to_multiset().count(t[i]) > 0);
    } else {
        assert(d[i] == t[i] && d[j] == t[j]);
        lemma_count_two(d, i, j);
    }
}

/// Law: a signature produced over the canonical message round-trips
/// through its hex spelling, so a request signed with a configured key
/// verifies.
pub proof fn lemma_signed_signature_decodes(key: Seq<u8>, msg: Seq<u8>)
    ensures
        unhex(crate::hexcodec::hex_lower(hmac_sha256_of(key, msg))) == Some(
            hmac_sha256_of(key, msg),
        ),
{
    crate::hexcodec::lemma_unhex_hex_lower(hmac_sha256_of(key, msg));
}

} // verus!
