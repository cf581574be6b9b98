//! The deterministic request fingerprint: a canonical JSON serialization of
//! (source URL, process options), its cryptographic digest, and the sharded
//! disk path derived from that digest.
//!
//! The memory cache, the disk cache and the single-flight group all key their
//! work by the same canonical bytes, so a hit in any layer is addressable by
//! the fingerprint that would be used to recompute it.

use vstd::prelude::*;
use crate::image_types::ImageType;
use crate::image_types::ProcessOptions;
use crate::image_types::spec_type_name_bytes;
use crate::jsontext::append_bytes;
use crate::jsontext::dec_u64;
use crate::jsontext::esc;
use crate::jsontext::esc_byte;
use crate::jsontext::lit_blur_key;
use crate::jsontext::lit_close_braces;
use crate::jsontext::lit_comma;
use crate::jsontext::lit_height_key;
use crate::jsontext::lit_input_open;
use crate::jsontext::lit_ops_open;
use crate::jsontext::lit_out_type_key;
use crate::jsontext::lit_quality_key;
use crate::jsontext::lit_quote;
use crate::jsontext::lit_width_key;
use crate::jsontext::push_blur_key;
use crate::jsontext::push_comma;
use crate::jsontext::push_close_braces;
use crate::jsontext::push_dec_u32;
use crate::jsontext::push_escaped;
use crate::jsontext::push_height_key;
use crate::jsontext::push_input_open;
use crate::jsontext::push_ops_open;
use crate::jsontext::push_out_type_key;
use crate::jsontext::push_quality_key;
use crate::jsontext::push_quote;
use crate::jsontext::push_width_key;
use crate::hexcodec::hex_lower;
use crate::hexcodec::to_hex;
use crate::hexcodec::lemma_hex_lower_len;

verus! {

/// One numeric member of the options object: a separating comma when an
/// earlier member was written, the key fragment, and the decimal value.
pub open spec fn num_field(s: Seq<u8>, any: bool, key: Seq<u8>, v: Option<u32>) -> (Seq<u8>, bool) {
    match v {
        Some(x) => (
            s + (if any {
                lit_comma()
            } else {
                Seq::empty()
            }) + key + dec_u64(x as nat),
            true,
        ),
        None => (s, any),
    }
}

/// The output-format member of the options object, a quoted string.
pub open spec fn type_field(s: Seq<u8>, any: bool, v: Option<ImageType>) -> (Seq<u8>, bool) {
    match v {
        Some(t) => (
            s + (if any {
                lit_comma()
            } else {
                Seq::empty()
            }) + lit_out_type_key() + spec_type_name_bytes(t) + lit_quote(),
            true,
        ),
        None => (s, any),
    }
}

/// The members of the canonical options object, in fixed field order, with
/// absent options omitted.
pub open spec fn ops_body(ops: ProcessOptions) -> Seq<u8> {
    let r1 = num_field(Seq::empty(), false, lit_width_key(), ops.width);
    let r2 = num_field(r1.0, r1.1, lit_height_key(), ops.height);
    let r3 = type_field(r2.0, r2.1, ops.out_type);
    let r4 = num_field(r3.0, r3.1, lit_quality_key(), ops.quality);
    let r5 = num_field(r4.0, r4.1, lit_blur_key(), ops.blur);
    r5.0
}

/// The canonical serialization of a fingerprint: a JSON object holding the
/// escaped source URL and the options object.
pub open spec fn canon_spec(input: Seq<u8>, ops: ProcessOptions) -> Seq<u8> {
    lit_input_open() + esc(input) + lit_ops_open() + ops_body(ops) + lit_close_braces()
}

/// A fingerprint names one unit of work: the source URL (as UTF-8 bytes)
/// and the options under which it is processed.
#[derive(Debug, PartialEq, Eq, Hash)]
pub struct Fingerprint {
    pub input: Vec<u8>,
    pub options: ProcessOptions,
}

impl Fingerprint {
    /// Build a fingerprint from URL bytes and options.
    pub fn new(input: Vec<u8>, options: ProcessOptions) -> (r: Fingerprint)
        ensures
            r.input@ == input@,
            r.options == options,
    {
        Fingerprint { input, options }
    }

    /// The canonical serialization of this fingerprint.
    pub fn canonical(&self) -> (r: Vec<u8>)
        ensures
            r@ == canon_spec(self.input@, self.options),
    {
        canonical_bytes(self.input.as_slice(), self.options)
    }
}

/// Append one optional numeric member; returns whether any member has been
/// written so far.
fn push_num_field(
    out: &mut Vec<u8>,
    any: bool,
    key: u8,
    v: Option<u32>,
) -> (r: bool)
    requires
        key < 3,
    ensures
        ({
            let spec_key = if key == 0 {
                lit_width_key()
            } else if key == 1 {
                lit_height_key()
            } else {
                lit_quality_key()
            };
            let nf = num_field(old(out)@, any, spec_key, v);
            final(out)@ == nf.0 && r == nf.1
        }),
{
    match v {
        Some(x) => {
            if any {
                push_comma(out);
            }
            if key == 0 {
                push_width_key(out);
            } else if key == 1 {
                push_height_key(out);
            } else {
                push_quality_key(out);
            }
            push_dec_u32(out, x);
            true
        },
        None => any,
    }
}

/// Append the optional blur member; returns whether any member has been
/// written so far.
fn push_blur_field(out: &mut Vec<u8>, any: bool, v: Option<u32>) -> (r: bool)
    ensures
        ({
            let nf = num_field(old(out)@, any, lit_blur_key(), v);
            final(out)@ == nf.0 && r == nf.1
        }),
{
    match v {
        Some(x) => {
            if any {
                push_comma(out);
            }
            push_blur_key(out);
            push_dec_u32(out, x);
            true
        },
        None => any,
    }
}

/// Append the optional output-format member; returns whether any member has
/// been written so far.
fn push_type_field(out: &mut Vec<u8>, any: bool, v: Option<ImageType>) -> (r: bool)
    ensures
        ({
            let tf = type_field(old(out)@, any, v);
            final(out)@ == tf.0 && r == tf.1
        }),
{
    match v {
        Some(t) => {
            if any {
                push_comma(out);
            }
            push_out_type_key(out);
            let name = t.name_bytes();
            append_bytes(out, name.as_slice());
            push_quote(out);
            true
        },
        None => any,
    }
}

/// The canonical serialization of (URL bytes, options).
pub fn canonical_bytes(input: &[u8], ops: ProcessOptions) -> (r: Vec<u8>)
    ensures
        r@ == canon_spec(input@, ops),
{
    let mut out: Vec<u8> = Vec::new();
    push_input_open(&mut out);
    push_escaped(&mut out, input);
    push_ops_open(&mut out);
    let mut body: Vec<u8> = Vec::new();
    let mut any: bool = false;
    any = push_num_field(&mut body, any, 0, ops.width);
    any = push_num_field(&mut body, any, 1, ops.height);
    any = push_type_field(&mut body, any, ops.out_type);
    any = push_num_field(&mut body, any, 2, ops.quality);
    any = push_blur_field(&mut body, any, ops.blur);
    proof {
        assert(body@ == ops_body(ops));
    }
    append_bytes(&mut out, body.as_slice());
    push_close_braces(&mut out);
    proof {
        assert(out@ =~= canon_spec(input@, ops));
    }
    out
}

/// The lowercase hex digest naming a fingerprint on disk.
pub open spec fn digest_hex_spec(input: Seq<u8>, ops: ProcessOptions) -> Seq<u8> {
    hex_lower(crate::outside::blake3_of(canon_spec(input, ops)))
}

/// The sharded path of a fingerprint under a cache root: the last hex
/// character, then the two before it, then the full digest, joined by `/`.
pub open spec fn shard_path_spec(root: Seq<u8>, h: Seq<u8>) -> Seq<u8>
    recommends
        h.len() == 64,
{
    root + seq![47u8] + seq![h[63]] + seq![47u8] + h.subrange(61, 63) + seq![47u8] + h
}

/// The disk path of a fingerprint under a cache root.
pub open spec fn entry_path_spec(root: Seq<u8>, input: Seq<u8>, ops: ProcessOptions) -> Seq<u8> {
    shard_path_spec(root, digest_hex_spec(input, ops))
}

/// The lowercase hex digest of a fingerprint's canonical serialization.
pub fn digest_hex(fp: &Fingerprint) -> (r: Vec<u8>)
    ensures
        r@ == digest_hex_spec(fp.input@, fp.options),
        r@.len() == 64,
{
    let canon = fp.canonical();
    let digest = crate::outside::blake3_digest(canon.as_slice());
    let hex = to_hex(digest.as_slice());
    proof {
        lemma_hex_lower_len(digest@);
    }
    hex
}

/// The disk path of a fingerprint under a cache root, as path bytes.
pub fn entry_path(root: &[u8], fp: &Fingerprint) -> (r: Vec<u8>)
    ensures
        r@ == entry_path_spec(root@, fp.input@, fp.options),
{
    let h = digest_hex(fp);
    let mut out: Vec<u8> = Vec::new();
    append_bytes(&mut out, root);
    out.push(47);
    out.push(h[63]);
    out.push(47);
    out.push(h[61]);
    out.push(h[62]);
    out.push(47);
    append_bytes(&mut out, h.as_slice());
    proof {
        assert(h@.subrange(61, 63) =~= seq![h@[61], h@[62]]);
        assert(out@ =~= shard_path_spec(root@, h@));
    }
    out
}

/// The disk path is a pure function of the canonical serialization: two
/// fingerprints with equal canonical bytes share their path under any root.
pub proof fn lemma_path_stability(
    root: Seq<u8>,
    in1: Seq<u8>,
    ops1: ProcessOptions,
    in2: Seq<u8>,
    ops2: ProcessOptions,
)
    requires
        canon_spec(in1, ops1) == canon_spec(in2, ops2),
    ensures
        entry_path_spec(root, in1, ops1) == entry_path_spec(root, in2, ops2),
{
}

/// Fingerprints with equal fields have equal canonical serializations, and
/// so are one unit of work to every layer.
pub proof fn lemma_canonical_deterministic(
    in1: Seq<u8>,
    ops1: ProcessOptions,
    in2: Seq<u8>,
    ops2: ProcessOptions,
)
    requires
        in1 == in2,
        ops1 == ops2,
    ensures
        canon_spec(in1, ops1) == canon_spec(in2, ops2),
{
}


// --- the canonical serialization pins the fingerprint down exactly ---

/// Escaping distributes over concatenation.
proof fn lemma_esc_concat(a: Seq<u8>, b: Seq<u8>)
    ensures
        esc(a + b) == esc(a) + esc(b),
    decreases b.len(),
{
    if b.len() == 0 {
        assert(a + b =~= a);
        assert(esc(a) + esc(b) =~= esc(a));
    } else {
        assert((a + b).drop_last() =~= a + b.drop_last());
        assert((a + b).last() == b.last());
        lemma_esc_concat(a, b.drop_last());
        assert(esc(a) + (esc(b.drop_last()) + esc_byte(b.last())) =~= (esc(a) + esc(
            b.drop_last(),
        )) + esc_byte(b.last()));
    }
}

/// Escaping peels its first character off the front.
proof fn lemma_esc_front(s: Seq<u8>)
    requires
        s.len() > 0,
    ensures
        esc(s) == esc_byte(s[0]) + esc(s.drop_first()),
{
    assert(seq![s[0]] + s.drop_first() =~= s);
    lemma_esc_concat(seq![s[0]], s.drop_first());
    assert(esc(seq![s[0]]) == esc(seq![s[0]].drop_last()) + esc_byte(s[0]));
    assert(seq![s[0]].drop_last() =~= Seq::<u8>::empty());
    assert(esc(Seq::<u8>::empty()) + esc_byte(s[0]) =~= esc_byte(s[0]));
}

/// Read an escaped string up to, but not through, its closing quote:
/// the decoded bytes and the remainder starting at that quote.
pub open spec fn p_str(s: Seq<u8>) -> Option<(Seq<u8>, Seq<u8>)>
    decreases s.len(),
{
    if s.len() == 0 {
        None
    } else if s[0] == 34 {
        Some((Seq::empty(), s))
    } else if s[0] == 92 {
        if s.len() >= 2 {
            let c = s[1];
            if c == 34 || c == 92 {
                p_str_cons(c, p_str(s.skip(2)))
            } else if c == 98 {
                p_str_cons(8, p_str(s.skip(2)))
            } else if c == 116 {
                p_str_cons(9, p_str(s.skip(2)))
            } else if c == 110 {
                p_str_cons(10, p_str(s.skip(2)))
            } else if c == 102 {
                p_str_cons(12, p_str(s.skip(2)))
            } else if c == 114 {
                p_str_cons(13, p_str(s.skip(2)))
            } else if c == 117 && s.len() >= 6 && s[2] == 48 && s[3] == 48
                && crate::hexcodec::is_hex_digit(s[4]) && crate::hexcodec::is_hex_digit(s[5]) {
                p_str_cons(
                    (crate::hexcodec::hex_val(s[4]) * 16 + crate::hexcodec::hex_val(s[5])) as u8,
                    p_str(s.skip(6)),
                )
            } else {
                None
            }
        } else {
            None
        }
    } else {
        p_str_cons(s[0], p_str(s.drop_first()))
    }
}

/// Prepend a decoded byte to a string-parse result.
pub open spec fn p_str_cons(b: u8, r: Option<(Seq<u8>, Seq<u8>)>) -> Option<(Seq<u8>, Seq<u8>)> {
    match r {
        Some(p) => Some((seq![b] + p.0, p.1)),
        None => None,
    }
}

/// A lowercase hex digit spells its value.
proof fn lemma_hex_digit_lower_val(v: nat)
    requires
        v < 16,
    ensures
        crate::hexcodec::is_hex_digit(crate::jsontext::hex_digit_lower(v)),
        crate::hexcodec::hex_val(crate::jsontext::hex_digit_lower(v)) == v,
{
}

/// Reading an escaped string followed by its closing quote recovers the
/// string exactly.
proof fn lemma_p_str_of(input: Seq<u8>, rest: Seq<u8>)
    requires
        rest.len() > 0,
        rest[0] == 34,
    ensures
        p_str(esc(input) + rest) == Some((input, rest)),
    decreases input.len(),
{
    let s = esc(input) + rest;
    if input.len() == 0 {
        assert(esc(input).len() == 0);
        assert(s =~= rest);
        assert(input =~= Seq::<u8>::empty());
    } else {
        let b = input[0];
        let tail = input.drop_first();
        lemma_esc_front(input);
        lemma_p_str_of(tail, rest);
        let inner = esc(tail) + rest;
        assert(s =~= esc_byte(b) + inner) by {
            assert((esc_byte(b) + esc(tail)) + rest =~= esc_byte(b) + (esc(tail) + rest));
        }
        assert(forall|i: int| 0 <= i < esc_byte(b).len() ==> s[i] == #[trigger] esc_byte(b)[i]);
        assert(inner.len() > 0);
        if b == 34 || b == 92 {
            assert(s[0] == 92 && s[1] == b);
            assert(s.skip(2) =~= inner);
        } else if b == 8 || b == 9 || b == 10 || b == 12 || b == 13 {
            assert(s[0] == 92);
            assert(s.skip(2) =~= inner);
        } else if b < 32 {
            assert(s[0] == 92 && s[1] == 117 && s[2] == 48 && s[3] == 48);
            assert(s[4] == crate::jsontext::hex_digit_lower((b / 16) as nat));
            assert(s[5] == crate::jsontext::hex_digit_lower((b % 16) as nat));
            lemma_hex_digit_lower_val((b / 16) as nat);
            lemma_hex_digit_lower_val((b % 16) as nat);
            vstd::arithmetic::div_mod::lemma_fundamental_div_mod(b as int, 16);
            assert(s.skip(6) =~= inner);
        } else {
            assert(s[0] == b);
            assert(b != 34 && b != 92);
            assert(s.drop_first() =~= inner);
        }
        assert(seq![b] + tail =~= input);
    }
}


/// The text a numeric member appends: the separating comma when an earlier
/// member was written, the key, and the decimal value; absent members
/// append nothing.
pub open spec fn num_field_text(x: Option<u32>, any: bool, key: Seq<u8>) -> Seq<u8> {
    match x {
        Some(v) => (if any {
            lit_comma()
        } else {
            Seq::empty()
        }) + key + dec_u64(v as nat),
        None => Seq::empty(),
    }
}

/// The text the output-format member appends.
pub open spec fn type_field_text(x: Option<ImageType>, any: bool) -> Seq<u8> {
    match x {
        Some(t) => (if any {
            lit_comma()
        } else {
            Seq::empty()
        }) + lit_out_type_key() + spec_type_name_bytes(t) + lit_quote(),
        None => Seq::empty(),
    }
}

/// Parse one optional numeric member of the options object.
pub open spec fn p_field_num(s: Seq<u8>, any: bool, key: Seq<u8>) -> Option<
    (Option<u32>, Seq<u8>, bool),
> {
    let lit = if any {
        lit_comma() + key
    } else {
        key
    };
    if lit.is_prefix_of(s) {
        match crate::diskcodec::p_num32(s.skip(lit.len() as int)) {
            Some(vr) => Some((Some(vr.0), vr.1, true)),
            None => None,
        }
    } else {
        Some((None, s, any))
    }
}

/// Parse the optional output-format member of the options object.
pub open spec fn p_field_type(s: Seq<u8>, any: bool) -> Option<(Option<ImageType>, Seq<u8>, bool)> {
    let lit = if any {
        lit_comma() + lit_out_type_key()
    } else {
        lit_out_type_key()
    };
    if lit.is_prefix_of(s) {
        match crate::diskcodec::p_type(s.skip(lit.len() as int)) {
            Some(tr) => if tr.1.len() > 0 && tr.1[0] == 34 {
                Some((Some(tr.0), tr.1.skip(1), true))
            } else {
                None
            },
            None => None,
        }
    } else {
        Some((None, s, any))
    }
}

/// Parse a whole canonical fingerprint serialization back into the source
/// URL bytes and the options.
pub open spec fn parse_canon(s: Seq<u8>) -> Option<(Seq<u8>, ProcessOptions)> {
    match crate::diskcodec::p_lit(s, lit_input_open()) {
        None => None,
        Some(s1) => match p_str(s1) {
            None => None,
            Some(ir) => match crate::diskcodec::p_lit(ir.1, lit_ops_open()) {
                None => None,
                Some(s2) => match p_field_num(s2, false, lit_width_key()) {
                    None => None,
                    Some(w) => match p_field_num(w.1, w.2, lit_height_key()) {
                        None => None,
                        Some(h) => match p_field_type(h.1, h.2) {
                            None => None,
                            Some(t) => match p_field_num(t.1, t.2, lit_quality_key()) {
                                None => None,
                                Some(q) => match p_field_num(q.1, q.2, lit_blur_key()) {
                                    None => None,
                                    Some(b) => match crate::diskcodec::p_lit(
                                        b.1,
                                        lit_close_braces(),
                                    ) {
                                        None => None,
                                        Some(s3) => if s3.len() == 0 {
                                            Some(
                                                (
                                                    ir.0,
                                                    ProcessOptions {
                                                        width: w.0,
                                                        height: h.0,
                                                        out_type: t.0,
                                                        quality: q.0,
                                                        blur: b.0,
                                                    },
                                                ),
                                            )
                                        } else {
                                            None
                                        },
                                    },
                                },
                            },
                        },
                    },
                },
            },
        },
    }
}

/// What follows an options member: the closing braces, or a further member
/// whose key starts with one of the given letters.
pub open spec fn good_tail(s: Seq<u8>, letters: Seq<u8>) -> bool {
    s.len() > 0 && (s[0] == 125 || (s[0] == 44 && s.len() >= 3 && s[1] == 34 && letters.contains(
        s[2],
    )) || (s[0] == 34 && s.len() >= 2 && letters.contains(s[1])))
}

/// A candidate prefix that disagrees at one position is no prefix.
proof fn lemma_not_prefix_at(p: Seq<u8>, s: Seq<u8>, i: int)
    requires
        0 <= i < p.len(),
        i >= s.len() || p[i] != s[i],
    ensures
        !p.is_prefix_of(s),
{
    if p.is_prefix_of(s) {
        assert(s.subrange(0, p.len() as int)[i] == s[i]);
    }
}

/// Parsing one numeric member of canonical text recovers it: a present
/// member is read back, an absent one is skipped, and what follows is left
/// alone.
proof fn lemma_field_num_of(
    x: Option<u32>,
    any: bool,
    key: Seq<u8>,
    suffix: Seq<u8>,
    letters: Seq<u8>,
)
    requires
        key.len() >= 3,
        key[0] == 34,
        key[1] != 44 && key[1] != 34 && key[1] != 125,
        !letters.contains(key[1]),
        good_tail(suffix, letters),
    ensures
        p_field_num(num_field_text(x, any, key) + suffix, any, key) == Some(
            (
                x,
                suffix,
                x is Some || any,
            ),
        ),
{
    let lit = if any {
        lit_comma() + key
    } else {
        key
    };
    match x {
        Some(v) => {
            let text = num_field_text(x, any, key) + suffix;
            assert(text =~= lit + (dec_u64(v as nat) + suffix)) by {
                if any {
                    assert((lit_comma() + key + dec_u64(v as nat)) + suffix =~= (lit_comma()
                        + key) + (dec_u64(v as nat) + suffix));
                } else {
                    assert((Seq::<u8>::empty() + key + dec_u64(v as nat)) + suffix =~= key + (
                    dec_u64(v as nat) + suffix));
                }
            }
            assert(lit.is_prefix_of(text)) by {
                assert(text.subrange(0, lit.len() as int) =~= lit);
            }
            assert(text.skip(lit.len() as int) =~= dec_u64(v as nat) + suffix);
            assert(!crate::jsontext::is_digit(suffix[0]));
            crate::diskcodec::lemma_p_num32_of(v, suffix);
        },
        None => {
            let text = num_field_text(x, any, key) + suffix;
            assert(text =~= suffix);
            assert(!lit.is_prefix_of(suffix)) by {
                if any {
                    assert(lit.len() >= 4);
                    assert(lit[0] == 44 && lit[1] == key[0] && lit[2] == key[1]);
                    if suffix[0] == 125 || suffix[0] == 34 {
                        lemma_not_prefix_at(lit, suffix, 0);
                    } else {
                        assert(suffix[0] == 44);
                        if suffix.len() >= 3 {
                            assert(suffix[2] != key[1]);
                            lemma_not_prefix_at(lit, suffix, 2);
                        } else {
                            lemma_not_prefix_at(lit, suffix, 2);
                        }
                    }
                } else {
                    if suffix[0] == 125 || suffix[0] == 44 {
                        lemma_not_prefix_at(lit, suffix, 0);
                    } else {
                        assert(suffix[0] == 34);
                        assert(suffix[1] != key[1]);
                        lemma_not_prefix_at(lit, suffix, 1);
                    }
                }
            }
        },
    }
}

/// Parsing the output-format member of canonical text recovers it.
proof fn lemma_field_type_of(x: Option<ImageType>, any: bool, suffix: Seq<u8>, letters: Seq<u8>)
    requires
        !letters.contains(111u8),
        good_tail(suffix, letters),
    ensures
        p_field_type(type_field_text(x, any) + suffix, any) == Some(
            (
                x,
                suffix,
                x is Some || any,
            ),
        ),
{
    let key = lit_out_type_key();
    let lit = if any {
        lit_comma() + key
    } else {
        key
    };
    match x {
        Some(t) => {
            let text = type_field_text(x, any) + suffix;
            let name = spec_type_name_bytes(t);
            assert(text =~= lit + (name + (lit_quote() + suffix))) by {
                if any {
                    assert((lit_comma() + key + name + lit_quote()) + suffix =~= (lit_comma()
                        + key) + (name + (lit_quote() + suffix)));
                } else {
                    assert((Seq::<u8>::empty() + key + name + lit_quote()) + suffix =~= key + (
                    name + (lit_quote() + suffix)));
                }
            }
            assert(lit.is_prefix_of(text)) by {
                assert(text.subrange(0, lit.len() as int) =~= lit);
            }
            assert(text.skip(lit.len() as int) =~= name + (lit_quote() + suffix));
            crate::diskcodec::lemma_p_type_of(t, lit_quote() + suffix);
            assert((lit_quote() + suffix)[0] == 34);
            assert((lit_quote() + suffix).skip(1) =~= suffix);
        },
        None => {
            let text = type_field_text(x, any) + suffix;
            assert(text =~= suffix);
            assert(!lit.is_prefix_of(suffix)) by {
                assert(key[0] == 34 && key[1] == 111);
                if any {
                    assert(lit[0] == 44 && lit[1] == 34 && lit[2] == 111);
                    if suffix[0] == 125 || suffix[0] == 34 {
                        lemma_not_prefix_at(lit, suffix, 0);
                    } else {
                        lemma_not_prefix_at(lit, suffix, 2);
                    }
                } else {
                    if suffix[0] == 125 || suffix[0] == 44 {
                        lemma_not_prefix_at(lit, suffix, 0);
                    } else {
                        lemma_not_prefix_at(lit, suffix, 1);
                    }
                }
            }
        },
    }
}

/// A member's appended text, followed by a good tail, is itself a good
/// tail for the member before it.
proof fn lemma_tail_num(x: Option<u32>, any: bool, key: Seq<u8>, suffix: Seq<u8>, letters: Seq<u8>)
    requires
        key.len() >= 3,
        key[0] == 34,
        good_tail(suffix, letters),
    ensures
        good_tail(num_field_text(x, any, key) + suffix, letters.push(key[1])),
{
    let bigger = letters.push(key[1]);
    assert(forall|i: int| 0 <= i < letters.len() ==> bigger[i] == letters[i]);
    assert(bigger[letters.len() as int] == key[1]);
    match x {
        Some(v) => {
            let text = num_field_text(x, any, key) + suffix;
            if any {
                assert(text[0] == 44 && text[1] == 34 && text[2] == key[1]);
                assert(bigger.contains(key[1]));
            } else {
                assert(text[0] == 34 && text[1] == key[1]);
                assert(bigger.contains(key[1]));
            }
        },
        None => {
            assert(num_field_text(x, any, key) + suffix =~= suffix);
            assert(good_tail(suffix, bigger)) by {
                if suffix[0] == 44 && suffix.len() >= 3 {
                    if letters.contains(suffix[2]) {
                        let i = choose|i: int| 0 <= i < letters.len() && letters[i] == suffix[2];
                        assert(bigger[i] == suffix[2]);
                    }
                }
                if suffix[0] == 34 && suffix.len() >= 2 {
                    if letters.contains(suffix[1]) {
                        let i = choose|i: int| 0 <= i < letters.len() && letters[i] == suffix[1];
                        assert(bigger[i] == suffix[1]);
                    }
                }
            }
        },
    }
}

/// The output-format member's text, followed by a good tail, is a good
/// tail for the members before it.
proof fn lemma_tail_type(x: Option<ImageType>, any: bool, suffix: Seq<u8>, letters: Seq<u8>)
    requires
        good_tail(suffix, letters),
    ensures
        good_tail(type_field_text(x, any) + suffix, letters.push(111u8)),
{
    let bigger = letters.push(111u8);
    assert(forall|i: int| 0 <= i < letters.len() ==> bigger[i] == letters[i]);
    assert(bigger[letters.len() as int] == 111u8);
    match x {
        Some(t) => {
            let text = type_field_text(x, any) + suffix;
            if any {
                assert(text[0] == 44 && text[1] == 34 && text[2] == 111);
            } else {
                assert(text[0] == 34 && text[1] == 111);
            }
            assert(bigger.contains(111u8));
        },
        None => {
            assert(type_field_text(x, any) + suffix =~= suffix);
            assert(good_tail(suffix, bigger)) by {
                if suffix[0] == 44 && suffix.len() >= 3 {
                    if letters.contains(suffix[2]) {
                        let i = choose|i: int| 0 <= i < letters.len() && letters[i] == suffix[2];
                        assert(bigger[i] == suffix[2]);
                    }
                }
                if suffix[0] == 34 && suffix.len() >= 2 {
                    if letters.contains(suffix[1]) {
                        let i = choose|i: int| 0 <= i < letters.len() && letters[i] == suffix[1];
                        assert(bigger[i] == suffix[1]);
                    }
                }
            }
        },
    }
}

/// The spelled-out members of the options object after the first `k`
/// members, right-associated and ending in the closing braces.
pub open spec fn ops_tail5(ops: ProcessOptions) -> Seq<u8> {
    lit_close_braces()
}

/// Whether any of the first four members is present.
pub open spec fn any4(ops: ProcessOptions) -> bool {
    ops.width is Some || ops.height is Some || ops.out_type is Some || ops.quality is Some
}

/// Whether any of the first three members is present.
pub open spec fn any3(ops: ProcessOptions) -> bool {
    ops.width is Some || ops.height is Some || ops.out_type is Some
}

/// Whether the width or height member is present.
pub open spec fn any2(ops: ProcessOptions) -> bool {
    ops.width is Some || ops.height is Some
}

/// The members from the blur member on.
pub open spec fn ops_tail4(ops: ProcessOptions) -> Seq<u8> {
    num_field_text(ops.blur, any4(ops), lit_blur_key()) + ops_tail5(ops)
}

/// The members from the quality member on.
pub open spec fn ops_tail3(ops: ProcessOptions) -> Seq<u8> {
    num_field_text(ops.quality, any3(ops), lit_quality_key()) + ops_tail4(ops)
}

/// The members from the output-format member on.
pub open spec fn ops_tail2(ops: ProcessOptions) -> Seq<u8> {
    type_field_text(ops.out_type, any2(ops)) + ops_tail3(ops)
}

/// The members from the height member on.
pub open spec fn ops_tail1(ops: ProcessOptions) -> Seq<u8> {
    num_field_text(ops.height, ops.width is Some, lit_height_key()) + ops_tail2(ops)
}

/// All the members, followed by the closing braces.
pub open spec fn ops_tail0(ops: ProcessOptions) -> Seq<u8> {
    num_field_text(ops.width, false, lit_width_key()) + ops_tail1(ops)
}

/// Each tail is a good continuation for the member before it.
proof fn lemma_ops_tails_good(ops: ProcessOptions)
    ensures
        good_tail(ops_tail5(ops), Seq::<u8>::empty()),
        good_tail(ops_tail4(ops), Seq::<u8>::empty().push(98u8)),
        good_tail(ops_tail3(ops), Seq::<u8>::empty().push(98u8).push(113u8)),
        good_tail(ops_tail2(ops), Seq::<u8>::empty().push(98u8).push(113u8).push(111u8)),
        good_tail(
            ops_tail1(ops),
            Seq::<u8>::empty().push(98u8).push(113u8).push(111u8).push(104u8),
        ),
{
    assert(ops_tail5(ops)[0] == 125);
    lemma_tail_num(ops.blur, any4(ops), lit_blur_key(), ops_tail5(ops), Seq::<u8>::empty());
    lemma_tail_num(
        ops.quality,
        any3(ops),
        lit_quality_key(),
        ops_tail4(ops),
        Seq::<u8>::empty().push(98u8),
    );
    lemma_tail_type(ops.out_type, any2(ops), ops_tail3(ops), Seq::<u8>::empty().push(98u8).push(
        113u8,
    ));
    lemma_tail_num(
        ops.height,
        ops.width is Some,
        lit_height_key(),
        ops_tail2(ops),
        Seq::<u8>::empty().push(98u8).push(113u8).push(111u8),
    );
}

/// Parsing the members of a canonical options object, in order, recovers
/// each of them.
proof fn lemma_parse_ops(ops: ProcessOptions)
    ensures
        p_field_num(ops_tail0(ops), false, lit_width_key()) == Some(
            (ops.width, ops_tail1(ops), ops.width is Some),
        ),
        p_field_num(ops_tail1(ops), ops.width is Some, lit_height_key()) == Some(
            (ops.height, ops_tail2(ops), any2(ops)),
        ),
        p_field_type(ops_tail2(ops), any2(ops)) == Some(
            (ops.out_type, ops_tail3(ops), any3(ops)),
        ),
        p_field_num(ops_tail3(ops), any3(ops), lit_quality_key()) == Some(
            (ops.quality, ops_tail4(ops), any4(ops)),
        ),
        p_field_num(ops_tail4(ops), any4(ops), lit_blur_key()) == Some(
            (ops.blur, ops_tail5(ops), any4(ops) || ops.blur is Some),
        ),
        crate::diskcodec::p_lit(ops_tail5(ops), lit_close_braces()) == Some(Seq::<u8>::empty()),
{
    lemma_ops_tails_good(ops);
    let l_b = Seq::<u8>::empty().push(98u8);
    let l_q = l_b.push(113u8);
    let l_o = l_q.push(111u8);
    let l_h = l_o.push(104u8);
    assert(!l_h.contains(119u8));
    assert(!l_o.contains(104u8));
    assert(!l_q.contains(111u8));
    assert(!l_b.contains(113u8));
    assert(!Seq::<u8>::empty().contains(98u8));
    lemma_field_num_of(ops.width, false, lit_width_key(), ops_tail1(ops), l_h);
    lemma_field_num_of(ops.height, ops.width is Some, lit_height_key(), ops_tail2(ops), l_o);
    lemma_field_type_of(ops.out_type, any2(ops), ops_tail3(ops), l_q);
    lemma_field_num_of(ops.quality, any3(ops), lit_quality_key(), ops_tail4(ops), l_b);
    lemma_field_num_of(ops.blur, any4(ops), lit_blur_key(), ops_tail5(ops), Seq::<u8>::empty());
    crate::diskcodec::lemma_p_lit_of(lit_close_braces(), Seq::<u8>::empty());
    assert(ops_tail5(ops) =~= lit_close_braces() + Seq::<u8>::empty());
}

/// Concatenation re-associates.
proof fn lemma_regroup(a: Seq<u8>, b: Seq<u8>, c: Seq<u8>)
    ensures
        (a + b) + c == a + (b + c),
{
    assert((a + b) + c =~= a + (b + c));
}

/// The builder step for a numeric member appends exactly its text.
proof fn lemma_num_field_step(st: Seq<u8>, any: bool, key: Seq<u8>, v: Option<u32>)
    ensures
        num_field(st, any, key, v).0 == st + num_field_text(v, any, key),
        num_field(st, any, key, v).1 == (any || v is Some),
{
    match v {
        Some(x) => {
            assert(num_field(st, any, key, v).0 =~= st + num_field_text(v, any, key));
        },
        None => {
            assert(st + num_field_text(v, any, key) =~= st);
        },
    }
}

/// The builder step for the output-format member appends exactly its text.
proof fn lemma_type_field_step(st: Seq<u8>, any: bool, v: Option<ImageType>)
    ensures
        type_field(st, any, v).0 == st + type_field_text(v, any),
        type_field(st, any, v).1 == (any || v is Some),
{
    match v {
        Some(t) => {
            assert(type_field(st, any, v).0 =~= st + type_field_text(v, any));
        },
        None => {
            assert(st + type_field_text(v, any) =~= st);
        },
    }
}

/// The built options body followed by the closing braces spells exactly
/// the member chain.
proof fn lemma_body_is_tail0(ops: ProcessOptions)
    ensures
        ops_body(ops) + lit_close_braces() == ops_tail0(ops),
{
    let f_w = num_field_text(ops.width, false, lit_width_key());
    let f_h = num_field_text(ops.height, ops.width is Some, lit_height_key());
    let f_t = type_field_text(ops.out_type, any2(ops));
    let f_q = num_field_text(ops.quality, any3(ops), lit_quality_key());
    let f_b = num_field_text(ops.blur, any4(ops), lit_blur_key());
    let r1 = num_field(Seq::empty(), false, lit_width_key(), ops.width);
    let r2 = num_field(r1.0, r1.1, lit_height_key(), ops.height);
    let r3 = type_field(r2.0, r2.1, ops.out_type);
    let r4 = num_field(r3.0, r3.1, lit_quality_key(), ops.quality);
    let r5 = num_field(r4.0, r4.1, lit_blur_key(), ops.blur);
    lemma_num_field_step(Seq::empty(), false, lit_width_key(), ops.width);
    assert(Seq::<u8>::empty() + f_w =~= f_w);
    lemma_num_field_step(r1.0, r1.1, lit_height_key(), ops.height);
    lemma_type_field_step(r2.0, r2.1, ops.out_type);
    lemma_num_field_step(r3.0, r3.1, lit_quality_key(), ops.quality);
    lemma_num_field_step(r4.0, r4.1, lit_blur_key(), ops.blur);
    assert(r5.0 == (((f_w + f_h) + f_t) + f_q) + f_b);
    let close = lit_close_braces();
    lemma_regroup(((f_w + f_h) + f_t) + f_q, f_b, close);
    lemma_regroup((f_w + f_h) + f_t, f_q, f_b + close);
    lemma_regroup(f_w + f_h, f_t, f_q + (f_b + close));
    lemma_regroup(f_w, f_h, f_t + (f_q + (f_b + close)));
}

/// Law: parsing a canonical serialization recovers exactly the source URL
/// bytes and the options it was built from.
#[verifier::spinoff_prover]
#[verifier::rlimit(100)]
pub proof fn lemma_parse_canon_inverts(input: Seq<u8>, ops: ProcessOptions)
    ensures
        parse_canon(canon_spec(input, ops)) == Some((input, ops)),
{
    let s = canon_spec(input, ops);
    lemma_body_is_tail0(ops);
    lemma_parse_ops(ops);
    let r2 = lit_ops_open() + ops_tail0(ops);
    assert(s == lit_input_open() + (esc(input) + r2)) by {
        let a = lit_input_open() + esc(input);
        lemma_regroup(a + lit_ops_open(), ops_body(ops), lit_close_braces());
        lemma_regroup(a, lit_ops_open(), ops_tail0(ops));
        lemma_regroup(lit_input_open(), esc(input), r2);
    }
    crate::diskcodec::lemma_p_lit_of(lit_input_open(), esc(input) + r2);
    assert(r2[0] == 34);
    lemma_p_str_of(input, r2);
    crate::diskcodec::lemma_p_lit_of(lit_ops_open(), ops_tail0(ops));
    assert(ops == ProcessOptions {
        width: ops.width,
        height: ops.height,
        out_type: ops.out_type,
        quality: ops.quality,
        blur: ops.blur,
    });
}

/// Law: the canonical serialization is injective — two fingerprints with
/// equal canonical bytes have the same URL and options, so distinct
/// requests never share a cache key, a disk path, or a single-flight slot.
pub proof fn lemma_canonical_injective(
    in1: Seq<u8>,
    ops1: ProcessOptions,
    in2: Seq<u8>,
    ops2: ProcessOptions,
)
    requires
        canon_spec(in1, ops1) == canon_spec(in2, ops2),
    ensures
        in1 == in2,
        ops1 == ops2,
{
    lemma_parse_canon_inverts(in1, ops1);
    lemma_parse_canon_inverts(in2, ops2);
}

} // verus!
