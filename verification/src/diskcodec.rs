//! The on-disk cache entry format, bit-exact: a 4-byte big-endian length
//! `L`, then `L` bytes of JSON metadata, then the raw encoded image bytes to
//! the end of the file.
//!
//! Encoding and parsing are both specified against spec functions, and
//! parsing provably inverts encoding: a stored entry is read back equal.

use vstd::prelude::*;
use vstd::arithmetic::div_mod::lemma_fundamental_div_mod;
use crate::image_types::ImageOutput;
use crate::image_types::ImageOutputView;
use crate::image_types::ImageType;
use crate::image_types::InputImageType;
use crate::image_types::spec_type_name_bytes;
use crate::image_types::spec_input_type_name_bytes;
use crate::jsontext::append_bytes;
use crate::jsontext::be32_bytes;
use crate::jsontext::be32_of;
use crate::jsontext::be32_val;
use crate::jsontext::lemma_be32_of_val;
use crate::jsontext::dec_u64;
use crate::jsontext::digit_run_len;
use crate::jsontext::digits_val;
use crate::jsontext::eat_lit;
use crate::jsontext::is_digit;
use crate::jsontext::lemma_dec_u64_shape;
use crate::jsontext::lemma_dec_u64_val;
use crate::jsontext::lemma_digit_run_of_concat;
use crate::jsontext::lit_meta_close;
use crate::jsontext::lit_meta_height;
use crate::jsontext::lit_meta_open;
use crate::jsontext::lit_meta_orig_height;
use crate::jsontext::lit_meta_orig_size;
use crate::jsontext::lit_meta_orig_type;
use crate::jsontext::lit_meta_orig_width;
use crate::jsontext::lit_meta_width;
use crate::jsontext::parse_dec_u64;
use crate::jsontext::push_dec_u32;
use crate::jsontext::push_dec_u64;
use crate::jsontext::push_meta_close;
use crate::jsontext::push_meta_height;
use crate::jsontext::push_meta_open;
use crate::jsontext::push_meta_orig_height;
use crate::jsontext::push_meta_orig_size;
use crate::jsontext::push_meta_orig_type;
use crate::jsontext::push_meta_orig_width;
use crate::jsontext::push_meta_width;
use crate::jsontext::read_be32;

verus! {

/// The metadata carried by a disk entry: every field of an output except
/// its byte buffer.
#[derive(Clone, Copy, Debug, PartialEq, Eq, Structural)]
pub struct MetaFields {
    pub img_type: ImageType,
    pub width: u32,
    pub height: u32,
    pub orig_size: u64,
    pub orig_type: InputImageType,
    pub orig_width: u32,
    pub orig_height: u32,
}

/// The metadata fields of an output.
pub open spec fn fields_of(v: ImageOutputView) -> MetaFields {
    MetaFields {
        img_type: v.img_type,
        width: v.width,
        height: v.height,
        orig_size: v.orig_size,
        orig_type: v.orig_type,
        orig_width: v.orig_width,
        orig_height: v.orig_height,
    }
}

/// The output assembled from metadata fields and a byte buffer.
pub open spec fn view_of(m: MetaFields, buf: Seq<u8>) -> ImageOutputView {
    ImageOutputView {
        buf: buf,
        img_type: m.img_type,
        width: m.width,
        height: m.height,
        orig_size: m.orig_size,
        orig_type: m.orig_type,
        orig_width: m.orig_width,
        orig_height: m.orig_height,
    }
}

/// The JSON metadata text of a disk entry, in fixed field order.
pub open spec fn meta_spec(m: MetaFields) -> Seq<u8> {
    lit_meta_open() + spec_type_name_bytes(m.img_type) + lit_meta_width() + dec_u64(
        m.width as nat,
    ) + lit_meta_height() + dec_u64(m.height as nat) + lit_meta_orig_size() + dec_u64(
        m.orig_size as nat,
    ) + lit_meta_orig_type() + spec_input_type_name_bytes(m.orig_type) + lit_meta_orig_width()
        + dec_u64(m.orig_width as nat) + lit_meta_orig_height() + dec_u64(m.orig_height as nat)
        + lit_meta_close()
}

/// The whole disk entry: length header, metadata text, image bytes.
pub open spec fn entry_spec(m: MetaFields, buf: Seq<u8>) -> Seq<u8> {
    be32_of(meta_spec(m).len() as int) + meta_spec(m) + buf
}

/// Why a disk entry failed to parse.
#[derive(Clone, Copy, Debug, PartialEq, Eq, Structural)]
pub enum CacheFileError {
    /// The file is shorter than its 4-byte length header.
    TooShort,
    /// The declared metadata length exceeds the file size.
    BadLength,
    /// The metadata text is not a well-formed entry header.
    BadMeta,
}

// --- the spec-level parser, which the executable parser matches exactly ---

/// Consume a literal prefix.
pub open spec fn p_lit(s: Seq<u8>, lit: Seq<u8>) -> Option<Seq<u8>> {
    if lit.is_prefix_of(s) {
        Some(s.skip(lit.len() as int))
    } else {
        None
    }
}

/// Consume a canonical decimal number: a nonempty digit run, no leading
/// zero, value within `u64`.
pub open spec fn p_num(s: Seq<u8>) -> Option<(u64, Seq<u8>)> {
    let rl = digit_run_len(s) as int;
    if rl == 0 {
        None
    } else {
        let run = s.take(rl);
        if digits_val(run) > u64::MAX || (run[0] == 48 && rl > 1) {
            None
        } else {
            Some((digits_val(run) as u64, s.skip(rl)))
        }
    }
}

/// Consume a format name.
pub open spec fn p_type(s: Seq<u8>) -> Option<(ImageType, Seq<u8>)> {
    if spec_type_name_bytes(ImageType::Avif).is_prefix_of(s) {
        Some((ImageType::Avif, s.skip(4)))
    } else if spec_type_name_bytes(ImageType::Jpeg).is_prefix_of(s) {
        Some((ImageType::Jpeg, s.skip(4)))
    } else if spec_type_name_bytes(ImageType::Png).is_prefix_of(s) {
        Some((ImageType::Png, s.skip(3)))
    } else if spec_type_name_bytes(ImageType::Tiff).is_prefix_of(s) {
        Some((ImageType::Tiff, s.skip(4)))
    } else if spec_type_name_bytes(ImageType::Webp).is_prefix_of(s) {
        Some((ImageType::Webp, s.skip(4)))
    } else {
        None
    }
}

/// Consume a canonical decimal number that fits in `u32`.
pub open spec fn p_num32(s: Seq<u8>) -> Option<(u32, Seq<u8>)> {
    match p_num(s) {
        Some(vr) => if vr.0 <= u32::MAX as u64 {
            Some((vr.0 as u32, vr.1))
        } else {
            None
        },
        None => None,
    }
}

/// Parse a whole metadata text; `None` unless the text is exactly a
/// canonical metadata serialization.
pub open spec fn parse_meta_spec(s: Seq<u8>) -> Option<MetaFields> {
    match p_lit(s, lit_meta_open()) {
        None => None,
        Some(s1) => match p_type(s1) {
            None => None,
            Some(t1) => match p_lit(t1.1, lit_meta_width()) {
                None => None,
                Some(s2) => match p_num32(s2) {
                    None => None,
                    Some(w) => match p_lit(w.1, lit_meta_height()) {
                        None => None,
                        Some(s3) => match p_num32(s3) {
                            None => None,
                            Some(h) => match p_lit(h.1, lit_meta_orig_size()) {
                                None => None,
                                Some(s4) => match p_num(s4) {
                                    None => None,
                                    Some(os) => match p_lit(os.1, lit_meta_orig_type()) {
                                        None => None,
                                        Some(s5) => match p_type(s5) {
                                            None => None,
                                            Some(t2) => match p_lit(t2.1, lit_meta_orig_width()) {
                                                None => None,
                                                Some(s6) => match p_num32(s6) {
                                                    None => None,
                                                    Some(ow) => match p_lit(
                                                        ow.1,
                                                        lit_meta_orig_height(),
                                                    ) {
                                                        None => None,
                                                        Some(s7) => match p_num32(s7) {
                                                            None => None,
                                                            Some(oh) => match p_lit(
                                                                oh.1,
                                                                lit_meta_close(),
                                                            ) {
                                                                None => None,
                                                                Some(s8) => if s8.len() == 0 {
                                                                    Some(
                                                                        MetaFields {
                                                                            img_type: t1.0,
                                                                            width: w.0,
                                                                            height: h.0,
                                                                            orig_size: os.0,
                                                                            orig_type: input_of(
                                                                                t2.0,
                                                                            ),
                                                                            orig_width: ow.0,
                                                                            orig_height: oh.0,
                                                                        },
                                                                    )
                                                                } else {
                                                                    None
                                                                },
                                                            },
                                                        },
                                                    },
                                                },
                                            },
                                        },
                                    },
                                },
                            },
                        },
                    },
                },
            },
        },
    }
}

/// The input format spelled like an output format.
pub open spec fn input_of(t: ImageType) -> InputImageType {
    match t {
        ImageType::Avif => InputImageType::Avif,
        ImageType::Jpeg => InputImageType::Jpeg,
        ImageType::Png => InputImageType::Png,
        ImageType::Tiff => InputImageType::Tiff,
        ImageType::Webp => InputImageType::Webp,
    }
}

/// Parse a whole disk entry into its metadata fields and image bytes.
pub open spec fn parse_entry_spec(s: Seq<u8>) -> Result<(MetaFields, Seq<u8>), CacheFileError> {
    if s.len() < 4 {
        Err(CacheFileError::TooShort)
    } else {
        let l = be32_val(s.take(4));
        if s.len() < l + 4 {
            Err(CacheFileError::BadLength)
        } else {
            match parse_meta_spec(s.subrange(4, 4 + l)) {
                Some(m) => Ok((m, s.skip(4 + l))),
                None => Err(CacheFileError::BadMeta),
            }
        }
    }
}


// --- encoding ---

/// The metadata fields of an output value.
pub fn fields_of_output(o: &ImageOutput) -> (r: MetaFields)
    ensures
        r == fields_of(o@),
{
    MetaFields {
        img_type: o.img_type,
        width: o.width,
        height: o.height,
        orig_size: o.orig_size,
        orig_type: o.orig_type,
        orig_width: o.orig_width,
        orig_height: o.orig_height,
    }
}

/// Encode the metadata text of a disk entry.
pub fn encode_meta(m: MetaFields) -> (r: Vec<u8>)
    ensures
        r@ == meta_spec(m),
{
    let mut out: Vec<u8> = Vec::new();
    push_meta_open(&mut out);
    let n1 = m.img_type.name_bytes();
    append_bytes(&mut out, n1.as_slice());
    push_meta_width(&mut out);
    push_dec_u32(&mut out, m.width);
    push_meta_height(&mut out);
    push_dec_u32(&mut out, m.height);
    push_meta_orig_size(&mut out);
    push_dec_u64(&mut out, m.orig_size);
    push_meta_orig_type(&mut out);
    let n2 = m.orig_type.name_bytes();
    append_bytes(&mut out, n2.as_slice());
    push_meta_orig_width(&mut out);
    push_dec_u32(&mut out, m.orig_width);
    push_meta_orig_height(&mut out);
    push_dec_u32(&mut out, m.orig_height);
    push_meta_close(&mut out);
    proof {
        assert(out@ =~= meta_spec(m));
    }
    out
}

/// Powers of ten.
pub open spec fn pow10(k: nat) -> int
    decreases k,
{
    if k == 0 {
        1
    } else {
        10 * pow10((k - 1) as nat)
    }
}

/// A number below the `k`-th power of ten has at most `k` decimal digits.
proof fn lemma_dec_len(n: nat, k: nat)
    requires
        k >= 1,
        n < pow10(k),
    ensures
        dec_u64(n).len() <= k,
    decreases k,
{
    if n >= 10 {
        assert(pow10(k) == 10 * pow10((k - 1) as nat));
        assert(pow10((k - 1) as nat) >= 1) by {
            lemma_pow10_pos((k - 1) as nat);
        }
        assert(k >= 2);
        lemma_fundamental_div_mod(n as int, 10);
        assert(10 * (n as int / 10) <= n);
        assert(n / 10 < pow10((k - 1) as nat));
        lemma_dec_len(n / 10, (k - 1) as nat);
    }
}

/// Powers of ten are positive.
proof fn lemma_pow10_pos(k: nat)
    ensures
        pow10(k) >= 1,
    decreases k,
{
    if k > 0 {
        lemma_pow10_pos((k - 1) as nat);
    }
}

/// Any `u64` has at most 20 decimal digits; any `u32` at most 10.
proof fn lemma_dec_len_bounds(n64: u64, n32: u32)
    ensures
        dec_u64(n64 as nat).len() <= 20,
        dec_u64(n32 as nat).len() <= 10,
{
    reveal_with_fuel(pow10, 21);
    assert(pow10(10) == 10000000000);
    assert(pow10(20) == 100000000000000000000);
    lemma_dec_len(n64 as nat, 20);
    lemma_dec_len(n32 as nat, 10);
}

/// Format names are at most four bytes.
proof fn lemma_name_len(t: ImageType)
    ensures
        spec_type_name_bytes(t).len() <= 4,
{
    match t {
        ImageType::Avif => {},
        ImageType::Jpeg => {},
        ImageType::Png => {},
        ImageType::Tiff => {},
        ImageType::Webp => {},
    }
}

/// The metadata text is short: well under the 4-byte length header's range.
pub proof fn lemma_meta_len(m: MetaFields)
    ensures
        meta_spec(m).len() <= 200,
{
    lemma_dec_len_bounds(m.orig_size, m.width);
    lemma_dec_len_bounds(0, m.height);
    lemma_dec_len_bounds(0, m.orig_width);
    lemma_dec_len_bounds(0, m.orig_height);
    lemma_name_len(m.img_type);
    lemma_name_len(crate::image_types::input_to_output(m.orig_type));
}

/// Encode a whole disk entry: length header, metadata text, image bytes.
pub fn encode_entry(o: &ImageOutput) -> (r: Vec<u8>)
    ensures
        r@ == entry_spec(fields_of(o@), o@.buf),
{
    let m = fields_of_output(o);
    let meta = encode_meta(m);
    proof {
        lemma_meta_len(m);
    }
    let len32: u32 = meta.len() as u32;
    let mut out = be32_bytes(len32);
    append_bytes(&mut out, meta.as_slice());
    append_bytes(&mut out, o.buf.as_slice());
    proof {
        assert(out@ =~= entry_spec(fields_of(o@), o@.buf));
    }
    out
}

// --- the executable parser ---

/// `bytes_at` at a position says the literal is a prefix of the tail there.
proof fn lemma_bytes_at_skip(s: Seq<u8>, pos: int, lit: Seq<u8>)
    requires
        0 <= pos <= s.len(),
    ensures
        crate::jsontext::bytes_at(s, pos, lit) <==> lit.is_prefix_of(s.skip(pos)),
        crate::jsontext::bytes_at(s, pos, lit) ==> s.skip(pos).skip(lit.len() as int) == s.skip(
            pos + lit.len(),
        ),
{
    if crate::jsontext::bytes_at(s, pos, lit) {
        assert(s.skip(pos).subrange(0, lit.len() as int) =~= s.subrange(pos, pos + lit.len()));
        assert(s.skip(pos).skip(lit.len() as int) =~= s.skip(pos + lit.len()));
    }
    if lit.is_prefix_of(s.skip(pos)) {
        assert(s.subrange(pos, pos + lit.len()) =~= s.skip(pos).subrange(0, lit.len() as int));
    }
}

/// Run one literal step of the parser at `pos`.
fn step_lit(s: &[u8], pos: usize, lit: &[u8]) -> (r: Option<usize>)
    requires
        pos <= s@.len(),
    ensures
        match r {
            Some(p2) => p_lit(s@.skip(pos as int), lit@) == Some(s@.skip(p2 as int)) && pos <= p2
                <= s@.len(),
            None => p_lit(s@.skip(pos as int), lit@) is None,
        },
{
    let r = eat_lit(s, pos, lit);
    proof {
        lemma_bytes_at_skip(s@, pos as int, lit@);
    }
    r
}

/// Run one canonical-number step of the parser at `pos`.
fn step_num(s: &[u8], pos: usize) -> (r: Option<(u64, usize)>)
    requires
        pos <= s@.len(),
    ensures
        match r {
            Some(vp) => p_num(s@.skip(pos as int)) == Some((vp.0, s@.skip(vp.1 as int))) && pos
                <= vp.1 <= s@.len(),
            None => p_num(s@.skip(pos as int)) is None,
        },
{
    let ghost t = s@.skip(pos as int);
    match parse_dec_u64(s, pos) {
        Some((v, p2)) => {
            proof {
                assert(digit_run_len(t) == p2 - pos);
                assert(t.take((p2 - pos) as int) =~= s@.subrange(pos as int, p2 as int));
                assert(t.skip((p2 - pos) as int) =~= s@.skip(p2 as int));
            }
            if s[pos] == 48 && p2 - pos > 1 {
                proof {
                    assert(t.take((p2 - pos) as int)[0] == s@[pos as int]);
                }
                None
            } else {
                proof {
                    assert(t.take((p2 - pos) as int)[0] == s@[pos as int]);
                }
                Some((v, p2))
            }
        },
        None => {
            proof {
                if digit_run_len(t) != 0 {
                    crate::jsontext::lemma_run_is_digits(s@, pos as int);
                    assert(digits_val(crate::jsontext::digit_run_at(s@, pos as int)) > u64::MAX);
                    assert(crate::jsontext::digit_run_at(s@, pos as int) =~= t.take(
                        digit_run_len(t) as int,
                    ));
                }
            }
            None
        },
    }
}

/// Run one `u32` canonical-number step of the parser at `pos`.
fn step_num32(s: &[u8], pos: usize) -> (r: Option<(u32, usize)>)
    requires
        pos <= s@.len(),
    ensures
        match r {
            Some(vp) => p_num32(s@.skip(pos as int)) == Some((vp.0, s@.skip(vp.1 as int))) && pos
                <= vp.1 <= s@.len(),
            None => p_num32(s@.skip(pos as int)) is None,
        },
{
    match step_num(s, pos) {
        Some((v, p2)) => {
            if v <= 0xFFFFFFFF {
                Some((v as u32, p2))
            } else {
                None
            }
        },
        None => None,
    }
}

/// Run one format-name step of the parser at `pos`.
fn step_type(s: &[u8], pos: usize) -> (r: Option<(ImageType, usize)>)
    requires
        pos <= s@.len(),
    ensures
        match r {
            Some(tp) => p_type(s@.skip(pos as int)) == Some((tp.0, s@.skip(tp.1 as int))) && pos
                <= tp.1 <= s@.len(),
            None => p_type(s@.skip(pos as int)) is None,
        },
{
    let avif = ImageType::Avif.name_bytes();
    let jpeg = ImageType::Jpeg.name_bytes();
    let png = ImageType::Png.name_bytes();
    let tiff = ImageType::Tiff.name_bytes();
    let webp = ImageType::Webp.name_bytes();
    proof {
        lemma_bytes_at_skip(s@, pos as int, avif@);
        lemma_bytes_at_skip(s@, pos as int, jpeg@);
        lemma_bytes_at_skip(s@, pos as int, png@);
        lemma_bytes_at_skip(s@, pos as int, tiff@);
        lemma_bytes_at_skip(s@, pos as int, webp@);
    }
    if let Some(p2) = eat_lit(s, pos, avif.as_slice()) {
        return Some((ImageType::Avif, p2));
    }
    if let Some(p2) = eat_lit(s, pos, jpeg.as_slice()) {
        return Some((ImageType::Jpeg, p2));
    }
    if let Some(p2) = eat_lit(s, pos, png.as_slice()) {
        return Some((ImageType::Png, p2));
    }
    if let Some(p2) = eat_lit(s, pos, tiff.as_slice()) {
        return Some((ImageType::Tiff, p2));
    }
    if let Some(p2) = eat_lit(s, pos, webp.as_slice()) {
        return Some((ImageType::Webp, p2));
    }
    None
}

/// The executable output format of a parsed input format.
fn input_of_exec(t: ImageType) -> (r: InputImageType)
    ensures
        r == input_of(t),
{
    match t {
        ImageType::Avif => InputImageType::Avif,
        ImageType::Jpeg => InputImageType::Jpeg,
        ImageType::Png => InputImageType::Png,
        ImageType::Tiff => InputImageType::Tiff,
        ImageType::Webp => InputImageType::Webp,
    }
}

/// The bytes of the `meta_open` fragment, as a vector.
fn lit_vec_meta_open() -> (r: Vec<u8>)
    ensures
        r@ == lit_meta_open(),
{
    let mut v: Vec<u8> = Vec::new();
    push_meta_open(&mut v);
    proof {
        assert(v@ =~= lit_meta_open());
    }
    v
}

/// The bytes of the `meta_width` fragment, as a vector.
fn lit_vec_meta_width() -> (r: Vec<u8>)
    ensures
        r@ == lit_meta_width(),
{
    let mut v: Vec<u8> = Vec::new();
    push_meta_width(&mut v);
    proof {
        assert(v@ =~= lit_meta_width());
    }
    v
}

/// The bytes of the `meta_height` fragment, as a vector.
fn lit_vec_meta_height() -> (r: Vec<u8>)
    ensures
        r@ == lit_meta_height(),
{
    let mut v: Vec<u8> = Vec::new();
    push_meta_height(&mut v);
    proof {
        assert(v@ =~= lit_meta_height());
    }
    v
}

/// The bytes of the `meta_orig_size` fragment, as a vector.
fn lit_vec_meta_orig_size() -> (r: Vec<u8>)
    ensures
        r@ == lit_meta_orig_size(),
{
    let mut v: Vec<u8> = Vec::new();
    push_meta_orig_size(&mut v);
    proof {
        assert(v@ =~= lit_meta_orig_size());
    }
    v
}

/// The bytes of the `meta_orig_type` fragment, as a vector.
fn lit_vec_meta_orig_type() -> (r: Vec<u8>)
    ensures
        r@ == lit_meta_orig_type(),
{
    let mut v: Vec<u8> = Vec::new();
    push_meta_orig_type(&mut v);
    proof {
        assert(v@ =~= lit_meta_orig_type());
    }
    v
}

/// The bytes of the `meta_orig_width` fragment, as a vector.
fn lit_vec_meta_orig_width() -> (r: Vec<u8>)
    ensures
        r@ == lit_meta_orig_width(),
{
    let mut v: Vec<u8> = Vec::new();
    push_meta_orig_width(&mut v);
    proof {
        assert(v@ =~= lit_meta_orig_width());
    }
    v
}

/// The bytes of the `meta_orig_height` fragment, as a vector.
fn lit_vec_meta_orig_height() -> (r: Vec<u8>)
    ensures
        r@ == lit_meta_orig_height(),
{
    let mut v: Vec<u8> = Vec::new();
    push_meta_orig_height(&mut v);
    proof {
        assert(v@ =~= lit_meta_orig_height());
    }
    v
}

/// The bytes of the `meta_close` fragment, as a vector.
fn lit_vec_meta_close() -> (r: Vec<u8>)
    ensures
        r@ == lit_meta_close(),
{
    let mut v: Vec<u8> = Vec::new();
    push_meta_close(&mut v);
    proof {
        assert(v@ =~= lit_meta_close());
    }
    v
}

/// Parse a metadata text, exactly as the spec-level parser does.
pub fn parse_meta(s: &[u8]) -> (r: Option<MetaFields>)
    ensures
        r == parse_meta_spec(s@),
{
    let open_lit = lit_vec_meta_open();
    let width_lit = lit_vec_meta_width();
    let height_lit = lit_vec_meta_height();
    let orig_size_lit = lit_vec_meta_orig_size();
    let orig_type_lit = lit_vec_meta_orig_type();
    let orig_width_lit = lit_vec_meta_orig_width();
    let orig_height_lit = lit_vec_meta_orig_height();
    let close_lit = lit_vec_meta_close();
    let p1 = match step_lit(s, 0, open_lit.as_slice()) {
        Some(p) => p,
        None => {
            proof {
                assert(s@.skip(0) =~= s@);
            }
            return None;
        },
    };
    proof {
        assert(s@.skip(0) =~= s@);
    }
    let (img_type, p2) = match step_type(s, p1) {
        Some(tp) => tp,
        None => {
            return None;
        },
    };
    let p3 = match step_lit(s, p2, width_lit.as_slice()) {
        Some(p) => p,
        None => {
            return None;
        },
    };
    let (width, p4) = match step_num32(s, p3) {
        Some(vp) => vp,
        None => {
            return None;
        },
    };
    let p5 = match step_lit(s, p4, height_lit.as_slice()) {
        Some(p) => p,
        None => {
            return None;
        },
    };
    let (height, p6) = match step_num32(s, p5) {
        Some(vp) => vp,
        None => {
            return None;
        },
    };
    let p7 = match step_lit(s, p6, orig_size_lit.as_slice()) {
        Some(p) => p,
        None => {
            return None;
        },
    };
    let (orig_size, p8) = match step_num(s, p7) {
        Some(vp) => vp,
        None => {
            return None;
        },
    };
    let p9 = match step_lit(s, p8, orig_type_lit.as_slice()) {
        Some(p) => p,
        None => {
            return None;
        },
    };
    let (orig_type_t, p10) = match step_type(s, p9) {
        Some(tp) => tp,
        None => {
            return None;
        },
    };
    let p11 = match step_lit(s, p10, orig_width_lit.as_slice()) {
        Some(p) => p,
        None => {
            return None;
        },
    };
    let (orig_width, p12) = match step_num32(s, p11) {
        Some(vp) => vp,
        None => {
            return None;
        },
    };
    let p13 = match step_lit(s, p12, orig_height_lit.as_slice()) {
        Some(p) => p,
        None => {
            return None;
        },
    };
    let (orig_height, p14) = match step_num32(s, p13) {
        Some(vp) => vp,
        None => {
            return None;
        },
    };
    let p15 = match step_lit(s, p14, close_lit.as_slice()) {
        Some(p) => p,
        None => {
            return None;
        },
    };
    if p15 != s.len() {
        proof {
            assert(s@.skip(p15 as int).len() != 0);
        }
        return None;
    }
    proof {
        assert(s@.skip(p15 as int).len() == 0);
    }
    Some(
        MetaFields {
            img_type,
            width,
            height,
            orig_size,
            orig_type: input_of_exec(orig_type_t),
            orig_width,
            orig_height,
        },
    )
}

/// Parse a whole disk entry, exactly as the spec-level parser does.
pub fn parse_entry(s: &[u8]) -> (r: Result<ImageOutput, CacheFileError>)
    ensures
        match r {
            Ok(o) => parse_entry_spec(s@) == Ok::<(MetaFields, Seq<u8>), CacheFileError>(
                (fields_of(o@), o@.buf),
            ),
            Err(e) => parse_entry_spec(s@) == Err::<(MetaFields, Seq<u8>), CacheFileError>(e),
        },
{
    if s.len() < 4 {
        return Err(CacheFileError::TooShort);
    }
    let l32 = read_be32(s, 0);
    let l = l32 as usize;
    proof {
        assert(s@.subrange(0, 4) =~= s@.take(4));
    }
    if s.len() - 4 < l {
        return Err(CacheFileError::BadLength);
    }
    let meta_region = vstd::slice::slice_subrange(s, 4, 4 + l);
    match parse_meta(meta_region) {
        Some(m) => {
            let tail = vstd::slice::slice_subrange(s, 4 + l, s.len());
            let buf = vstd::slice::slice_to_vec(tail);
            proof {
                assert(tail@ =~= s@.skip(4 + l));
            }
            let o = ImageOutput {
                buf,
                img_type: m.img_type,
                width: m.width,
                height: m.height,
                orig_size: m.orig_size,
                orig_type: m.orig_type,
                orig_width: m.orig_width,
                orig_height: m.orig_height,
            };
            proof {
                assert(fields_of(o@) == m);
            }
            Ok(o)
        },
        None => Err(CacheFileError::BadMeta),
    }
}

// --- parsing inverts encoding ---

/// Consuming a literal from text that starts with it leaves the tail.
pub proof fn lemma_p_lit_of(lit: Seq<u8>, rest: Seq<u8>)
    ensures
        p_lit(lit + rest, lit) == Some(rest),
{
    assert((lit + rest).subrange(0, lit.len() as int) =~= lit);
    assert(lit.is_prefix_of(lit + rest));
    assert((lit + rest).skip(lit.len() as int) =~= rest);
}

/// Consuming a number from text that starts with a canonical decimal
/// followed by a non-digit leaves the value and the tail.
pub proof fn lemma_p_num_of(n: u64, rest: Seq<u8>)
    requires
        rest.len() == 0 || !is_digit(rest[0]),
    ensures
        p_num(dec_u64(n as nat) + rest) == Some((n, rest)),
{
    let d = dec_u64(n as nat);
    let s = d + rest;
    lemma_dec_u64_shape(n as nat);
    lemma_digit_run_of_concat(d, rest);
    assert(s.take(d.len() as int) =~= d);
    lemma_dec_u64_val(n as nat);
    assert(s.skip(d.len() as int) =~= rest);
}

/// The `u32` form of the number step.
pub proof fn lemma_p_num32_of(n: u32, rest: Seq<u8>)
    requires
        rest.len() == 0 || !is_digit(rest[0]),
    ensures
        p_num32(dec_u64(n as nat) + rest) == Some((n, rest)),
{
    lemma_p_num_of(n as u64, rest);
}

/// Consuming a format name from text that starts with it leaves the format
/// and the tail: the five names start with five different bytes.
pub proof fn lemma_p_type_of(t: ImageType, rest: Seq<u8>)
    ensures
        p_type(spec_type_name_bytes(t) + rest) == Some((t, rest)),
{
    let s = spec_type_name_bytes(t) + rest;
    assert(s.subrange(0, spec_type_name_bytes(t).len() as int) =~= spec_type_name_bytes(t));
    assert(spec_type_name_bytes(t).is_prefix_of(s));
    assert(s.skip(spec_type_name_bytes(t).len() as int) =~= rest);
    assert(s[0] == spec_type_name_bytes(t)[0]);
    match t {
        ImageType::Avif => {},
        ImageType::Jpeg => {
            lemma_not_prefix_first(spec_type_name_bytes(ImageType::Avif), s);
        },
        ImageType::Png => {
            lemma_not_prefix_first(spec_type_name_bytes(ImageType::Avif), s);
            lemma_not_prefix_first(spec_type_name_bytes(ImageType::Jpeg), s);
        },
        ImageType::Tiff => {
            lemma_not_prefix_first(spec_type_name_bytes(ImageType::Avif), s);
            lemma_not_prefix_first(spec_type_name_bytes(ImageType::Jpeg), s);
            lemma_not_prefix_first(spec_type_name_bytes(ImageType::Png), s);
        },
        ImageType::Webp => {
            lemma_not_prefix_first(spec_type_name_bytes(ImageType::Avif), s);
            lemma_not_prefix_first(spec_type_name_bytes(ImageType::Jpeg), s);
            lemma_not_prefix_first(spec_type_name_bytes(ImageType::Png), s);
            lemma_not_prefix_first(spec_type_name_bytes(ImageType::Tiff), s);
        },
    }
}

/// A nonempty candidate whose first byte differs is not a prefix.
proof fn lemma_not_prefix_first(p: Seq<u8>, s: Seq<u8>)
    requires
        p.len() >= 1,
        s.len() >= 1,
        p[0] != s[0],
    ensures
        !p.is_prefix_of(s),
{
    if p.is_prefix_of(s) {
        assert(s.subrange(0, p.len() as int)[0] == s[0]);
    }
}

/// Input and output spellings of a format are inverse.
proof fn lemma_input_of_output(t: InputImageType)
    ensures
        input_of(crate::image_types::input_to_output(t)) == t,
{
    match t {
        InputImageType::Avif => {},
        InputImageType::Jpeg => {},
        InputImageType::Png => {},
        InputImageType::Tiff => {},
        InputImageType::Webp => {},
    }
}

/// Concatenation re-associates.
proof fn lemma_assoc(a: Seq<u8>, b: Seq<u8>, c: Seq<u8>)
    ensures
        (a + b) + c == a + (b + c),
{
    assert((a + b) + c =~= a + (b + c));
}

/// Law: parsing a canonical metadata text recovers exactly its fields.
#[verifier::spinoff_prover]
#[verifier::rlimit(100)]
pub proof fn lemma_parse_meta_inverts(m: MetaFields)
    ensures
        parse_meta_spec(meta_spec(m)) == Some(m),
{
    let s = meta_spec(m);
    let n1 = spec_type_name_bytes(m.img_type);
    let n2 = spec_input_type_name_bytes(m.orig_type);
    let dw = dec_u64(m.width as nat);
    let dh = dec_u64(m.height as nat);
    let dos = dec_u64(m.orig_size as nat);
    let dow = dec_u64(m.orig_width as nat);
    let doh = dec_u64(m.orig_height as nat);
    let l1 = lit_meta_open();
    let l2 = l1 + n1;
    let l3 = l2 + lit_meta_width();
    let l4 = l3 + dw;
    let l5 = l4 + lit_meta_height();
    let l6 = l5 + dh;
    let l7 = l6 + lit_meta_orig_size();
    let l8 = l7 + dos;
    let l9 = l8 + lit_meta_orig_type();
    let l10 = l9 + n2;
    let l11 = l10 + lit_meta_orig_width();
    let l12 = l11 + dow;
    let l13 = l12 + lit_meta_orig_height();
    let l14 = l13 + doh;
    let l15 = l14 + lit_meta_close();
    let r15 = lit_meta_close();
    let r14 = doh + r15;
    let r13 = lit_meta_orig_height() + r14;
    let r12 = dow + r13;
    let r11 = lit_meta_orig_width() + r12;
    let r10 = n2 + r11;
    let r9 = lit_meta_orig_type() + r10;
    let r8 = dos + r9;
    let r7 = lit_meta_orig_size() + r8;
    let r6 = dh + r7;
    let r5 = lit_meta_height() + r6;
    let r4 = dw + r5;
    let r3 = lit_meta_width() + r4;
    let r2 = n1 + r3;
    assert(s == l14 + r15);
    lemma_assoc(l13, doh, r15);
    assert(s == l13 + r14);
    lemma_assoc(l12, lit_meta_orig_height(), r14);
    assert(s == l12 + r13);
    lemma_assoc(l11, dow, r13);
    assert(s == l11 + r12);
    lemma_assoc(l10, lit_meta_orig_width(), r12);
    assert(s == l10 + r11);
    lemma_assoc(l9, n2, r11);
    assert(s == l9 + r10);
    lemma_assoc(l8, lit_meta_orig_type(), r10);
    assert(s == l8 + r9);
    lemma_assoc(l7, dos, r9);
    assert(s == l7 + r8);
    lemma_assoc(l6, lit_meta_orig_size(), r8);
    assert(s == l6 + r7);
    lemma_assoc(l5, dh, r7);
    assert(s == l5 + r6);
    lemma_assoc(l4, lit_meta_height(), r6);
    assert(s == l4 + r5);
    lemma_assoc(l3, dw, r5);
    assert(s == l3 + r4);
    lemma_assoc(l2, lit_meta_width(), r4);
    assert(s == l2 + r3);
    lemma_assoc(l1, n1, r3);
    assert(s == l1 + r2);
    lemma_p_lit_of(lit_meta_open(), r2);
    lemma_p_type_of(m.img_type, r3);
    lemma_p_lit_of(lit_meta_width(), r4);
    lemma_p_num32_of(m.width, r5);
    lemma_p_lit_of(lit_meta_height(), r6);
    lemma_p_num32_of(m.height, r7);
    lemma_p_lit_of(lit_meta_orig_size(), r8);
    lemma_p_num_of(m.orig_size, r9);
    lemma_p_lit_of(lit_meta_orig_type(), r10);
    lemma_p_type_of(crate::image_types::input_to_output(m.orig_type), r11);
    lemma_input_of_output(m.orig_type);
    lemma_p_lit_of(lit_meta_orig_width(), r12);
    lemma_p_num32_of(m.orig_width, r13);
    lemma_p_lit_of(lit_meta_orig_height(), r14);
    lemma_p_num32_of(m.orig_height, r15);
    assert(r15 =~= lit_meta_close() + Seq::<u8>::empty());
    lemma_p_lit_of(lit_meta_close(), Seq::<u8>::empty());
}

/// Law: a disk entry written for an output parses back to exactly that
/// output's metadata and bytes (the round trip of the on-disk format).
#[verifier::spinoff_prover]
#[verifier::rlimit(100)]
pub proof fn lemma_entry_round_trip(m: MetaFields, buf: Seq<u8>)
    ensures
        parse_entry_spec(entry_spec(m, buf)) == Ok::<(MetaFields, Seq<u8>), CacheFileError>(
            (m, buf),
        ),
{
    let meta = meta_spec(m);
    lemma_meta_len(m);
    let s = entry_spec(m, buf);
    assert(s.take(4) =~= be32_of(meta.len() as int));
    lemma_be32_of_val(meta.len() as int);
    assert(be32_val(s.take(4)) == meta.len());
    assert(s.subrange(4, 4 + meta.len() as int) =~= meta);
    lemma_parse_meta_inverts(m);
    assert(s.skip(4 + meta.len() as int) =~= buf);
}

} // verus!
