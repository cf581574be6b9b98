//! The request's query parameters, their flags, and how they become
//! normalized process options — including the format negotiation against the
//! request's `Accept` header.

use vstd::prelude::*;
use crate::image_types::ImageType;
use crate::image_types::ProcessOptions;
use crate::image_types::spec_type_name_bytes;
use crate::jsontext::append_bytes;
use crate::outside::find_subslice;
use crate::signature::scan_to;
use crate::signature::lemma_scan_to;
use crate::signature::find_byte;
use vstd::string::StringExecFns;

verus! {

/// The recognized parameters of an image request, already extracted from
/// the query string by the server layer.
pub struct ImageQuery {
    pub url: String,
    pub quality: Option<u32>,
    pub format: Option<Vec<u8>>,
    pub debug: Option<String>,
    pub timing: Option<String>,
    pub height: Option<u32>,
    pub width: Option<u32>,
    pub blur: Option<u32>,
    pub nocache: Option<String>,
    pub s: Option<String>,
}

/// The recognized parameters of a metadata request.
pub struct MetadataQuery {
    pub url: String,
    pub pretty: Option<String>,
    pub thumbhash: Option<String>,
    pub timing: Option<String>,
    pub s: Option<String>,
}

/// Whether an optional flag parameter enables its feature: present and not
/// spelled `false`.
pub open spec fn spec_is_enabled(v: Option<Seq<char>>) -> bool {
    match v {
        Some(s) => s != "false"@,
        None => false,
    }
}

/// Whether a flag parameter is enabled.
pub fn flag_enabled(v: &Option<String>) -> (r: bool)
    ensures
        r == spec_is_enabled(
            match v {
                Some(s) => Some(s@),
                None => None,
            },
        ),
{
    match v {
        Some(s) => {
            let f = String::from_str("false");
            !s.eq(&f)
        },
        None => false,
    }
}

impl ImageQuery {
    /// Whether the response should carry the debug header.
    pub fn is_debug(&self) -> (r: bool)
        ensures
            r == spec_is_enabled(
                match self.debug {
                    Some(s) => Some(s@),
                    None => None,
                },
            ),
    {
        flag_enabled(&self.debug)
    }

    /// Whether the response should carry the timing header.
    pub fn is_timing(&self) -> (r: bool)
        ensures
            r == spec_is_enabled(
                match self.timing {
                    Some(s) => Some(s@),
                    None => None,
                },
            ),
    {
        flag_enabled(&self.timing)
    }

    /// Whether the caches should be bypassed for this request.
    pub fn is_nocache(&self) -> (r: bool)
        ensures
            r == spec_is_enabled(
                match self.nocache {
                    Some(s) => Some(s@),
                    None => None,
                },
            ),
    {
        flag_enabled(&self.nocache)
    }
}

impl MetadataQuery {
    /// Whether the JSON response should be pretty-printed.
    pub fn is_pretty(&self) -> (r: bool)
        ensures
            r == spec_is_enabled(
                match self.pretty {
                    Some(s) => Some(s@),
                    None => None,
                },
            ),
    {
        flag_enabled(&self.pretty)
    }

    /// Whether the response should carry the timing header.
    pub fn is_timing(&self) -> (r: bool)
        ensures
            r == spec_is_enabled(
                match self.timing {
                    Some(s) => Some(s@),
                    None => None,
                },
            ),
    {
        flag_enabled(&self.timing)
    }

    /// Whether a ThumbHash should be computed.
    pub fn is_thumbhash(&self) -> (r: bool)
        ensures
            r == spec_is_enabled(
                match self.thumbhash {
                    Some(s) => Some(s@),
                    None => None,
                },
            ),
    {
        flag_enabled(&self.thumbhash)
    }
}

/// The formats named by a comma-separated preference list, in order,
/// unrecognized names skipped.
pub open spec fn parse_format_list_spec(s: Seq<u8>) -> Seq<ImageType>
    decreases s.len(),
{
    if s.len() == 0 {
        Seq::empty()
    } else {
        let i = scan_to(s, 44) as int;
        let seg = s.take(i);
        let rest = if i < s.len() {
            s.skip(i + 1)
        } else {
            Seq::empty()
        };
        match ImageType::spec_parse(seg) {
            Some(t) => seq![t] + parse_format_list_spec(rest),
            None => parse_format_list_spec(rest),
        }
    }
}

/// Parse a comma-separated format preference list.
pub fn parse_format_list(s: &[u8]) -> (r: Vec<ImageType>)
    ensures
        r@ == parse_format_list_spec(s@),
{
    let ghost whole = s@;
    let mut out: Vec<ImageType> = Vec::new();
    let mut pos: usize = 0;
    proof {
        assert(whole.skip(0) =~= whole);
        assert(out@ =~= Seq::<ImageType>::empty());
    }
    while pos < s.len()
        invariant
            0 <= pos <= whole.len(),
            s@ == whole,
            parse_format_list_spec(whole) == out@ + parse_format_list_spec(
                whole.skip(pos as int),
            ),
        decreases whole.len() - pos,
    {
        let ghost t = whole.skip(pos as int);
        let comma = find_byte(s, pos, 44);
        proof {
            lemma_scan_to(t, 44);
            assert(t.take(comma - pos) =~= whole.subrange(pos as int, comma as int));
            if comma < whole.len() {
                assert(t.skip(comma - pos + 1) =~= whole.skip(comma + 1));
            }
        }
        let seg = vstd::slice::slice_subrange(s, pos, comma);
        let ghost before = out@;
        match ImageType::parse(seg) {
            Some(fmt) => {
                out.push(fmt);
                proof {
                    assert(out@ =~= before + seq![fmt]);
                }
            },
            None => {},
        }
        proof {
            let i = scan_to(t, 44) as int;
            assert(seg@ == t.take(i));
            if comma == whole.len() {
                assert(i == t.len());
                assert(t.take(i) =~= t);
                assert(parse_format_list_spec(Seq::<u8>::empty()) =~= Seq::<ImageType>::empty());
                assert(parse_format_list_spec(t) == match ImageType::spec_parse(t.take(i)) {
                    Some(ft) => seq![ft] + parse_format_list_spec(Seq::<u8>::empty()),
                    None => parse_format_list_spec(Seq::<u8>::empty()),
                });
            } else {
                assert(parse_format_list_spec(t) == match ImageType::spec_parse(t.take(i)) {
                    Some(ft) => seq![ft] + parse_format_list_spec(whole.skip(comma + 1)),
                    None => parse_format_list_spec(whole.skip(comma + 1)),
                });
            }
        }
        if comma == s.len() {
            pos = comma;
            proof {
                assert(whole.skip(pos as int).len() == 0);
                assert(parse_format_list_spec(whole.skip(pos as int)) =~= Seq::<
                    ImageType,
                >::empty());
                assert(parse_format_list_spec(whole) =~= out@ + parse_format_list_spec(
                    whole.skip(pos as int),
                ));
            }
        } else {
            pos = comma + 1;
            proof {
                assert(parse_format_list_spec(whole) =~= out@ + parse_format_list_spec(
                    whole.skip(pos as int),
                ));
            }
        }
    }
    proof {
        assert(whole.skip(pos as int).len() == 0);
        assert(parse_format_list_spec(whole) =~= out@);
    }
    out
}

/// The MIME type of an output format, as ASCII bytes.
pub open spec fn spec_mime_bytes(t: ImageType) -> Seq<u8> {
    seq![105u8, 109u8, 97u8, 103u8, 101u8, 47u8] + spec_type_name_bytes(t)
}

/// The MIME type of an output format, as ASCII bytes.
pub fn mime_bytes(t: ImageType) -> (r: Vec<u8>)
    ensures
        r@ == spec_mime_bytes(t),
{
    let mut out: Vec<u8> = vec![105, 109, 97, 103, 101, 47];
    let name = t.name_bytes();
    append_bytes(&mut out, name.as_slice());
    proof {
        assert(out@ =~= spec_mime_bytes(t));
    }
    out
}

/// Whether `needle` occurs anywhere in `hay`.
pub open spec fn has_sub(hay: Seq<u8>, needle: Seq<u8>) -> bool {
    exists|j: int|
        0 <= j && j + needle.len() <= hay.len() && #[trigger] hay.subrange(j, j + needle.len())
            == needle
}

/// Whether a format's MIME type is accepted by the request.
pub open spec fn mime_accepted(accept: Option<Seq<u8>>, t: ImageType) -> bool {
    match accept {
        Some(a) => has_sub(a, spec_mime_bytes(t)),
        None => false,
    }
}

/// The format chosen from a preference list: the first whose MIME type
/// appears in the `Accept` header, or the last of the list as the explicit
/// fallback; an empty list chooses nothing.
pub open spec fn choose_format_spec(formats: Seq<ImageType>, accept: Option<Seq<u8>>) -> Option<
    ImageType,
> {
    if formats.len() == 0 {
        None
    } else {
        let candidates = formats.take(formats.len() - 1);
        if exists|i: int| 0 <= i < candidates.len() && mime_accepted(accept, candidates[i]) {
            let i = choose|i: int|
                0 <= i < candidates.len() && mime_accepted(accept, candidates[i]) && forall|j: int|
                    0 <= j < i ==> !mime_accepted(accept, #[trigger] candidates[j]);
            Some(candidates[i])
        } else {
            Some(formats.last())
        }
    }
}

/// Choose the output format from a preference list and the request's
/// `Accept` header.
pub fn choose_format(formats: &Vec<ImageType>, accept: Option<&[u8]>) -> (r: Option<ImageType>)
    ensures
        r == choose_format_spec(
            formats@,
            match accept {
                Some(a) => Some(a@),
                None => None,
            },
        ),
{
    let ghost av: Option<Seq<u8>> = match accept {
        Some(a) => Some(a@),
        None => None,
    };
    if formats.len() == 0 {
        return None;
    }
    let ghost candidates = formats@.take(formats@.len() - 1);
    let mut i: usize = 0;
    while i < formats.len() - 1
        invariant
            formats@.len() >= 1,
            0 <= i <= candidates.len(),
            candidates == formats@.take(formats@.len() - 1),
            av == match accept {
                Some(a) => Some(a@),
                None => None,
            },
            forall|j: int| 0 <= j < i ==> !mime_accepted(av, #[trigger] candidates[j]),
        decreases formats@.len() - i,
    {
        proof {
            assert(candidates[i as int] == formats@[i as int]);
        }
        let hit = match accept {
            Some(a) => {
                let mime = mime_bytes(formats[i]);
                match find_subslice(a, mime.as_slice()) {
                    Some(_) => true,
                    None => false,
                }
            },
            None => false,
        };
        if hit {
            proof {
                assert(mime_accepted(av, candidates[i as int]));
                let w = choose|w: int|
                    0 <= w < candidates.len() && mime_accepted(av, candidates[w]) && forall|
                        j: int,
                    | 0 <= j < w ==> !mime_accepted(av, #[trigger] candidates[j]);
                assert(mime_accepted(av, candidates[i as int]) && forall|j: int|
                    0 <= j < i ==> !mime_accepted(av, #[trigger] candidates[j]));
                assert(w == i) by {
                    if w < i {
                        assert(!mime_accepted(av, candidates[w]));
                    }
                    if w > i {
                        assert(!mime_accepted(av, candidates[i as int]));
                    }
                }
            }
            return Some(formats[i]);
        }
        i += 1;
    }
    proof {
        assert(i == candidates.len());
        assert(formats@[formats@.len() - 1] == formats@.last());
    }
    Some(formats[formats.len() - 1])
}

/// Normalize the query into process options: zero width, height or blur
/// mean absent; quality is clamped to 1..=100; the format comes from the
/// preference list resolved against the `Accept` header.
pub fn options_from_query(query: &ImageQuery, accept: Option<&[u8]>) -> (r: ProcessOptions)
    ensures
        r.width == match query.width {
            Some(0u32) => None::<u32>,
            Some(w) => Some(w),
            None => None::<u32>,
        },
        r.height == match query.height {
            Some(0u32) => None::<u32>,
            Some(h) => Some(h),
            None => None::<u32>,
        },
        r.quality == match query.quality {
            Some(q) => Some(
                if q < 1 {
                    1u32
                } else if q > 100 {
                    100u32
                } else {
                    q
                },
            ),
            None => None::<u32>,
        },
        r.blur == match query.blur {
            Some(0u32) => None::<u32>,
            Some(b) => Some(b),
            None => None::<u32>,
        },
        r.out_type == match query.format {
            Some(f) => choose_format_spec(
                parse_format_list_spec(f@),
                match accept {
                    Some(a) => Some(a@),
                    None => None,
                },
            ),
            None => None::<ImageType>,
        },
{
    let width = match query.width {
        Some(w) => if w == 0 {
            None
        } else {
            Some(w)
        },
        None => None,
    };
    let height = match query.height {
        Some(h) => if h == 0 {
            None
        } else {
            Some(h)
        },
        None => None,
    };
    let quality = match query.quality {
        Some(q) => Some(
            if q < 1 {
                1
            } else if q > 100 {
                100
            } else {
                q
            },
        ),
        None => None,
    };
    let blur = match query.blur {
        Some(b) => if b == 0 {
            None
        } else {
            Some(b)
        },
        None => None,
    };
    let out_type = match &query.format {
        Some(f) => {
            let formats = parse_format_list(f.as_slice());
            choose_format(&formats, accept)
        },
        None => None,
    };
    ProcessOptions { width, height, out_type, quality, blur }
}

/// The debug header's payload: the original image's size, format and
/// dimensions.
#[derive(Clone, Copy, Debug, PartialEq, Eq, Structural)]
pub struct ImageDebug {
    pub original_height: u32,
    pub original_width: u32,
    pub original_size: u64,
    pub original_format: crate::image_types::InputImageType,
}

impl ImageDebug {
    /// Collect the debug payload from an output's original-image metadata.
    pub fn new(output: &crate::image_types::ImageOutput) -> (r: ImageDebug)
        ensures
            r.original_height == output.orig_height,
            r.original_width == output.orig_width,
            r.original_size == output.orig_size,
            r.original_format == output.orig_type,
    {
        ImageDebug {
            original_height: output.orig_height,
            original_width: output.orig_width,
            original_size: output.orig_size,
            original_format: output.orig_type,
        }
    }
}

} // verus!
