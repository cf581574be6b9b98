//! Image format tags and the option/result records that flow through the
//! caches and the pipeline.
//!
//! The byte buffers produced by the (unverified) codecs are carried as plain
//! `Vec<u8>` values; everything the coordination logic reads is a plain value.

use vstd::prelude::*;

verus! {

/// Format of a source image, as sniffed from its first bytes.
#[derive(Clone, Copy, Debug, PartialEq, Eq, Structural)]
pub enum InputImageType {
    Avif,
    Jpeg,
    Png,
    Tiff,
    Webp,
}

/// Format of an encoded output image.
#[derive(Clone, Copy, Debug, PartialEq, Eq, Hash, Structural)]
pub enum ImageType {
    Avif,
    Jpeg,
    Png,
    Tiff,
    Webp,
}

/// The lowercase name of an output format, as a character sequence.
pub open spec fn spec_type_name(t: ImageType) -> Seq<char> {
    match t {
        ImageType::Avif => "avif"@,
        ImageType::Jpeg => "jpeg"@,
        ImageType::Png => "png"@,
        ImageType::Tiff => "tiff"@,
        ImageType::Webp => "webp"@,
    }
}

/// The MIME type of an output format, as a character sequence.
pub open spec fn spec_type_mime(t: ImageType) -> Seq<char> {
    match t {
        ImageType::Avif => "image/avif"@,
        ImageType::Jpeg => "image/jpeg"@,
        ImageType::Png => "image/png"@,
        ImageType::Tiff => "image/tiff"@,
        ImageType::Webp => "image/webp"@,
    }
}

/// The lowercase name of an output format, as ASCII bytes.
pub open spec fn spec_type_name_bytes(t: ImageType) -> Seq<u8> {
    match t {
        ImageType::Avif => seq![97u8, 118u8, 105u8, 102u8],
        ImageType::Jpeg => seq![106u8, 112u8, 101u8, 103u8],
        ImageType::Png => seq![112u8, 110u8, 103u8],
        ImageType::Tiff => seq![116u8, 105u8, 102u8, 102u8],
        ImageType::Webp => seq![119u8, 101u8, 98u8, 112u8],
    }
}

/// The lowercase name of an input format, as ASCII bytes; input and output
/// formats share their names.
pub open spec fn spec_input_type_name_bytes(t: InputImageType) -> Seq<u8> {
    spec_type_name_bytes(input_to_output(t))
}

/// The output format that keeps an input format unchanged.
pub open spec fn input_to_output(t: InputImageType) -> ImageType {
    match t {
        InputImageType::Avif => ImageType::Avif,
        InputImageType::Jpeg => ImageType::Jpeg,
        InputImageType::Png => ImageType::Png,
        InputImageType::Tiff => ImageType::Tiff,
        InputImageType::Webp => ImageType::Webp,
    }
}

/// Default encoder quality for an output format.
pub open spec fn spec_default_quality(t: ImageType) -> u32 {
    match t {
        ImageType::Avif => 50u32,
        ImageType::Jpeg => 75u32,
        ImageType::Png => 75u32,
        ImageType::Tiff => 75u32,
        ImageType::Webp => 75u32,
    }
}

impl ImageType {
    /// The lowercase name of the format.
    pub fn as_str(self) -> (r: &'static str)
        ensures
            r@ == spec_type_name(self),
    {
        match self {
            ImageType::Avif => "avif",
            ImageType::Jpeg => "jpeg",
            ImageType::Png => "png",
            ImageType::Tiff => "tiff",
            ImageType::Webp => "webp",
        }
    }

    /// The MIME type of the format.
    pub fn mimetype(self) -> (r: &'static str)
        ensures
            r@ == spec_type_mime(self),
    {
        match self {
            ImageType::Avif => "image/avif",
            ImageType::Jpeg => "image/jpeg",
            ImageType::Png => "image/png",
            ImageType::Tiff => "image/tiff",
            ImageType::Webp => "image/webp",
        }
    }

    /// The lowercase name of the format, as ASCII bytes.
    pub fn name_bytes(self) -> (r: Vec<u8>)
        ensures
            r@ == spec_type_name_bytes(self),
    {
        match self {
            ImageType::Avif => {
                let v: Vec<u8> = vec![97, 118, 105, 102];
                assert(v@ =~= spec_type_name_bytes(ImageType::Avif));
                v
            },
            ImageType::Jpeg => {
                let v: Vec<u8> = vec![106, 112, 101, 103];
                assert(v@ =~= spec_type_name_bytes(ImageType::Jpeg));
                v
            },
            ImageType::Png => {
                let v: Vec<u8> = vec![112, 110, 103];
                assert(v@ =~= spec_type_name_bytes(ImageType::Png));
                v
            },
            ImageType::Tiff => {
                let v: Vec<u8> = vec![116, 105, 102, 102];
                assert(v@ =~= spec_type_name_bytes(ImageType::Tiff));
                v
            },
            ImageType::Webp => {
                let v: Vec<u8> = vec![119, 101, 98, 112];
                assert(v@ =~= spec_type_name_bytes(ImageType::Webp));
                v
            },
        }
    }

    /// What `parse` returns: the format whose lowercase name the bytes spell.
    pub open spec fn spec_parse(s: Seq<u8>) -> Option<ImageType> {
        if s == spec_type_name_bytes(ImageType::Avif) {
            Some(ImageType::Avif)
        } else if s == spec_type_name_bytes(ImageType::Jpeg) {
            Some(ImageType::Jpeg)
        } else if s == spec_type_name_bytes(ImageType::Png) {
            Some(ImageType::Png)
        } else if s == spec_type_name_bytes(ImageType::Tiff) {
            Some(ImageType::Tiff)
        } else if s == spec_type_name_bytes(ImageType::Webp) {
            Some(ImageType::Webp)
        } else {
            None
        }
    }

    /// Parse a lowercase format name.
    pub fn parse(s: &[u8]) -> (r: Option<ImageType>)
        ensures
            r == Self::spec_parse(s@),
    {
        if bytes_eq_name(s, ImageType::Avif) {
            Some(ImageType::Avif)
        } else if bytes_eq_name(s, ImageType::Jpeg) {
            Some(ImageType::Jpeg)
        } else if bytes_eq_name(s, ImageType::Png) {
            Some(ImageType::Png)
        } else if bytes_eq_name(s, ImageType::Tiff) {
            Some(ImageType::Tiff)
        } else if bytes_eq_name(s, ImageType::Webp) {
            Some(ImageType::Webp)
        } else {
            None
        }
    }

    /// Default encoder quality for this format.
    pub fn default_quality(self) -> (r: u32)
        ensures
            r == spec_default_quality(self),
    {
        match self {
            ImageType::Avif => 50,
            ImageType::Jpeg | ImageType::Png | ImageType::Tiff | ImageType::Webp => 75,
        }
    }

    /// The output format that re-encodes an input without changing format.
    pub fn from_input(value: InputImageType) -> (r: ImageType)
        ensures
            r == input_to_output(value),
    {
        match value {
            InputImageType::Avif => ImageType::Avif,
            InputImageType::Jpeg => ImageType::Jpeg,
            InputImageType::Png => ImageType::Png,
            InputImageType::Tiff => ImageType::Tiff,
            InputImageType::Webp => ImageType::Webp,
        }
    }
}

impl InputImageType {
    /// The lowercase name of the input format, as ASCII bytes.
    pub fn name_bytes(self) -> (r: Vec<u8>)
        ensures
            r@ == spec_input_type_name_bytes(self),
    {
        ImageType::from_input(self).name_bytes()
    }
}

/// Whether a byte slice equals the name of the given format.
fn bytes_eq_name(s: &[u8], t: ImageType) -> (r: bool)
    ensures
        r == (s@ == spec_type_name_bytes(t)),
{
    let name = t.name_bytes();
    let r = bytes_eq(s, name.as_slice());
    proof {
        if s@ =~= spec_type_name_bytes(t) {
            assert(r);
        }
    }
    r
}

/// Whether two byte slices hold the same bytes.
pub fn bytes_eq(a: &[u8], b: &[u8]) -> (r: bool)
    ensures
        r == (a@ == b@),
{
    if a.len() != b.len() {
        proof {
            if a@ =~= b@ {
                assert(a@.len() == b@.len());
            }
        }
        return false;
    }
    let mut i: usize = 0;
    while i < a.len()
        invariant
            0 <= i <= a@.len(),
            a@.len() == b@.len(),
            forall|j: int| 0 <= j < i ==> a@[j] == b@[j],
        decreases a@.len() - i,
    {
        if a[i] != b[i] {
            return false;
        }
        i += 1;
    }
    proof {
        assert(a@ =~= b@);
    }
    true
}

/// Options recognized by the image-processing request, after normalization.
#[derive(Clone, Copy, Debug, PartialEq, Eq, Hash, Structural)]
pub struct ProcessOptions {
    pub width: Option<u32>,
    pub height: Option<u32>,
    pub out_type: Option<ImageType>,
    pub quality: Option<u32>,
    pub blur: Option<u32>,
}

/// Result of processing one image: the encoded bytes plus metadata.
#[derive(Debug)]
pub struct ImageOutput {
    pub buf: Vec<u8>,
    pub img_type: ImageType,
    pub width: u32,
    pub height: u32,
    pub orig_size: u64,
    pub orig_type: InputImageType,
    pub orig_width: u32,
    pub orig_height: u32,
}

/// Mathematical model of an [`ImageOutput`].
pub struct ImageOutputView {
    pub buf: Seq<u8>,
    pub img_type: ImageType,
    pub width: u32,
    pub height: u32,
    pub orig_size: u64,
    pub orig_type: InputImageType,
    pub orig_width: u32,
    pub orig_height: u32,
}

impl View for ImageOutput {
    type V = ImageOutputView;

    open spec fn view(&self) -> ImageOutputView {
        ImageOutputView {
            buf: self.buf@,
            img_type: self.img_type,
            width: self.width,
            height: self.height,
            orig_size: self.orig_size,
            orig_type: self.orig_type,
            orig_width: self.orig_width,
            orig_height: self.orig_height,
        }
    }
}

impl Clone for ImageOutput {
    /// A clone carries the same bytes and the same metadata.
    fn clone(&self) -> (r: Self)
        ensures
            r@ == self@,
    {
        let buf = clone_bytes(&self.buf);
        ImageOutput {
            buf,
            img_type: self.img_type,
            width: self.width,
            height: self.height,
            orig_size: self.orig_size,
            orig_type: self.orig_type,
            orig_width: self.orig_width,
            orig_height: self.orig_height,
        }
    }
}

/// Copy a byte vector.
pub fn clone_bytes(v: &Vec<u8>) -> (r: Vec<u8>)
    ensures
        r@ == v@,
{
    let mut out: Vec<u8> = Vec::new();
    let mut i: usize = 0;
    while i < v.len()
        invariant
            0 <= i <= v@.len(),
            out@ =~= v@.subrange(0, i as int),
        decreases v@.len() - i,
    {
        out.push(v[i]);
        i += 1;
    }
    proof {
        assert(out@ =~= v@);
    }
    out
}

/// The metadata answer for an image: container format, oriented
/// dimensions, source size, and the optional ThumbHash. The float-valued
/// EXIF summary is attached by the runtime around this crate, which alone
/// may hold floating point.
#[derive(Clone, Debug)]
pub struct ImageMetadata {
    pub format: InputImageType,
    pub width: u32,
    pub height: u32,
    pub size: u64,
    pub thumbhash: Option<String>,
}

/// Options for the metadata endpoint.
#[derive(Clone, Copy, Debug, PartialEq, Eq, Structural)]
pub struct MetadataOptions {
    pub thumbhash: bool,
}

impl MetadataOptions {
    pub fn new(thumbhash: bool) -> (r: Self)
        ensures
            r.thumbhash == thumbhash,
    {
        MetadataOptions { thumbhash }
    }
}

} // verus!
