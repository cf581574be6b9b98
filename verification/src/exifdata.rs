//! The EXIF fields the pipeline reads, modeled as plain values: the outside
//! EXIF reader fills this structure once per image, and everything read from
//! it afterwards is verified.

use vstd::prelude::*;
use crate::jsontext::dec_u64;
use crate::jsontext::lemma_dec_u64_shape;
use crate::outside::ascii_to_string;

verus! {

/// The EXIF orientation tag.
pub const TAG_ORIENTATION: u16 = 274;

/// The camera make tag.
pub const TAG_MAKE: u16 = 271;

/// The camera model tag.
pub const TAG_MODEL: u16 = 272;

/// The software tag.
pub const TAG_SOFTWARE: u16 = 305;

/// The photographic sensitivity (ISO) tag.
pub const TAG_ISO: u16 = 34855;

/// The exposure time tag.
pub const TAG_EXPOSURE_TIME: u16 = 33434;

/// One EXIF field value, reduced to the shapes the pipeline reads.
pub enum ExifValue {
    /// An unsigned integer field's first value.
    U32(u32),
    /// An ASCII field's byte strings.
    Ascii(Vec<Vec<u8>>),
    /// A rational field's (numerator, denominator) values.
    Rational(Vec<(u32, u32)>),
}

/// One EXIF field of the primary image.
pub struct ExifField {
    pub tag: u16,
    pub value: ExifValue,
}

/// The EXIF fields of the primary image, in reader order.
pub struct ExifData {
    pub fields: Vec<ExifField>,
}

/// The index of the first field with the tag, or `-1` when absent.
pub open spec fn tag_index(fields: Seq<ExifField>, tag: u16) -> int
    decreases fields.len(),
{
    if fields.len() == 0 {
        -1
    } else if fields[0].tag == tag {
        0
    } else {
        let r = tag_index(fields.drop_first(), tag);
        if r == -1 {
            -1
        } else {
            r + 1
        }
    }
}

/// `tag_index` finds the first field with the tag.
pub proof fn lemma_tag_index(fields: Seq<ExifField>, tag: u16)
    ensures
        tag_index(fields, tag) == -1 || 0 <= tag_index(fields, tag) < fields.len(),
        tag_index(fields, tag) >= 0 ==> fields[tag_index(fields, tag)].tag == tag,
        tag_index(fields, tag) == -1 ==> forall|i: int|
            0 <= i < fields.len() ==> fields[i].tag != tag,
    decreases fields.len(),
{
    if fields.len() > 0 && fields[0].tag != tag {
        let d = fields.drop_first();
        lemma_tag_index(d, tag);
        assert(forall|i: int| 1 <= i < fields.len() ==> fields[i] == #[trigger] d[i - 1]);
        if tag_index(fields, tag) == -1 {
            assert forall|i: int| 0 <= i < fields.len() implies fields[i].tag != tag by {
                if i > 0 {
                    assert(fields[i] == d[i - 1]);
                }
            }
        }
    }
}

impl ExifData {
    /// Wrap the fields the outside reader extracted.
    pub fn new(fields: Vec<ExifField>) -> (r: ExifData)
        ensures
            r.fields@ == fields@,
    {
        ExifData { fields }
    }

    /// The first field with the tag, if any.
    fn find_field(&self, tag: u16) -> (r: Option<&ExifField>)
        ensures
            match r {
                Some(f) => tag_index(self.fields@, tag) >= 0 && *f == self.fields@[tag_index(
                    self.fields@,
                    tag,
                )],
                None => tag_index(self.fields@, tag) == -1,
            },
    {
        proof {
            lemma_tag_index(self.fields@, tag);
        }
        let mut i: usize = 0;
        while i < self.fields.len()
            invariant
                0 <= i <= self.fields@.len(),
                forall|j: int| 0 <= j < i ==> self.fields@[j].tag != tag,
            decreases self.fields@.len() - i,
        {
            if self.fields[i].tag == tag {
                proof {
                    lemma_tag_first(self.fields@, tag, i as int);
                }
                return Some(&self.fields[i]);
            }
            i += 1;
        }
        proof {
            lemma_tag_index(self.fields@, tag);
            if tag_index(self.fields@, tag) >= 0 {
                assert(self.fields@[tag_index(self.fields@, tag)].tag == tag);
            }
        }
        None
    }

    /// What `get_field_u32` returns: the first field with the tag, when it
    /// is an unsigned integer.
    pub open spec fn spec_field_u32(&self, tag: u16) -> Option<u32> {
        let i = tag_index(self.fields@, tag);
        if i >= 0 {
            match self.fields@[i].value {
                ExifValue::U32(v) => Some(v),
                _ => None,
            }
        } else {
            None
        }
    }

    /// The first unsigned-integer value stored under the tag.
    pub fn get_field_u32(&self, tag: u16) -> (r: Option<u32>)
        ensures
            r == self.spec_field_u32(tag),
    {
        match self.find_field(tag) {
            Some(f) => match f.value {
                ExifValue::U32(v) => Some(v),
                _ => None,
            },
            None => None,
        }
    }

    /// What `get_field_rational` returns: the first rational value stored
    /// under the tag.
    pub open spec fn spec_field_rational(&self, tag: u16) -> Option<(u32, u32)> {
        let i = tag_index(self.fields@, tag);
        if i >= 0 {
            match self.fields@[i].value {
                ExifValue::Rational(v) => if v@.len() > 0 {
                    Some(v@[0])
                } else {
                    None
                },
                _ => None,
            }
        } else {
            None
        }
    }

    /// The first rational value stored under the tag, as
    /// (numerator, denominator).
    pub fn get_field_rational(&self, tag: u16) -> (r: Option<(u32, u32)>)
        ensures
            r == self.spec_field_rational(tag),
    {
        match self.find_field(tag) {
            Some(f) => match &f.value {
                ExifValue::Rational(v) => {
                    if v.len() > 0 {
                        Some((v[0].0, v[0].1))
                    } else {
                        None
                    }
                },
                _ => None,
            },
            None => None,
        }
    }

    /// What `get_field_string` returns: the first ASCII string stored under
    /// the tag, when it is seven-bit clean.
    pub open spec fn spec_field_string(&self, tag: u16) -> Option<Seq<u8>> {
        let i = tag_index(self.fields@, tag);
        if i >= 0 {
            match self.fields@[i].value {
                ExifValue::Ascii(v) => if v@.len() > 0 && seven_bit(v@[0]@) {
                    Some(v@[0]@)
                } else {
                    None
                },
                _ => None,
            }
        } else {
            None
        }
    }

    /// The first string stored under the tag.
    pub fn get_field_string(&self, tag: u16) -> (r: Option<String>)
        ensures
            match r {
                Some(st) => match self.spec_field_string(tag) {
                    Some(bytes) => st@.len() == bytes.len() && forall|i: int|
                        0 <= i < bytes.len() ==> st@[i] == bytes[i] as char,
                    None => false,
                },
                None => self.spec_field_string(tag) is None,
            },
    {
        match self.find_field(tag) {
            Some(f) => match &f.value {
                ExifValue::Ascii(v) => {
                    if v.len() > 0 {
                        let bytes = crate::image_types::clone_bytes(&v[0]);
                        if all_seven_bit(bytes.as_slice()) {
                            Some(ascii_to_string(bytes))
                        } else {
                            None
                        }
                    } else {
                        None
                    }
                },
                _ => None,
            },
            None => None,
        }
    }

    /// The image's EXIF orientation.
    pub fn get_orientation(&self) -> (r: Option<u32>)
        ensures
            r == self.spec_field_u32(TAG_ORIENTATION),
    {
        self.get_field_u32(TAG_ORIENTATION)
    }

    /// The camera make.
    pub fn get_make(&self) -> (r: Option<String>)
        ensures
            r is Some <==> self.spec_field_string(TAG_MAKE) is Some,
    {
        self.get_field_string(TAG_MAKE)
    }

    /// The camera model.
    pub fn get_model(&self) -> (r: Option<String>)
        ensures
            r is Some <==> self.spec_field_string(TAG_MODEL) is Some,
    {
        self.get_field_string(TAG_MODEL)
    }

    /// The software that produced the image.
    pub fn get_software(&self) -> (r: Option<String>)
        ensures
            r is Some <==> self.spec_field_string(TAG_SOFTWARE) is Some,
    {
        self.get_field_string(TAG_SOFTWARE)
    }

    /// The photographic sensitivity.
    pub fn get_iso(&self) -> (r: Option<u32>)
        ensures
            r == self.spec_field_u32(TAG_ISO),
    {
        self.get_field_u32(TAG_ISO)
    }

    /// The exposure time, spelled `numerator/denominator`.
    pub fn get_exposure_time(&self) -> (r: Option<String>)
        ensures
            match self.spec_field_rational(TAG_EXPOSURE_TIME) {
                Some(nd) => match r {
                    Some(st) => {
                        let bytes = dec_u64(nd.0 as nat) + seq![47u8] + dec_u64(nd.1 as nat);
                        st@.len() == bytes.len() && forall|i: int|
                            0 <= i < bytes.len() ==> st@[i] == bytes[i] as char
                    },
                    None => false,
                },
                None => r is None,
            },
    {
        match self.get_field_rational(TAG_EXPOSURE_TIME) {
            Some((num, denom)) => {
                let mut bytes: Vec<u8> = Vec::new();
                crate::jsontext::push_dec_u64(&mut bytes, num as u64);
                bytes.push(47);
                crate::jsontext::push_dec_u64(&mut bytes, denom as u64);
                proof {
                    lemma_dec_u64_shape(num as nat);
                    lemma_dec_u64_shape(denom as nat);
                    assert forall|i: int| 0 <= i < bytes@.len() implies bytes@[i] < 128 by {
                        let d1 = dec_u64(num as nat);
                        let d2 = dec_u64(denom as nat);
                        if i < d1.len() {
                            assert(bytes@[i] == d1[i]);
                            assert(crate::jsontext::is_digit(d1[i]));
                        } else if i == d1.len() {
                        } else {
                            assert(bytes@[i] == d2[i - d1.len() - 1]);
                            assert(crate::jsontext::is_digit(d2[i - d1.len() - 1]));
                        }
                    }
                }
                Some(ascii_to_string(bytes))
            },
            None => None,
        }
    }
}

/// When `tag` occurs first at position `i`, that is the index found.
proof fn lemma_tag_first(fields: Seq<ExifField>, tag: u16, i: int)
    requires
        0 <= i < fields.len(),
        fields[i].tag == tag,
        forall|j: int| 0 <= j < i ==> fields[j].tag != tag,
    ensures
        tag_index(fields, tag) == i,
    decreases i,
{
    if i > 0 {
        let d = fields.drop_first();
        assert(forall|j: int| 1 <= j < fields.len() ==> fields[j] == #[trigger] d[j - 1]);
        lemma_tag_first(d, tag, i - 1);
    }
}

/// Whether every byte is below 0x80.
pub open spec fn seven_bit(s: Seq<u8>) -> bool {
    forall|i: int| 0 <= i < s.len() ==> s[i] < 128
}

/// Check that every byte is below 0x80.
fn all_seven_bit(s: &[u8]) -> (r: bool)
    ensures
        r == seven_bit(s@),
{
    let mut i: usize = 0;
    while i < s.len()
        invariant
            0 <= i <= s@.len(),
            forall|j: int| 0 <= j < i ==> s@[j] < 128,
        decreases s@.len() - i,
    {
        if s[i] >= 128 {
            return false;
        }
        i += 1;
    }
    true
}

} // verus!
