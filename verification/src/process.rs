//! The pure decisions of the image processor: format sniffing, output
//! format and quality resolution, orientation handling, and the resize
//! arithmetic. The decoding, resampling and encoding themselves are outside
//! collaborators; everything they are told to do is computed here.

use vstd::prelude::*;
use crate::image_types::ImageType;
use crate::image_types::InputImageType;
use crate::image_types::ProcessOptions;
use crate::image_types::input_to_output;
use crate::image_types::spec_default_quality;

verus! {

/// Why a processing decision failed.
#[derive(Clone, Copy, Debug, PartialEq, Eq, Structural)]
pub enum ProcessError {
    /// A scaled dimension would divide by a zero source dimension.
    DivByZero,
    /// A scaled dimension does not fit in 32 bits.
    DimensionOverflow,
}

/// The first bytes of each recognized container: JPEG `FF D8 FF`; PNG
/// `89 50 4E 47`; TIFF `49 49 2A 00` or `4D 4D 00 2A`; WEBP has `WEBP` at
/// offset 8; AVIF has `ftypavif` at offset 4. Buffers shorter than 12 bytes
/// are never recognized.
pub open spec fn sniff_spec(b: Seq<u8>) -> Option<InputImageType> {
    if b.len() < 12 {
        None
    } else if b[0] == 0xFF && b[1] == 0xD8 && b[2] == 0xFF {
        Some(InputImageType::Jpeg)
    } else if b[0] == 0x89 && b[1] == 0x50 && b[2] == 0x4E && b[3] == 0x47 {
        Some(InputImageType::Png)
    } else if (b[0] == 0x49 && b[1] == 0x49 && b[2] == 0x2A && b[3] == 0x00) || (b[0] == 0x4D
        && b[1] == 0x4D && b[2] == 0x00 && b[3] == 0x2A) {
        Some(InputImageType::Tiff)
    } else if b[8] == 0x57 && b[9] == 0x45 && b[10] == 0x42 && b[11] == 0x50 {
        Some(InputImageType::Webp)
    } else if b[4] == 0x66 && b[5] == 0x74 && b[6] == 0x79 && b[7] == 0x70 && b[8] == 0x61
        && b[9] == 0x76 && b[10] == 0x69 && b[11] == 0x66 {
        Some(InputImageType::Avif)
    } else {
        None
    }
}

impl InputImageType {
    /// Sniff the image container from the first bytes of the body.
    pub fn determine_image_type(buf: &[u8]) -> (r: Option<InputImageType>)
        ensures
            r == sniff_spec(buf@),
    {
        if buf.len() < 12 {
            return None;
        }
        if buf[0] == 0xFF && buf[1] == 0xD8 && buf[2] == 0xFF {
            return Some(InputImageType::Jpeg);
        }
        if buf[0] == 0x89 && buf[1] == 0x50 && buf[2] == 0x4E && buf[3] == 0x47 {
            return Some(InputImageType::Png);
        }
        if (buf[0] == 0x49 && buf[1] == 0x49 && buf[2] == 0x2A && buf[3] == 0x00) || (buf[0]
            == 0x4D && buf[1] == 0x4D && buf[2] == 0x00 && buf[3] == 0x2A) {
            return Some(InputImageType::Tiff);
        }
        if buf[8] == 0x57 && buf[9] == 0x45 && buf[10] == 0x42 && buf[11] == 0x50 {
            return Some(InputImageType::Webp);
        }
        if buf[4] == 0x66 && buf[5] == 0x74 && buf[6] == 0x79 && buf[7] == 0x70 && buf[8] == 0x61
            && buf[9] == 0x76 && buf[10] == 0x69 && buf[11] == 0x66 {
            return Some(InputImageType::Avif);
        }
        None
    }
}

/// `round(a * b / c)`, computed without intermediate overflow.
pub open spec fn mul_div_round_spec(a: int, b: int, c: int) -> int
    recommends
        c > 0,
{
    (a * b + c / 2) / c
}

/// Compute `round(a * b / c)` in 64-bit arithmetic; an error names a zero
/// divisor or a result that does not fit 32 bits.
pub fn mul_div_round(a: u32, b: u32, c: u32) -> (r: Result<u32, ProcessError>)
    ensures
        c == 0 ==> r == Err::<u32, ProcessError>(ProcessError::DivByZero),
        c != 0 ==> {
            let v = mul_div_round_spec(a as int, b as int, c as int);
            if v <= u32::MAX {
                r == Ok::<u32, ProcessError>(v as u32)
            } else {
                r == Err::<u32, ProcessError>(ProcessError::DimensionOverflow)
            }
        },
{
    if c == 0 {
        return Err(ProcessError::DivByZero);
    }
    let a64 = a as u64;
    let b64 = b as u64;
    let c64 = c as u64;
    proof {
        assert(a64 * b64 <= 0xFFFFFFFFu64 * 0xFFFFFFFFu64) by (nonlinear_arith)
            requires
                a64 <= 0xFFFFFFFFu64,
                b64 <= 0xFFFFFFFFu64,
        ;
    }
    let num = a64 * b64 + c64 / 2;
    let out = num / c64;
    proof {
        assert(num == a as int * b as int + c as int / 2);
        assert(out == mul_div_round_spec(a as int, b as int, c as int));
    }
    if out > 0xFFFFFFFF {
        return Err(ProcessError::DimensionOverflow);
    }
    Ok(out as u32)
}

/// The target geometry of a resize: the output dimensions and whether the
/// source is cropped to fill them exactly.
#[derive(Clone, Copy, Debug, PartialEq, Eq, Structural)]
pub struct ResizeDims {
    pub width: u32,
    pub height: u32,
    pub crop: bool,
}

/// Decide the resize geometry from the source dimensions and the requested
/// ones: both given means crop-to-fit (or nothing when they already match);
/// one given means scale the other proportionally, rounded; none means
/// leave the image alone.
pub fn resize_plan(orig_width: u32, orig_height: u32, width: Option<u32>, height: Option<u32>)
    -> (r: Result<Option<ResizeDims>, ProcessError>)
    ensures
        match (width, height) {
            (Some(w), Some(h)) => if w == orig_width && h == orig_height {
                r == Ok::<Option<ResizeDims>, ProcessError>(None)
            } else {
                r == Ok::<Option<ResizeDims>, ProcessError>(
                    Some(ResizeDims { width: w, height: h, crop: true }),
                )
            },
            (Some(w), None) => {
                if orig_width == 0 {
                    r == Err::<Option<ResizeDims>, ProcessError>(ProcessError::DivByZero)
                } else {
                    let v = mul_div_round_spec(w as int, orig_height as int, orig_width as int);
                    if v <= u32::MAX {
                        r == Ok::<Option<ResizeDims>, ProcessError>(
                            Some(ResizeDims { width: w, height: v as u32, crop: false }),
                        )
                    } else {
                        r == Err::<Option<ResizeDims>, ProcessError>(
                            ProcessError::DimensionOverflow,
                        )
                    }
                }
            },
            (None, Some(h)) => {
                if orig_height == 0 {
                    r == Err::<Option<ResizeDims>, ProcessError>(ProcessError::DivByZero)
                } else {
                    let v = mul_div_round_spec(h as int, orig_width as int, orig_height as int);
                    if v <= u32::MAX {
                        r == Ok::<Option<ResizeDims>, ProcessError>(
                            Some(ResizeDims { width: v as u32, height: h, crop: false }),
                        )
                    } else {
                        r == Err::<Option<ResizeDims>, ProcessError>(
                            ProcessError::DimensionOverflow,
                        )
                    }
                }
            },
            (None, None) => r == Ok::<Option<ResizeDims>, ProcessError>(None),
        },
{
    match (width, height) {
        (Some(w), Some(h)) => {
            if w == orig_width && h == orig_height {
                Ok(None)
            } else {
                Ok(Some(ResizeDims { width: w, height: h, crop: true }))
            }
        },
        (Some(w), None) => {
            match mul_div_round(w, orig_height, orig_width) {
                Ok(h) => Ok(Some(ResizeDims { width: w, height: h, crop: false })),
                Err(e) => Err(e),
            }
        },
        (None, Some(h)) => {
            match mul_div_round(h, orig_width, orig_height) {
                Ok(w) => Ok(Some(ResizeDims { width: w, height: h, crop: false })),
                Err(e) => Err(e),
            }
        },
        (None, None) => Ok(None),
    }
}

/// Decide a thumbnail's bounding dimensions: explicit when both are given;
/// a single bound only shrinks, never grows, the image.
pub fn get_img_dims(orig_width: u32, orig_height: u32, width: Option<u32>, height: Option<u32>)
    -> (r: (u32, u32))
    ensures
        match (width, height) {
            (Some(w), Some(h)) => r == (w, h),
            (Some(w), None) => r == if w >= orig_width {
                (orig_width, orig_height)
            } else {
                (w, orig_height)
            },
            (None, Some(h)) => r == if h >= orig_height {
                (orig_width, orig_height)
            } else {
                (orig_width, h)
            },
            (None, None) => r == (orig_width, orig_height),
        },
{
    if let (Some(w), Some(h)) = (width, height) {
        return (w, h);
    }
    if let Some(w) = width {
        if w >= orig_width {
            return (orig_width, orig_height);
        }
        return (w, orig_height);
    }
    if let Some(h) = height {
        if h >= orig_height {
            return (orig_width, orig_height);
        }
        return (orig_width, h);
    }
    (orig_width, orig_height)
}

/// The reorientation an EXIF orientation value calls for.
#[derive(Clone, Copy, Debug, PartialEq, Eq, Structural)]
pub enum OrientOp {
    Keep,
    FlipHorizontal,
    Rotate180,
    FlipVertical,
    Rotate90FlipHorizontal,
    Rotate90,
    Rotate270FlipHorizontal,
    Rotate270,
}

/// Map an EXIF orientation value to the reorientation to apply; values
/// outside 2..=8, and an absent value, leave the image alone.
pub fn orient_op(orientation: Option<u32>) -> (r: OrientOp)
    ensures
        r == match orientation {
            Some(2u32) => OrientOp::FlipHorizontal,
            Some(3u32) => OrientOp::Rotate180,
            Some(4u32) => OrientOp::FlipVertical,
            Some(5u32) => OrientOp::Rotate90FlipHorizontal,
            Some(6u32) => OrientOp::Rotate90,
            Some(7u32) => OrientOp::Rotate270FlipHorizontal,
            Some(8u32) => OrientOp::Rotate270,
            _ => OrientOp::Keep,
        },
{
    match orientation {
        Some(2) => OrientOp::FlipHorizontal,
        Some(3) => OrientOp::Rotate180,
        Some(4) => OrientOp::FlipVertical,
        Some(5) => OrientOp::Rotate90FlipHorizontal,
        Some(6) => OrientOp::Rotate90,
        Some(7) => OrientOp::Rotate270FlipHorizontal,
        Some(8) => OrientOp::Rotate270,
        _ => OrientOp::Keep,
    }
}

/// Resolve the output format and encoder quality: the requested format, or
/// the input's own; the requested quality clamped to 1..=100, or the
/// format's default.
pub fn resolve_output(ops: &ProcessOptions, img_type: InputImageType) -> (r: (ImageType, u32))
    ensures
        r.0 == match ops.out_type {
            Some(t) => t,
            None => input_to_output(img_type),
        },
        r.1 == match ops.quality {
            Some(q) => if q < 1 {
                1u32
            } else if q > 100 {
                100u32
            } else {
                q
            },
            None => spec_default_quality(
                match ops.out_type {
                    Some(t) => t,
                    None => input_to_output(img_type),
                },
            ),
        },
{
    let out_type = match ops.out_type {
        Some(t) => t,
        None => ImageType::from_input(img_type),
    };
    let quality = match ops.quality {
        Some(q) => {
            if q < 1 {
                1
            } else if q > 100 {
                100
            } else {
                q
            }
        },
        None => out_type.default_quality(),
    };
    (out_type, quality)
}

/// Clamp a blur request to the sigma range the encoder accepts.
pub fn clamp_blur(blur: u32) -> (r: u32)
    ensures
        r == if blur <= 100 {
            blur as int
        } else {
            100int
        },
{
    if blur <= 100 {
        blur
    } else {
        100
    }
}

/// The number of processor worker permits: the core count, at least one.
pub fn worker_permits(num_workers: usize) -> (r: usize)
    ensures
        r == if num_workers >= 1 {
            num_workers as int
        } else {
            1int
        },
{
    if num_workers >= 1 {
        num_workers
    } else {
        1
    }
}

} // verus!
