//! Processing decisions: sniffing, resize arithmetic, format and quality
//! resolution, query normalization, EXIF reads.

use imaged::exifdata::{ExifData, ExifField, ExifValue, TAG_EXPOSURE_TIME, TAG_MAKE, TAG_ORIENTATION};
use imaged::image_types::{ImageType, InputImageType, MetadataOptions, ProcessOptions};
use imaged::process::{
    clamp_blur, get_img_dims, mul_div_round, orient_op, resize_plan, resolve_output,
    worker_permits, OrientOp, ProcessError, ResizeDims,
};
use imaged::query::{choose_format, flag_enabled, options_from_query, parse_format_list, ImageQuery};

#[test]
fn sniffs_known_containers() {
    let mut jpeg = vec![0xFF, 0xD8, 0xFF];
    jpeg.resize(12, 0);
    assert_eq!(InputImageType::determine_image_type(&jpeg), Some(InputImageType::Jpeg));
    let mut png = vec![0x89, 0x50, 0x4E, 0x47];
    png.resize(12, 0);
    assert_eq!(InputImageType::determine_image_type(&png), Some(InputImageType::Png));
    let mut tiff = vec![0x49, 0x49, 0x2A, 0x00];
    tiff.resize(12, 0);
    assert_eq!(InputImageType::determine_image_type(&tiff), Some(InputImageType::Tiff));
    let mut webp = b"RIFF\x00\x00\x00\x00WEBP".to_vec();
    assert_eq!(InputImageType::determine_image_type(&webp), Some(InputImageType::Webp));
    webp.truncate(11);
    assert_eq!(InputImageType::determine_image_type(&webp), None, "too short");
    let avif = b"\x00\x00\x00\x20ftypavif".to_vec();
    assert_eq!(InputImageType::determine_image_type(&avif), Some(InputImageType::Avif));
    assert_eq!(InputImageType::determine_image_type(b"hello world!"), None);
}

#[test]
fn mul_div_round_rounds_to_nearest() {
    assert_eq!(mul_div_round(100, 3, 2), Ok(150));
    // 7 * 5 / 3 = 11.66... rounds to 12
    assert_eq!(mul_div_round(7, 5, 3), Ok(12));
    // 7 * 4 / 3 = 9.33... rounds to 9
    assert_eq!(mul_div_round(7, 4, 3), Ok(9));
    assert_eq!(mul_div_round(1, 1, 0), Err(ProcessError::DivByZero));
    assert_eq!(
        mul_div_round(u32::MAX, u32::MAX, 1),
        Err(ProcessError::DimensionOverflow)
    );
}

#[test]
fn resize_plan_covers_all_request_shapes() {
    // both dimensions: crop-to-fit unless they already match
    assert_eq!(
        resize_plan(800, 600, Some(100), Some(50)),
        Ok(Some(ResizeDims { width: 100, height: 50, crop: true }))
    );
    assert_eq!(resize_plan(800, 600, Some(800), Some(600)), Ok(None));
    // one dimension: the other scales proportionally, rounded
    assert_eq!(
        resize_plan(800, 600, Some(400), None),
        Ok(Some(ResizeDims { width: 400, height: 300, crop: false }))
    );
    assert_eq!(
        resize_plan(800, 600, None, Some(150)),
        Ok(Some(ResizeDims { width: 200, height: 150, crop: false }))
    );
    assert_eq!(resize_plan(800, 600, None, None), Ok(None));
    assert_eq!(
        resize_plan(0, 600, Some(100), None),
        Err(ProcessError::DivByZero)
    );
}

#[test]
fn thumbnail_dims_never_grow() {
    assert_eq!(get_img_dims(800, 600, Some(100), Some(50)), (100, 50));
    assert_eq!(get_img_dims(800, 600, Some(1000), None), (800, 600));
    assert_eq!(get_img_dims(800, 600, Some(100), None), (100, 600));
    assert_eq!(get_img_dims(800, 600, None, Some(1000)), (800, 600));
    assert_eq!(get_img_dims(800, 600, None, None), (800, 600));
}

#[test]
fn orientation_maps_to_operations() {
    assert_eq!(orient_op(None), OrientOp::Keep);
    assert_eq!(orient_op(Some(1)), OrientOp::Keep);
    assert_eq!(orient_op(Some(2)), OrientOp::FlipHorizontal);
    assert_eq!(orient_op(Some(3)), OrientOp::Rotate180);
    assert_eq!(orient_op(Some(4)), OrientOp::FlipVertical);
    assert_eq!(orient_op(Some(5)), OrientOp::Rotate90FlipHorizontal);
    assert_eq!(orient_op(Some(6)), OrientOp::Rotate90);
    assert_eq!(orient_op(Some(7)), OrientOp::Rotate270FlipHorizontal);
    assert_eq!(orient_op(Some(8)), OrientOp::Rotate270);
    assert_eq!(orient_op(Some(9)), OrientOp::Keep);
}

#[test]
fn output_format_and_quality_resolution() {
    let none = ProcessOptions { width: None, height: None, out_type: None, quality: None, blur: None };
    assert_eq!(resolve_output(&none, InputImageType::Png), (ImageType::Png, 75));
    let avif = ProcessOptions { out_type: Some(ImageType::Avif), ..none };
    assert_eq!(resolve_output(&avif, InputImageType::Png), (ImageType::Avif, 50));
    let q = ProcessOptions { quality: Some(300), ..none };
    assert_eq!(resolve_output(&q, InputImageType::Jpeg), (ImageType::Jpeg, 100));
    let q0 = ProcessOptions { quality: Some(0), ..none };
    assert_eq!(resolve_output(&q0, InputImageType::Jpeg), (ImageType::Jpeg, 1));
    assert_eq!(clamp_blur(3), 3);
    assert_eq!(clamp_blur(1000), 100);
    assert_eq!(worker_permits(0), 1);
    assert_eq!(worker_permits(8), 8);
}

#[test]
fn image_type_names_and_defaults() {
    assert_eq!(ImageType::Avif.as_str(), "avif");
    assert_eq!(ImageType::Jpeg.mimetype(), "image/jpeg");
    assert_eq!(ImageType::parse(b"webp"), Some(ImageType::Webp));
    assert_eq!(ImageType::parse(b"gif"), None);
    assert_eq!(ImageType::Avif.default_quality(), 50);
    assert_eq!(ImageType::Tiff.default_quality(), 75);
    assert_eq!(ImageType::from_input(InputImageType::Tiff), ImageType::Tiff);
    assert!(MetadataOptions::new(true).thumbhash);
}

#[test]
fn format_negotiation_against_accept_header() {
    let formats = parse_format_list(b"avif,webp,jpeg");
    assert_eq!(formats, vec![ImageType::Avif, ImageType::Webp, ImageType::Jpeg]);
    // first preferred format whose MIME appears in Accept wins
    let accept: &[u8] = b"text/html,image/webp,image/avif";
    assert_eq!(choose_format(&formats, Some(accept)), Some(ImageType::Avif));
    let accept2: &[u8] = b"text/html,image/webp";
    assert_eq!(choose_format(&formats, Some(accept2)), Some(ImageType::Webp));
    // no preference matched: the last element is the explicit fallback
    let accept3: &[u8] = b"text/html";
    assert_eq!(choose_format(&formats, Some(accept3)), Some(ImageType::Jpeg));
    assert_eq!(choose_format(&formats, None), Some(ImageType::Jpeg));
    assert_eq!(choose_format(&parse_format_list(b""), None), None);
    // unrecognized names are skipped
    assert_eq!(parse_format_list(b"gif,png"), vec![ImageType::Png]);
}

#[test]
fn query_flags_and_normalization() {
    assert!(!flag_enabled(&None));
    assert!(!flag_enabled(&Some("false".to_string())));
    assert!(flag_enabled(&Some("true".to_string())));
    assert!(flag_enabled(&Some("".to_string())));
    let q = ImageQuery {
        url: "http://u".to_string(),
        quality: Some(200),
        format: Some(b"webp".to_vec()),
        debug: None,
        timing: Some("1".to_string()),
        height: Some(0),
        width: Some(320),
        blur: Some(0),
        nocache: None,
        s: None,
    };
    assert!(q.is_timing());
    assert!(!q.is_debug());
    assert!(!q.is_nocache());
    let opts = options_from_query(&q, None);
    assert_eq!(opts.width, Some(320));
    assert_eq!(opts.height, None, "zero means absent");
    assert_eq!(opts.blur, None, "zero means absent");
    assert_eq!(opts.quality, Some(100), "clamped to 100");
    assert_eq!(opts.out_type, Some(ImageType::Webp));
}

#[test]
fn exif_reads() {
    let data = ExifData::new(vec![
        ExifField { tag: TAG_ORIENTATION, value: ExifValue::U32(6) },
        ExifField { tag: TAG_MAKE, value: ExifValue::Ascii(vec![b"Acme".to_vec()]) },
        ExifField { tag: TAG_EXPOSURE_TIME, value: ExifValue::Rational(vec![(1, 250)]) },
    ]);
    assert_eq!(data.get_orientation(), Some(6));
    assert_eq!(data.get_make(), Some("Acme".to_string()));
    assert_eq!(data.get_model(), None);
    assert_eq!(data.get_exposure_time(), Some("1/250".to_string()));
    assert_eq!(data.get_iso(), None);
    assert_eq!(data.get_field_rational(TAG_EXPOSURE_TIME), Some((1, 250)));
}
