//! The pixel ceiling and the BGRA conversion.

use burrow_engines::error::{Error, Stage};
use burrow_engines::limits::Limits;
use burrow_engines::raster::{bgra_to_rgba, check_pixels, BYTES_PER_PIXEL};

fn limits_with_pixels(max: u64) -> Limits {
    let mut limits = Limits::defaults();
    limits.max_pixels = max;
    limits
}

#[test]
fn a_request_at_the_ceiling_is_accepted() {
    let limits = limits_with_pixels(100);
    assert_eq!(check_pixels(10, 10, &limits).unwrap(), 100);
}

#[test]
fn one_pixel_past_the_ceiling_is_refused_at_the_pixels_stage() {
    let limits = limits_with_pixels(99);
    let error = check_pixels(10, 10, &limits).unwrap_err();
    match error {
        Error::LimitExceeded { limit, stage, requested, allowed } => {
            assert_eq!(limit, "max_pixels");
            assert_eq!(stage, Stage::Pixels);
            assert_eq!(requested, 100);
            assert_eq!(allowed, 99);
        }
        other => panic!("expected LimitExceeded, got {other:?}"),
    }
}

#[test]
fn a_zero_dimension_is_an_invalid_argument_not_a_small_raster() {
    let limits = limits_with_pixels(u64::MAX);
    assert!(matches!(check_pixels(0, 10, &limits), Err(Error::InvalidArgument(_))));
    assert!(matches!(check_pixels(10, 0, &limits), Err(Error::InvalidArgument(_))));
}

#[test]
fn the_product_is_computed_in_u64_so_it_cannot_wrap_into_something_small() {
    let error = check_pixels(65_536, 65_536, &Limits::defaults()).unwrap_err();
    assert!(matches!(error, Error::LimitExceeded { requested: 4_294_967_296, .. }));
}

#[test]
fn the_pdf_maximum_page_at_one_to_one_passes_the_default_ceiling() {
    let pixels = check_pixels(14_400, 14_400, &Limits::defaults()).unwrap();
    assert_eq!(pixels, 207_360_000);
    assert!(pixels < Limits::defaults().max_pixels);
    assert_eq!(pixels * BYTES_PER_PIXEL, 829_440_000);
}

#[test]
fn the_ceiling_adr_0027_chose_refuses_a_full_page_at_three_hundred_dpi() {
    let web = limits_with_pixels(4 * 1024 * 1024);
    assert!(check_pixels(1653, 2339, &web).is_ok());
    assert!(matches!(check_pixels(2479, 3508, &web), Err(Error::LimitExceeded { stage: Stage::Pixels, .. })));
}

#[test]
fn bgra_becomes_rgba_and_padding_is_skipped() {
    let stride = 12;
    let src = vec![
        1, 2, 3, 4, 5, 6, 7, 8, 0xAA, 0xAA, 0xAA, 0xAA, // row 0 + padding
        9, 10, 11, 12, 13, 14, 15, 16, 0xBB, 0xBB, 0xBB, 0xBB, // row 1 + padding
    ];
    let out = bgra_to_rgba(&src, stride, 2, 2).unwrap();
    assert_eq!(out, vec![3, 2, 1, 4, 7, 6, 5, 8, 11, 10, 9, 12, 15, 14, 13, 16]);
}

#[test]
fn a_stride_narrower_than_a_row_is_the_engine_contradicting_itself() {
    let src = vec![0_u8; 64];
    assert!(matches!(bgra_to_rgba(&src, 4, 2, 2), Err(Error::Internal(_))));
}

#[test]
fn a_short_buffer_is_refused_rather_than_read_past() {
    let src = vec![0_u8; 8];
    assert!(matches!(bgra_to_rgba(&src, 8, 2, 2), Err(Error::Internal(_))));
}

#[test]
fn a_zero_height_raster_is_empty() {
    assert_eq!(bgra_to_rgba(&[], 8, 2, 0).unwrap(), Vec::<u8>::new());
}
