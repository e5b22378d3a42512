use padify::background::{deduce_background, dominant_sample, quantize_key, SampleRegion};
use padify::color::{parse_color, parse_hex_byte, ColorError};
use padify::crop::{auto_crop_bottom_partial, find_clusters, twice_median, CropReason};
use padify::frame::frame_image;
use padify::padding::{
    auto_padding, clamp_u32, pad_image, padded_dimensions, resolve_padding, PadError,
};
use padify::raster::{Image, Pixel};
use padify::rows::{classify_rows, is_background};

fn white() -> Pixel {
    Pixel::new(255, 255, 255, 255)
}

fn black() -> Pixel {
    Pixel::new(0, 0, 0, 255)
}

/// A `w x h` image of `bg` with full-width bands of `fg` over the inclusive row ranges.
fn banded(w: u32, h: u32, bg: Pixel, fg: Pixel, bands: &[(u32, u32)]) -> Image {
    let mut pixels = Vec::new();
    for y in 0..h {
        let inside = bands.iter().any(|&(a, b)| a <= y && y <= b);
        for _ in 0..w {
            pixels.push(if inside { fg } else { bg });
        }
    }
    Image::from_pixels(w, h, pixels).unwrap()
}

#[test]
fn unequal_padding_is_rejected() {
    assert_eq!(
        resolve_padding(None, Some(10), Some(12), 500, 500),
        Err(PadError::UnequalPadding)
    );
    assert_eq!(resolve_padding(None, Some(10), Some(10), 500, 500), Ok((10, 10)));
}

#[test]
fn padding_resolution_rules() {
    assert_eq!(resolve_padding(Some(7), Some(10), Some(12), 500, 500), Ok((7, 7)));
    assert_eq!(resolve_padding(None, Some(9), None, 500, 500), Ok((9, 9)));
    assert_eq!(resolve_padding(None, None, Some(4), 500, 500), Ok((4, 4)));
    assert_eq!(resolve_padding(None, None, None, 2000, 1000), Ok((60, 60)));
}

#[test]
fn auto_padding_is_clamped() {
    assert_eq!(auto_padding(100, 100), 48);
    assert_eq!(auto_padding(1000, 3000), 60);
    assert_eq!(auto_padding(1025, 5000), 62);
    assert_eq!(auto_padding(10000, 10000), 320);
    assert_eq!(auto_padding(0, 10), 48);
}

#[test]
fn overflow_is_rejected() {
    assert_eq!(padded_dimensions(u32::MAX - 10, 10, 10, 0), Err(PadError::WidthTooLarge));
    assert_eq!(padded_dimensions(10, u32::MAX - 1, 0, 1), Err(PadError::HeightTooLarge));
    assert_eq!(
        padded_dimensions(1, 1, u32::MAX / 2 + 1, 0),
        Err(PadError::HorizontalPaddingTooLarge)
    );
    assert_eq!(
        padded_dimensions(1, 1, 0, u32::MAX / 2 + 1),
        Err(PadError::VerticalPaddingTooLarge)
    );
    assert_eq!(padded_dimensions(100, 50, 10, 20), Ok((120, 90)));
    let img = banded(4, 4, white(), black(), &[]);
    assert_eq!(pad_image(&img, white(), u32::MAX / 2, u32::MAX / 2).err(), Some(PadError::WidthTooLarge));
}

#[test]
fn padding_places_source_exactly() {
    let bg = Pixel::new(1, 2, 3, 4);
    let mut pixels = Vec::new();
    for i in 0..6u8 {
        pixels.push(Pixel::new(i, i, i, 255));
    }
    let img = Image::from_pixels(3, 2, pixels).unwrap();
    let out = pad_image(&img, bg, 2, 1).unwrap();
    assert_eq!((out.width, out.height), (7, 4));
    for y in 0..4u32 {
        for x in 0..7u32 {
            let expected = if (2..5).contains(&x) && (1..3).contains(&y) {
                img.get_pixel(x - 2, y - 1)
            } else {
                bg
            };
            assert_eq!(out.get_pixel(x, y), expected);
        }
    }
}

#[test]
fn partial_line_is_cropped() {
    let img = banded(100, 133, white(), black(), &[(20, 60), (120, 130)]);
    let r = auto_crop_bottom_partial(&img, white());
    assert_eq!(r.report.reason, CropReason::PartialLine);
    assert_eq!(r.report.original_height, 133);
    assert_eq!(r.report.new_height, 120);
    assert_eq!(r.image.height, 120);
    assert_eq!(r.image.width, 100);
    assert_eq!(r.image.pixels[..], img.pixels[..100 * 120]);
}

#[test]
fn partial_line_kept_when_far_from_bottom() {
    let img = banded(100, 200, white(), black(), &[(20, 60), (120, 130)]);
    let r = auto_crop_bottom_partial(&img, white());
    assert_eq!(r.report.reason, CropReason::Clean);
    assert_eq!(r.report.new_height, 200);
}

#[test]
fn clean_image_is_unchanged() {
    let img = banded(100, 200, white(), black(), &[(20, 60)]);
    let r = auto_crop_bottom_partial(&img, white());
    assert_eq!(r.report.reason, CropReason::Clean);
    assert_eq!(r.report.new_height, 200);
    assert_eq!(r.image.pixels, img.pixels);
}

#[test]
fn uniform_image_has_no_clusters() {
    let img = banded(50, 40, white(), black(), &[]);
    let r = auto_crop_bottom_partial(&img, white());
    assert_eq!(r.report.reason, CropReason::NoClusters);
    assert_eq!(r.report.new_height, 40);
    assert_eq!(r.image.pixels, img.pixels);
}

#[test]
fn empty_image_is_left_alone() {
    let img = Image::from_pixels(0, 5, Vec::new()).unwrap();
    let r = auto_crop_bottom_partial(&img, white());
    assert_eq!(r.report.reason, CropReason::Empty);
    assert_eq!(r.report.new_height, 5);
    assert_eq!(deduce_background(&img), Pixel::transparent());
}

#[test]
fn cursor_residue_is_cropped() {
    let (w, h) = (400u32, 300u32);
    let mut img = banded(w, h, white(), black(), &[(20, 39), (60, 79)]);
    for y in 100..103u32 {
        for x in 0..4u32 {
            img.pixels[(y * w + x) as usize] = black();
        }
    }
    let r = auto_crop_bottom_partial(&img, white());
    assert_eq!(r.report.reason, CropReason::CursorResidue);
    assert_eq!(r.report.new_height, 100);
}

#[test]
fn row_classification_thresholds() {
    let w = 400u32;
    let mut img = banded(w, 3, white(), black(), &[]);
    // row 0: 8 of 400 off (2%, not major, minor); row 1: 9 of 400 (major); row 2: 2 of 400 (0.5%, neither)
    for x in 0..8u32 {
        img.pixels[x as usize] = black();
    }
    for x in 0..9u32 {
        img.pixels[(w + x) as usize] = black();
    }
    for x in 0..2u32 {
        img.pixels[(2 * w + x) as usize] = black();
    }
    let (major, minor) = classify_rows(&img, white());
    assert_eq!(major, vec![false, true, false]);
    assert_eq!(minor, vec![true, true, false]);
}

#[test]
fn clusters_are_maximal_runs() {
    let rows = vec![false, true, true, false, true, false, false, true];
    assert_eq!(find_clusters(&rows), vec![(1, 2), (4, 4), (7, 7)]);
    assert_eq!(find_clusters(&vec![false, false]), Vec::<(u32, u32)>::new());
}

#[test]
fn median_is_doubled() {
    assert_eq!(twice_median(&vec![9, 1, 5]), 10);
    assert_eq!(twice_median(&vec![7, 1, 4, 2]), 6);
    assert_eq!(twice_median(&vec![]), 0);
}

#[test]
fn background_from_uniform_border() {
    let mut img = banded(300, 300, Pixel::new(250, 250, 250, 255), black(), &[]);
    for y in 100..200u32 {
        for x in 100..200u32 {
            img.pixels[(y * 300 + x) as usize] = black();
        }
    }
    assert_eq!(deduce_background(&img), Pixel::new(250, 250, 250, 255));
}

#[test]
fn background_is_bucket_mean() {
    // Two shades in one bucket, alternating by column: the mean is returned.
    let mut pixels = Vec::new();
    for _y in 0..20u32 {
        for x in 0..20u32 {
            pixels.push(if x % 2 == 0 {
                Pixel::new(248, 248, 248, 255)
            } else {
                Pixel::new(250, 252, 254, 255)
            });
        }
    }
    let img = Image::from_pixels(20, 20, pixels).unwrap();
    assert_eq!(deduce_background(&img), Pixel::new(249, 250, 251, 255));
}

#[test]
fn transparent_border_gives_transparent() {
    let img = banded(64, 64, Pixel::new(10, 20, 30, 0), black(), &[]);
    assert_eq!(deduce_background(&img), Pixel::transparent());
}

#[test]
fn sampling_counts() {
    let mut img = banded(10, 10, white(), black(), &[]);
    img.pixels[0] = Pixel::new(0, 0, 0, 3);
    let r = dominant_sample(&img, 1, 1, SampleRegion::Whole);
    assert_eq!(r.total, 100);
    assert_eq!(r.transparent, 1);
    let b = r.best.unwrap();
    assert_eq!(b.count, 99);
    assert_eq!(b.sum_r, 99 * 255);
    let border = dominant_sample(&img, 1, 1, SampleRegion::Border(2));
    assert_eq!(border.total, 100 - 36);
}

#[test]
fn quantized_keys() {
    assert_eq!(quantize_key(Pixel::new(255, 255, 255, 255)), (31 << 15) | (31 << 10) | (31 << 5) | 31);
    assert_eq!(quantize_key(Pixel::new(8, 16, 24, 7)), (1 << 15) | (2 << 10) | (3 << 5));
}

#[test]
fn background_distance() {
    assert!(is_background(Pixel::new(10, 10, 10, 10), Pixel::new(14, 14, 14, 16), 18));
    assert!(!is_background(Pixel::new(10, 10, 10, 10), Pixel::new(14, 14, 14, 17), 18));
    assert_eq!(clamp_u32(5, 8, 64), 8);
    assert_eq!(clamp_u32(70, 8, 64), 64);
    assert_eq!(clamp_u32(20, 8, 64), 20);
}

#[test]
fn color_strings() {
    assert_eq!(parse_color("#ff8000"), Ok(Pixel::new(255, 128, 0, 255)));
    assert_eq!(parse_color("11223344"), Ok(Pixel::new(17, 34, 51, 68)));
    assert_eq!(parse_color("  TransParent \n"), Ok(Pixel::transparent()));
    assert_eq!(parse_color("#12345"), Err(ColorError::BadLength));
    assert_eq!(parse_color("#gg0000"), Err(ColorError::InvalidComponent));
    assert_eq!(parse_color(" #A0b0C0 "), Ok(Pixel::new(160, 176, 192, 255)));
    assert_eq!(parse_hex_byte(b'+', b'f'), Some(15));
    assert_eq!(parse_hex_byte(b'7', b'F'), Some(127));
    assert_eq!(parse_hex_byte(b'-', b'1'), None);
}

#[test]
fn framing_crops_then_pads() {
    let img = banded(100, 133, white(), black(), &[(20, 60), (120, 130)]);
    let f = frame_image(&img, white(), true, Some(5), None, None).unwrap();
    assert_eq!(f.report.reason, CropReason::PartialLine);
    assert_eq!((f.image.width, f.image.height), (110, 130));
    assert_eq!(f.image.get_pixel(0, 0), white());
    assert_eq!(f.image.get_pixel(5, 25), black());
    assert_eq!(f.image.get_pixel(5, 24), white());
    let off = frame_image(&img, white(), false, None, Some(3), Some(3)).unwrap();
    assert_eq!(off.report.reason, CropReason::Disabled);
    assert_eq!((off.image.width, off.image.height), (106, 139));
    assert_eq!(
        frame_image(&img, white(), true, None, Some(3), Some(4)).err(),
        Some(PadError::UnequalPadding)
    );
}

#[test]
fn filled_image_and_lookup() {
    let img = Image::filled(3, 2, Pixel::new(9, 8, 7, 6));
    assert_eq!(img.pixels.len(), 6);
    assert_eq!(img.get_pixel(2, 1), Pixel::new(9, 8, 7, 6));
    assert!(Image::from_pixels(3, 2, vec![white(); 5]).is_none());
    let top = banded(2, 3, white(), black(), &[(2, 2)]).top_rows(2);
    assert_eq!((top.width, top.height), (2, 2));
    assert_eq!(top.pixels, vec![white(); 4]);
}
