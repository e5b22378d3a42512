use crate::crop::{auto_crop_bottom_partial, crop_outcome, CropReason, CropReport, CropResult};
use crate::padding::{canvas_spec, pad_image, resolve_padding, resolve_padding_spec, PadError};
use crate::raster::{Image, Pixel};
use vstd::prelude::*;

verus! {

/// The finished canvas and the crop decision that led to it.
#[derive(Debug)]
pub struct Framed {
    pub image: Image,
    pub report: CropReport,
}

/// Height kept by the crop step, and why.
pub open spec fn kept_rows(img: Image, bg: Pixel, crop: bool) -> (int, CropReason) {
    if crop {
        crop_outcome(img, bg)
    } else {
        (img.height as int, CropReason::Disabled)
    }
}

/// What the framed canvas holds at column `x` of row `y`: the top `rows`
/// rows of `img` placed at `(pad_x, pad_y)`, the background elsewhere.
pub open spec fn framed_pixel(
    img: Image,
    rows: int,
    bg: Pixel,
    pad_x: int,
    pad_y: int,
    x: int,
    y: int,
) -> Pixel {
    if pad_x <= x < pad_x + img.width && pad_y <= y < pad_y + rows {
        img.at(x - pad_x, y - pad_y)
    } else {
        bg
    }
}

/// The whole pipeline on a decoded image and a chosen background: crop the
/// bottom (unless `crop` is off), resolve the padding on the cropped size,
/// and compose the padded canvas.
pub fn frame_image(
    img: &Image,
    bg: Pixel,
    crop: bool,
    all: Option<u32>,
    pad_x: Option<u32>,
    pad_y: Option<u32>,
) -> (r: Result<Framed, PadError>)
    requires
        img.wf(),
    ensures
        ({
            let (rows, reason) = kept_rows(*img, bg, crop);
            match resolve_padding_spec(all, pad_x, pad_y, img.width, rows as u32) {
                Err(e) => r == Err::<Framed, PadError>(e),
                Ok((px, py)) => match canvas_spec(img.width, rows as u32, px, py) {
                    Err(e) => r == Err::<Framed, PadError>(e),
                    Ok((cw, ch)) => r matches Ok(f) && f.report == (CropReport {
                        original_height: img.height,
                        new_height: rows as u32,
                        reason,
                    }) && f.image.wf() && f.image.width == cw && f.image.height == ch && forall|
                        x: int,
                        y: int,
                    |
                        0 <= x < cw && 0 <= y < ch ==> #[trigger] f.image.at(x, y)
                            == framed_pixel(*img, rows, bg, px as int, py as int, x, y),
                },
            }
        }),
{
    let cropped = if crop {
        auto_crop_bottom_partial(img, bg)
    } else {
        CropResult::no_crop(img.top_rows(img.height), CropReason::Disabled)
    };
    proof {
        crate::crop::lemma_crop_never_grows(*img, bg);
    }
    let ghost rows = kept_rows(*img, bg, crop).0;
    let ghost c = cropped.image;
    assert(c.height == rows);
    assert(c.width == img.width);
    assert(c.pixels@ == img.pixels@.take(img.width as int * rows));
    proof {
        crate::raster::lemma_mul_le(img.width as int, rows, img.height as int);
    }
    let (px, py) = match resolve_padding(
        all,
        pad_x,
        pad_y,
        cropped.image.width,
        cropped.image.height,
    ) {
        Ok(p) => p,
        Err(e) => return Err(e),
    };
    let out = match pad_image(&cropped.image, bg, px, py) {
        Ok(o) => o,
        Err(e) => return Err(e),
    };
    assert forall|x: int, y: int|
        0 <= x < out.width && 0 <= y < out.height implies #[trigger] out.at(x, y) == framed_pixel(
        *img,
        rows,
        bg,
        px as int,
        py as int,
        x,
        y,
    ) by {
        assert(out.at(x, y) == crate::padding::padded_pixel(c, bg, px as int, py as int, x, y));
        if px <= x < px + c.width && py <= y < py + c.height {
            crate::raster::lemma_index_in_bounds(x - px, y - py, c.width as int, c.height as int);
            let i = (y - py) * c.width as int + (x - px);
            assert(c.pixels@[i] == img.pixels@[i]);
        }
    }
    Ok(Framed { image: out, report: cropped.report })
}

} // verus!
