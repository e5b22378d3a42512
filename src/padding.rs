use crate::raster::{area, Image, Pixel};
use vstd::arithmetic::div_mod::lemma_fundamental_div_mod_converse;
use vstd::prelude::*;

verus! {

/// Why a padding request cannot be honoured.
#[derive(Clone, Copy, Debug, PartialEq, Eq, Structural)]
pub enum PadError {
    /// Horizontal and vertical amounts were both given and differ.
    UnequalPadding,
    /// Doubling the horizontal amount overflows `u32`.
    HorizontalPaddingTooLarge,
    /// Doubling the vertical amount overflows `u32`.
    VerticalPaddingTooLarge,
    /// The padded width overflows `u32`.
    WidthTooLarge,
    /// The padded height overflows `u32`.
    HeightTooLarge,
    /// The padded canvas holds more pixels than memory can address.
    CanvasTooLarge,
}

pub open spec fn clamp_spec(value: int, min: int, max: int) -> int {
    if value < min {
        min
    } else if value > max {
        max
    } else {
        value
    }
}

/// `value` limited to `[min, max]`; `min` wins when the bounds cross.
pub fn clamp_u32(value: u32, min: u32, max: u32) -> (r: u32)
    ensures
        r == clamp_spec(value as int, min as int, max as int),
{
    if value < min {
        min
    } else if value > max {
        max
    } else {
        value
    }
}

pub const AUTO_PAD_MIN: u32 = 48;

pub const AUTO_PAD_MAX: u32 = 320;

/// Six percent of the shorter side, rounded half up, limited to `[48, 320]`.
pub open spec fn auto_padding_spec(width: int, height: int) -> int {
    let m = if width < height {
        width
    } else {
        height
    };
    clamp_spec((6 * m + 50) / 100, AUTO_PAD_MIN as int, AUTO_PAD_MAX as int)
}

/// The padding used on every side when the caller gives no amount.
pub fn auto_padding(width: u32, height: u32) -> (pad: u32)
    ensures
        pad == auto_padding_spec(width as int, height as int),
        AUTO_PAD_MIN <= pad <= AUTO_PAD_MAX,
{
    let m: u32 = if width < height {
        width
    } else {
        height
    };
    let scaled: u64 = (6 * (m as u64) + 50) / 100;
    let scaled32: u32 = if scaled > AUTO_PAD_MAX as u64 {
        AUTO_PAD_MAX
    } else {
        scaled as u32
    };
    clamp_u32(scaled32, AUTO_PAD_MIN, AUTO_PAD_MAX)
}

/// The padding that a request resolves to on a `width * height` image.
pub open spec fn resolve_padding_spec(
    all: Option<u32>,
    pad_x: Option<u32>,
    pad_y: Option<u32>,
    width: u32,
    height: u32,
) -> Result<(u32, u32), PadError> {
    match all {
        Some(p) => Ok((p, p)),
        None => match (pad_x, pad_y) {
            (Some(x), Some(y)) => if x != y {
                Err(PadError::UnequalPadding)
            } else {
                Ok((x, x))
            },
            (Some(x), None) => Ok((x, x)),
            (None, Some(y)) => Ok((y, y)),
            (None, None) => {
                let p = auto_padding_spec(width as int, height as int) as u32;
                Ok((p, p))
            },
        },
    }
}

/// Resolves the horizontal and vertical padding: a combined amount wins;
/// otherwise a single given axis sets both; two given axes must agree; with
/// nothing given the automatic amount applies to both.
pub fn resolve_padding(
    all: Option<u32>,
    pad_x: Option<u32>,
    pad_y: Option<u32>,
    width: u32,
    height: u32,
) -> (r: Result<(u32, u32), PadError>)
    ensures
        r == resolve_padding_spec(all, pad_x, pad_y, width, height),
        r matches Ok((x, y)) ==> x == y,
{
    let auto = auto_padding(width, height);
    let pad = match all {
        Some(p) => p,
        None => match (pad_x, pad_y) {
            (Some(x), Some(y)) => {
                if x != y {
                    return Err(PadError::UnequalPadding);
                }
                x
            },
            (Some(x), None) => x,
            (None, Some(y)) => y,
            (None, None) => auto,
        },
    };
    Ok((pad, pad))
}

/// The canvas size for a `width * height` image padded by `pad_x` on the
/// left and right and `pad_y` on the top and bottom, or the first overflow met.
pub open spec fn padded_dimensions_spec(width: u32, height: u32, pad_x: u32, pad_y: u32) -> Result<
    (u32, u32),
    PadError,
> {
    if 2 * pad_x > u32::MAX {
        Err(PadError::HorizontalPaddingTooLarge)
    } else if 2 * pad_y > u32::MAX {
        Err(PadError::VerticalPaddingTooLarge)
    } else if width + 2 * pad_x > u32::MAX {
        Err(PadError::WidthTooLarge)
    } else if height + 2 * pad_y > u32::MAX {
        Err(PadError::HeightTooLarge)
    } else {
        Ok(((width + 2 * pad_x) as u32, (height + 2 * pad_y) as u32))
    }
}

/// Computes `(width + 2 * pad_x, height + 2 * pad_y)` with every step checked.
pub fn padded_dimensions(width: u32, height: u32, pad_x: u32, pad_y: u32) -> (r: Result<
    (u32, u32),
    PadError,
>)
    ensures
        r == padded_dimensions_spec(width, height, pad_x, pad_y),
{
    let pad_x2 = match pad_x.checked_mul(2) {
        Some(v) => v,
        None => return Err(PadError::HorizontalPaddingTooLarge),
    };
    let pad_y2 = match pad_y.checked_mul(2) {
        Some(v) => v,
        None => return Err(PadError::VerticalPaddingTooLarge),
    };
    let new_w = match width.checked_add(pad_x2) {
        Some(v) => v,
        None => return Err(PadError::WidthTooLarge),
    };
    let new_h = match height.checked_add(pad_y2) {
        Some(v) => v,
        None => return Err(PadError::HeightTooLarge),
    };
    Ok((new_w, new_h))
}

/// The canvas size, or why there is none: an overflow of `u32`, or more
/// pixels than memory can address.
pub open spec fn canvas_spec(width: u32, height: u32, pad_x: u32, pad_y: u32) -> Result<
    (u32, u32),
    PadError,
> {
    match padded_dimensions_spec(width, height, pad_x, pad_y) {
        Ok((w, h)) => if w as int * h as int > usize::MAX {
            Err(PadError::CanvasTooLarge)
        } else {
            Ok((w, h))
        },
        Err(e) => Err(e),
    }
}

/// Padding whose doubled amount added to the side it pads does not fit a
/// `u32` is refused with an overflow error, so no canvas is produced.
pub proof fn lemma_overflow_rejected(width: u32, height: u32, pad_x: u32, pad_y: u32)
    requires
        width + 2 * pad_x > u32::MAX || height + 2 * pad_y > u32::MAX,
    ensures
        canvas_spec(width, height, pad_x, pad_y) is Err,
        canvas_spec(width, height, pad_x, pad_y) != Err::<(u32, u32), PadError>(
            PadError::UnequalPadding,
        ),
        canvas_spec(width, height, pad_x, pad_y) != Err::<(u32, u32), PadError>(
            PadError::CanvasTooLarge,
        ),
{
}

/// What the padded canvas holds at column `x` of row `y`: the source pixel
/// inside the offset rectangle, the background elsewhere.
pub open spec fn padded_pixel(img: Image, bg: Pixel, pad_x: int, pad_y: int, x: int, y: int) -> Pixel {
    if pad_x <= x < pad_x + img.width && pad_y <= y < pad_y + img.height {
        img.at(x - pad_x, y - pad_y)
    } else {
        bg
    }
}

/// Places `img` at offset `(pad_x, pad_y)` on a canvas of background color
/// grown by twice the padding on each axis.
pub fn pad_image(img: &Image, bg: Pixel, pad_x: u32, pad_y: u32) -> (r: Result<Image, PadError>)
    requires
        img.wf(),
    ensures
        r is Err <==> canvas_spec(img.width, img.height, pad_x, pad_y) is Err,
        r matches Err(e) ==> canvas_spec(img.width, img.height, pad_x, pad_y) == Err::<
            (u32, u32),
            PadError,
        >(e),
        r matches Ok(out) ==> {
            &&& out.wf()
            &&& out.width == img.width + 2 * pad_x
            &&& out.height == img.height + 2 * pad_y
            &&& forall|x: int, y: int|
                0 <= x < out.width && 0 <= y < out.height ==> #[trigger] out.at(x, y)
                    == padded_pixel(*img, bg, pad_x as int, pad_y as int, x, y)
        },
{
    let (new_w, new_h) = match padded_dimensions(img.width, img.height, pad_x, pad_y) {
        Ok(d) => d,
        Err(e) => return Err(e),
    };
    let total: u64 = area(new_w, new_h);
    if total > usize::MAX as u64 {
        return Err(PadError::CanvasTooLarge);
    }
    let n: usize = total as usize;
    let mut pixels: Vec<Pixel> = Vec::with_capacity(n);
    let mut x: u32 = 0;
    let mut y: u32 = 0;
    let mut i: usize = 0;
    assert(n > 0 ==> new_w > 0 && new_h > 0) by (nonlinear_arith)
        requires
            n == new_w as int * new_h as int,
    ;
    while i < n
        invariant
            n == new_w as int * new_h as int,
            new_w == img.width + 2 * pad_x,
            new_h == img.height + 2 * pad_y,
            img.wf(),
            i <= n,
            pixels@.len() == i,
            i == y as int * new_w as int + x as int,
            i < n ==> x < new_w && y < new_h,
            forall|k: int|
                0 <= k < i ==> #[trigger] pixels@[k] == padded_pixel(
                    *img,
                    bg,
                    pad_x as int,
                    pad_y as int,
                    k % (new_w as int),
                    k / (new_w as int),
                ),
        decreases n - i,
    {
        proof {
            lemma_fundamental_div_mod_converse(i as int, new_w as int, y as int, x as int);
        }
        let p = if pad_x <= x && x - pad_x < img.width && pad_y <= y && y - pad_y < img.height {
            img.get_pixel(x - pad_x, y - pad_y)
        } else {
            bg
        };
        pixels.push(p);
        i += 1;
        if x + 1 == new_w {
            assert((y as int + 1) * new_w as int == y as int * new_w as int + new_w as int)
                by (nonlinear_arith);
            x = 0;
            y += 1;
        } else {
            x += 1;
        }
        proof {
            if i < n && y as int >= new_h as int {
                assert(new_w as int * new_h as int <= y as int * new_w as int) by (nonlinear_arith)
                    requires
                        y as int >= new_h as int,
                        new_w >= 0,
                ;
            }
        }
    }
    let out = Image { width: new_w, height: new_h, pixels };
    assert forall|xx: int, yy: int|
        0 <= xx < out.width && 0 <= yy < out.height implies #[trigger] out.at(xx, yy)
        == padded_pixel(*img, bg, pad_x as int, pad_y as int, xx, yy) by {
        crate::raster::lemma_index_in_bounds(xx, yy, new_w as int, new_h as int);
        lemma_fundamental_div_mod_converse(
            yy * new_w as int + xx,
            new_w as int,
            yy,
            xx,
        );
    }
    Ok(out)
}

} // verus!
