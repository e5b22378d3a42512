use crate::raster::{Image, Pixel};
use vstd::prelude::*;

verus! {

/// Largest summed per-channel distance at which a pixel still counts as background.
pub const DIFF_THRESHOLD: u16 = 18;

pub open spec fn abs_diff(a: u8, b: u8) -> int {
    if a >= b {
        a - b
    } else {
        b - a
    }
}

/// The sum of the four per-channel absolute differences.
pub open spec fn distance(p: Pixel, q: Pixel) -> int {
    abs_diff(p.r, q.r) + abs_diff(p.g, q.g) + abs_diff(p.b, q.b) + abs_diff(p.a, q.a)
}

fn channel_diff(a: u8, b: u8) -> (d: u16)
    ensures
        d == abs_diff(a, b),
{
    if a >= b {
        (a - b) as u16
    } else {
        (b - a) as u16
    }
}

/// Whether `pixel` is within `threshold` of `bg`, summed over the channels.
pub fn is_background(pixel: Pixel, bg: Pixel, threshold: u16) -> (r: bool)
    ensures
        r == (distance(pixel, bg) <= threshold),
{
    let d = channel_diff(pixel.r, bg.r) + channel_diff(pixel.g, bg.g) + channel_diff(pixel.b, bg.b)
        + channel_diff(pixel.a, bg.a);
    d <= threshold
}

/// The column step of the row classifier: at most about 400 columns per row.
pub open spec fn column_stride(width: u32) -> int {
    if width / 400 > 1 {
        (width / 400) as int
    } else {
        1
    }
}

/// Number of sampled columns of a row from column `x` on.
pub open spec fn samples_from(width: int, stride: int, x: int) -> nat
    decreases
            if x < width {
                width - x
            } else {
                0
            },
{
    if x >= width || stride <= 0 {
        0
    } else {
        1 + samples_from(width, stride, x + stride)
    }
}

/// Number of sampled columns of row `y`, from column `x` on, that are not background.
pub open spec fn hits_from(img: Image, bg: Pixel, y: int, stride: int, x: int) -> nat
    decreases
            if x < img.width {
                img.width - x
            } else {
                0
            },
{
    if x >= img.width || stride <= 0 {
        0
    } else {
        (if distance(img.at(x, y), bg) > DIFF_THRESHOLD {
            1nat
        } else {
            0nat
        }) + hits_from(img, bg, y, stride, x + stride)
    }
}

/// Row `y` has more than 2% of its samples off the background.
pub open spec fn is_major(img: Image, bg: Pixel, y: int) -> bool {
    let s = column_stride(img.width);
    50 * hits_from(img, bg, y, s, 0) > samples_from(img.width as int, s, 0)
}

/// Row `y` has more than 0.5% of its samples off the background.
pub open spec fn is_minor(img: Image, bg: Pixel, y: int) -> bool {
    let s = column_stride(img.width);
    200 * hits_from(img, bg, y, s, 0) > samples_from(img.width as int, s, 0)
}

pub open spec fn major_rows(img: Image, bg: Pixel) -> Seq<bool> {
    Seq::new(img.height as nat, |y: int| is_major(img, bg, y))
}

pub open spec fn minor_rows(img: Image, bg: Pixel) -> Seq<bool> {
    Seq::new(img.height as nat, |y: int| is_minor(img, bg, y))
}

proof fn lemma_counts_bounded(img: Image, bg: Pixel, y: int, stride: int, x: int)
    requires
        stride > 0,
        x >= 0,
    ensures
        hits_from(img, bg, y, stride, x) <= samples_from(img.width as int, stride, x),
        x < img.width ==> samples_from(img.width as int, stride, x) <= img.width - x,
        samples_from(img.width as int, stride, x) <= img.width,
    decreases
            if x < img.width {
                img.width - x
            } else {
                0
            },
{
    if x < img.width {
        lemma_counts_bounded(img, bg, y, stride, x + stride);
    }
}

/// Counts the sampled columns of row `y` and those that are not background.
fn scan_row(img: &Image, bg: Pixel, y: u32) -> (r: (u32, u32))
    requires
        img.wf(),
        y < img.height,
    ensures
        r.0 == samples_from(img.width as int, column_stride(img.width), 0),
        r.1 == hits_from(*img, bg, y as int, column_stride(img.width), 0),
{
    let w = img.width;
    let stride: u32 = if w / 400 > 1 {
        w / 400
    } else {
        1
    };
    let ghost s = stride as int;
    let mut samples: u32 = 0;
    let mut non_bg: u32 = 0;
    let mut x: u64 = 0;
    proof {
        lemma_counts_bounded(*img, bg, y as int, s, 0);
    }
    while x < w as u64
        invariant
            img.wf(),
            y < img.height,
            w == img.width,
            s == column_stride(w),
            stride == s,
            0 <= x <= w as int + s,
            samples + samples_from(w as int, s, x as int) == samples_from(w as int, s, 0),
            non_bg + hits_from(*img, bg, y as int, s, x as int) == hits_from(
                *img,
                bg,
                y as int,
                s,
                0,
            ),
            samples_from(w as int, s, 0) <= w,
            hits_from(*img, bg, y as int, s, 0) <= samples_from(w as int, s, 0),
        decreases w as int + s - x,
    {
        samples += 1;
        let pixel = img.get_pixel(x as u32, y);
        if !is_background(pixel, bg, DIFF_THRESHOLD) {
            non_bg += 1;
        }
        x += stride as u64;
    }
    (samples, non_bg)
}

/// Classifies every row as major (more than 2% of samples off the background)
/// and minor (more than 0.5%).
pub fn classify_rows(img: &Image, bg: Pixel) -> (r: (Vec<bool>, Vec<bool>))
    requires
        img.wf(),
    ensures
        r.0@ == major_rows(*img, bg),
        r.1@ == minor_rows(*img, bg),
{
    let mut major: Vec<bool> = Vec::new();
    let mut minor: Vec<bool> = Vec::new();
    let mut y: u32 = 0;
    while y < img.height
        invariant
            img.wf(),
            y <= img.height,
            major@ == major_rows(*img, bg).take(y as int),
            minor@ == minor_rows(*img, bg).take(y as int),
        decreases img.height - y,
    {
        let (samples, non_bg) = scan_row(img, bg, y);
        major.push(50 * (non_bg as u64) > samples as u64);
        minor.push(200 * (non_bg as u64) > samples as u64);
        y += 1;
        assert(major@ =~= major_rows(*img, bg).take(y as int));
        assert(minor@ =~= minor_rows(*img, bg).take(y as int));
    }
    assert(major@ =~= major_rows(*img, bg));
    assert(minor@ =~= minor_rows(*img, bg));
    (major, minor)
}

} // verus!
