use crate::padding::{clamp_spec, clamp_u32};
use crate::raster::{transparent_spec, Image, Pixel};
use std::collections::HashMap;
use vstd::prelude::*;

verus! {

broadcast use vstd::std_specs::hash::group_hash_axioms;

/// Samples with alpha at or below this are near-transparent.
pub const CLEAR_ALPHA_MAX: u8 = 5;

pub open spec fn is_clear(p: Pixel) -> bool {
    p.a <= CLEAR_ALPHA_MAX
}

/// The bucket key of a pixel: each channel keeps its top five bits.
pub open spec fn quantize_spec(p: Pixel) -> u32 {
    ((p.r / 8) as int * 32768 + (p.g / 8) as int * 1024 + (p.b / 8) as int * 32 + (p.a
        / 8) as int) as u32
}

/// Packs the top five bits of each channel into one key.
pub fn quantize_key(p: Pixel) -> (k: u32)
    ensures
        k == quantize_spec(p),
        k < 1048576,
{
    let r = (p.r / 8) as u32;
    let g = (p.g / 8) as u32;
    let b = (p.b / 8) as u32;
    let a = (p.a / 8) as u32;
    r * 32768 + g * 1024 + b * 32 + a
}

pub open spec fn channel(p: Pixel, c: int) -> int {
    if c == 0 {
        p.r as int
    } else if c == 1 {
        p.g as int
    } else if c == 2 {
        p.b as int
    } else {
        p.a as int
    }
}

/// Number of near-transparent samples.
pub open spec fn clear_count(s: Seq<Pixel>) -> int
    decreases s.len(),
{
    if s.len() == 0 {
        0
    } else {
        clear_count(s.drop_last()) + if is_clear(s.last()) {
            1int
        } else {
            0int
        }
    }
}

/// Samples that are not near-transparent.
pub open spec fn non_clear(s: Seq<Pixel>) -> int {
    s.len() - clear_count(s)
}

/// Number of samples that are not near-transparent and fall in bucket `k`.
pub open spec fn key_count(s: Seq<Pixel>, k: u32) -> int
    decreases s.len(),
{
    if s.len() == 0 {
        0
    } else {
        key_count(s.drop_last(), k) + if !is_clear(s.last()) && quantize_spec(s.last()) == k {
            1int
        } else {
            0int
        }
    }
}

/// Sum of channel `c` over the samples counted by `key_count(s, k)`.
pub open spec fn key_sum(s: Seq<Pixel>, k: u32, c: int) -> int
    decreases s.len(),
{
    if s.len() == 0 {
        0
    } else {
        key_sum(s.drop_last(), k, c) + if !is_clear(s.last()) && quantize_spec(s.last()) == k {
            channel(s.last(), c)
        } else {
            0int
        }
    }
}

/// Bucket `k` holds at least as many samples as any other, and some.
pub open spec fn is_dominant(s: Seq<Pixel>, k: u32) -> bool {
    &&& key_count(s, k) > 0
    &&& forall|k2: u32| #[trigger] key_count(s, k2) <= key_count(s, k)
}

/// Per-channel mean of the samples in bucket `k`, rounded down.
pub open spec fn mean_color(s: Seq<Pixel>, k: u32) -> Pixel {
    let n = key_count(s, k);
    Pixel {
        r: (key_sum(s, k, 0) / n) as u8,
        g: (key_sum(s, k, 1) / n) as u8,
        b: (key_sum(s, k, 2) / n) as u8,
        a: (key_sum(s, k, 3) / n) as u8,
    }
}

/// A dominant bucket covers at least `percent`% of the non-transparent samples.
pub open spec fn confident(s: Seq<Pixel>, percent: int) -> bool {
    &&& non_clear(s) > 0
    &&& exists|k: u32| #[trigger] is_dominant(s, k) && 100 * key_count(s, k) >= percent * non_clear(s)
}

/// `c` is the mean color of some dominant bucket.
pub open spec fn dominant_mean(s: Seq<Pixel>, c: Pixel) -> bool {
    exists|k: u32| #[trigger] is_dominant(s, k) && c == mean_color(s, k)
}

/// Which pixels a sampling pass looks at.
#[derive(Clone, Copy, Debug, PartialEq, Eq, Structural)]
pub enum SampleRegion {
    /// Only pixels within this many pixels of an edge.
    Border(u32),
    /// Every pixel.
    Whole,
}

pub open spec fn sat_sub(a: int, b: int) -> int {
    if a > b {
        a - b
    } else {
        0
    }
}

pub open spec fn in_region(region: SampleRegion, w: int, h: int, x: int, y: int) -> bool {
    match region {
        SampleRegion::Whole => true,
        SampleRegion::Border(band) => x < band || x >= sat_sub(w, band as int) || y < band || y
            >= sat_sub(h, band as int),
    }
}

/// The samples of row `y` from column `x` on, left to right.
pub open spec fn row_samples(img: Image, sx: int, region: SampleRegion, y: int, x: int) -> Seq<
    Pixel,
>
    decreases
            if x < img.width {
                img.width - x
            } else {
                0
            },
{
    if x >= img.width || sx <= 0 {
        Seq::empty()
    } else {
        (if in_region(region, img.width as int, img.height as int, x, y) {
            seq![img.at(x, y)]
        } else {
            Seq::empty()
        }) + row_samples(img, sx, region, y, x + sx)
    }
}

/// The samples of every `sy`-th row from row `y` on, top to bottom.
pub open spec fn grid_samples(img: Image, sx: int, sy: int, region: SampleRegion, y: int) -> Seq<
    Pixel,
>
    decreases
            if y < img.height {
                img.height - y
            } else {
                0
            },
{
    if y >= img.height || sy <= 0 {
        Seq::empty()
    } else {
        row_samples(img, sx, region, y, 0) + grid_samples(img, sx, sy, region, y + sy)
    }
}

/// Count and per-channel sums of the samples that share one key.
#[derive(Clone, Copy, Debug, PartialEq, Eq, Structural)]
pub struct Bucket {
    pub key: u32,
    pub count: u64,
    pub sum_r: u128,
    pub sum_g: u128,
    pub sum_b: u128,
    pub sum_a: u128,
}

impl Bucket {
    /// Non-empty, and every sum fits its count of 8-bit values.
    pub open spec fn wf(&self) -> bool {
        &&& self.count > 0
        &&& self.sum_r <= 255 * self.count
        &&& self.sum_g <= 255 * self.count
        &&& self.sum_b <= 255 * self.count
        &&& self.sum_a <= 255 * self.count
    }

    /// The bucket holds exactly the samples of `s` under its key.
    pub open spec fn matches(&self, s: Seq<Pixel>) -> bool {
        &&& self.count == key_count(s, self.key)
        &&& self.sum_r == key_sum(s, self.key, 0)
        &&& self.sum_g == key_sum(s, self.key, 1)
        &&& self.sum_b == key_sum(s, self.key, 2)
        &&& self.sum_a == key_sum(s, self.key, 3)
    }

    pub open spec fn mean_spec(&self) -> Pixel {
        Pixel {
            r: (self.sum_r as int / self.count as int) as u8,
            g: (self.sum_g as int / self.count as int) as u8,
            b: (self.sum_b as int / self.count as int) as u8,
            a: (self.sum_a as int / self.count as int) as u8,
        }
    }
}

fn wide_mul(a: u64, b: u64) -> (r: u128)
    ensures
        r == a as int * b as int,
{
    assert(a as int * b as int <= 0xffff_ffff_ffff_ffff * 0xffff_ffff_ffff_ffff) by (nonlinear_arith)
        requires
            a <= 0xffff_ffff_ffff_ffffu64,
            b <= 0xffff_ffff_ffff_ffffu64,
    ;
    a as u128 * b as u128
}

fn mean_channel(sum: u128, count: u64) -> (r: u8)
    requires
        count > 0,
        sum <= 255 * count,
    ensures
        r == (sum as int / count as int) as u8,
        r == sum as int / count as int,
{
    let q = sum / (count as u128);
    assert(q <= 255) by (nonlinear_arith)
        requires
            count > 0,
            sum <= 255 * count,
            q == sum as int / count as int,
    ;
    q as u8
}

/// Totals of one sampling pass and its most frequent bucket.
#[derive(Clone, Copy, Debug)]
pub struct SampleResult {
    pub total: u64,
    pub transparent: u64,
    pub best: Option<Bucket>,
}

impl SampleResult {
    /// The counts are those of `s`, and `best` is a most frequent bucket
    /// (none when every sample is near-transparent).
    pub open spec fn summarizes(&self, s: Seq<Pixel>) -> bool {
        &&& self.total == s.len()
        &&& self.transparent == clear_count(s)
        &&& match self.best {
            None => forall|k: u32| #[trigger] key_count(s, k) == 0,
            Some(b) => b.wf() && b.matches(s) && is_dominant(s, b.key),
        }
    }

    pub open spec fn non_transparent_spec(&self) -> int {
        sat_sub(self.total as int, self.transparent as int)
    }

    pub open spec fn color_if_confident_spec(&self, min_percent: u64) -> Option<Pixel> {
        let nt = self.non_transparent_spec();
        if nt == 0 {
            None
        } else {
            match self.best {
                None => None,
                Some(b) => if 100 * b.count < min_percent * nt {
                    None
                } else {
                    Some(b.mean_spec())
                },
            }
        }
    }

    /// The mean color of the best bucket when it holds at least `min_percent`%
    /// of the non-transparent samples.
    pub fn color_if_confident(&self, min_percent: u64) -> (r: Option<Pixel>)
        requires
            self.best matches Some(b) ==> b.wf(),
        ensures
            r == self.color_if_confident_spec(min_percent),
    {
        let nt: u64 = if self.total > self.transparent {
            self.total - self.transparent
        } else {
            0
        };
        if nt == 0 {
            return None;
        }
        match self.best {
            None => None,
            Some(b) => {
                if wide_mul(100, b.count) < wide_mul(min_percent, nt) {
                    None
                } else {
                    Some(
                        Pixel {
                            r: mean_channel(b.sum_r, b.count),
                            g: mean_channel(b.sum_g, b.count),
                            b: mean_channel(b.sum_b, b.count),
                            a: mean_channel(b.sum_a, b.count),
                        },
                    )
                }
            },
        }
    }

    /// At least `min_percent`% of the samples are near-transparent (true when
    /// there are no samples).
    pub fn transparent_at_least(&self, min_percent: u64) -> (r: bool)
        ensures
            r == (self.total == 0 || 100 * self.transparent >= min_percent * self.total),
    {
        if self.total == 0 {
            return true;
        }
        wide_mul(100, self.transparent) >= wide_mul(min_percent, self.total)
    }
}

proof fn lemma_count_bounds(s: Seq<Pixel>, k: u32)
    ensures
        0 <= clear_count(s) <= s.len(),
        0 <= key_count(s, k) <= non_clear(s),
        forall|c: int| 0 <= c < 4 ==> 0 <= #[trigger] key_sum(s, k, c) <= 255 * key_count(s, k),
    decreases s.len(),
{
    if s.len() > 0 {
        lemma_count_bounds(s.drop_last(), k);
        assert forall|c: int| 0 <= c < 4 implies 0 <= #[trigger] key_sum(s, k, c) <= 255
            * key_count(s, k) by {
            assert(0 <= key_sum(s.drop_last(), k, c) <= 255 * key_count(s.drop_last(), k));
            assert(0 <= channel(s.last(), c) <= 255);
        }
    }
}

/// Two different buckets never hold more than all non-transparent samples.
proof fn lemma_two_keys(s: Seq<Pixel>, k1: u32, k2: u32)
    requires
        k1 != k2,
    ensures
        key_count(s, k1) + key_count(s, k2) <= non_clear(s),
    decreases s.len(),
{
    if s.len() > 0 {
        lemma_two_keys(s.drop_last(), k1, k2);
    }
}

/// The bucket table after scanning the samples `s`: `buckets` holds one
/// bucket per key seen, and `index` maps each key to its bucket.
pub open spec fn table_ok(index: Map<u32, usize>, buckets: Seq<Bucket>, s: Seq<Pixel>) -> bool {
    &&& forall|i: int|
        0 <= i < buckets.len() ==> {
            &&& (#[trigger] buckets[i]).matches(s)
            &&& buckets[i].count > 0
            &&& index.contains_key(buckets[i].key)
            &&& index[buckets[i].key] == i
        }
    &&& forall|k: u32|
        #[trigger] index.contains_key(k) ==> index[k] < buckets.len() && buckets[index[k] as int].key
            == k
    &&& forall|k: u32| #[trigger] key_count(s, k) > 0 ==> index.contains_key(k)
}

/// Adds one sample to the bucket table.
fn record_sample(
    index: &mut HashMap<u32, usize>,
    buckets: &mut Vec<Bucket>,
    p: Pixel,
    Ghost(s): Ghost<Seq<Pixel>>,
)
    requires
        !is_clear(p),
        table_ok(old(index)@, old(buckets)@, s),
        s.len() < u64::MAX,
    ensures
        table_ok(final(index)@, final(buckets)@, s.push(p)),
{
    let ghost s2 = s.push(p);
    assert(s2.drop_last() =~= s);
    assert(s2.last() == p);
    let key = quantize_key(p);
    proof {
        lemma_count_bounds(s, key);
    }
    match index.get(&key) {
        Some(i) => {
            let i = *i;
            let b = buckets[i];
            let nb = Bucket {
                key,
                count: b.count + 1,
                sum_r: b.sum_r + p.r as u128,
                sum_g: b.sum_g + p.g as u128,
                sum_b: b.sum_b + p.b as u128,
                sum_a: b.sum_a + p.a as u128,
            };
            buckets.set(i, nb);
            assert forall|j: int| 0 <= j < buckets@.len() implies (#[trigger] buckets@[j]).matches(
                s2,
            ) by {
                if j != i {
                    assert(old(buckets)@[j].matches(s));
                    assert(old(index)@.contains_key(old(buckets)@[j].key));
                }
            }
            assert forall|j: int| 0 <= j < buckets@.len() implies (#[trigger] buckets@[j]).count > 0
                && index@.contains_key(buckets@[j].key) && index@[buckets@[j].key] == j by {
                assert(old(buckets)@[j].matches(s));
            }
            assert forall|k: u32| #[trigger] key_count(s2, k) > 0 implies index@.contains_key(k) by {
                if k != key {
                    assert(key_count(s, k) > 0);
                }
            }
        },
        None => {
            let nb = Bucket {
                key,
                count: 1,
                sum_r: p.r as u128,
                sum_g: p.g as u128,
                sum_b: p.b as u128,
                sum_a: p.a as u128,
            };
            assert(key_count(s, key) == 0);
            proof {
                lemma_count_bounds(s, key);
            }
            let n = buckets.len();
            buckets.push(nb);
            index.insert(key, n);
            assert forall|j: int| 0 <= j < buckets@.len() implies (#[trigger] buckets@[j]).matches(
                s2,
            ) by {
                if j != n {
                    assert(old(buckets)@[j].matches(s));
                    assert(old(index)@.contains_key(old(buckets)@[j].key));
                } else {
                    assert(key_sum(s, key, 0) <= 0);
                    assert(key_sum(s, key, 1) <= 0);
                    assert(key_sum(s, key, 2) <= 0);
                    assert(key_sum(s, key, 3) <= 0);
                }
            }
            assert forall|j: int| 0 <= j < buckets@.len() implies (#[trigger] buckets@[j]).count > 0
                && index@.contains_key(buckets@[j].key) && index@[buckets@[j].key] == j by {
                if j != n {
                    assert(old(buckets)@[j].matches(s));
                    assert(old(index)@.contains_key(old(buckets)@[j].key));
                }
            }
            assert forall|k: u32| #[trigger] key_count(s2, k) > 0 implies index@.contains_key(k) by {
                if k != key {
                    assert(key_count(s, k) > 0);
                }
            }
            assert forall|k: u32| #[trigger] index@.contains_key(k) implies index@[k]
                < buckets@.len() && buckets@[index@[k] as int].key == k by {
                if k != key {
                    assert(old(index)@.contains_key(k));
                }
            }
        },
    }
}

/// The most frequent bucket of `buckets`; the earliest one wins a tie.
fn most_frequent(buckets: &Vec<Bucket>) -> (r: Option<Bucket>)
    ensures
        r is None <==> forall|j: int| 0 <= j < buckets@.len() ==> #[trigger] buckets@[j].count == 0,
        r matches Some(b) ==> (exists|j: int| 0 <= j < buckets@.len() && b == #[trigger] buckets@[j])
            && forall|j: int| 0 <= j < buckets@.len() ==> #[trigger] buckets@[j].count <= b.count,
{
    let mut best: Option<Bucket> = None;
    let mut best_count: u64 = 0;
    let mut i: usize = 0;
    while i < buckets.len()
        invariant
            i <= buckets@.len(),
            best is None ==> best_count == 0,
            best matches Some(b) ==> b.count == best_count && b.count > 0 && exists|j: int|
                0 <= j < i && b == #[trigger] buckets@[j],
            forall|j: int| 0 <= j < i ==> #[trigger] buckets@[j].count <= best_count,
        decreases buckets@.len() - i,
    {
        if buckets[i].count > best_count {
            best_count = buckets[i].count;
            best = Some(buckets[i]);
        }
        i += 1;
    }
    best
}

/// Samples every `stride_x`-th column of every `stride_y`-th row within
/// `region`, counts the near-transparent samples, and buckets the others by
/// quantized color.
pub fn dominant_sample(img: &Image, stride_x: u32, stride_y: u32, region: SampleRegion) -> (r:
    SampleResult)
    requires
        img.wf(),
        stride_x > 0,
        stride_y > 0,
    ensures
        r.summarizes(grid_samples(*img, stride_x as int, stride_y as int, region, 0)),
{
    let w = img.width;
    let h = img.height;
    let ghost sx = stride_x as int;
    let ghost sy = stride_y as int;
    let ghost all = grid_samples(*img, sx, sy, region, 0);
    let ghost mut seen: Seq<Pixel> = Seq::empty();
    let mut index: HashMap<u32, usize> = HashMap::new();
    let mut buckets: Vec<Bucket> = Vec::new();
    let mut total: u64 = 0;
    let mut transparent: u64 = 0;
    let mut y: u64 = 0;
    assert(seen + all =~= all);
    while y < h as u64
        invariant
            img.wf(),
            w == img.width,
            h == img.height,
            sx == stride_x > 0,
            sy == stride_y > 0,
            all == grid_samples(*img, sx, sy, region, 0),
            0 <= y <= h as int + sy,
            seen + grid_samples(*img, sx, sy, region, y as int) == all,
            seen.len() <= (if y < h {
                y as int
            } else {
                h as int
            }) * w as int,
            total == seen.len(),
            transparent == clear_count(seen),
            table_ok(index@, buckets@, seen),
        decreases h as int + sy - y,
    {
        let mut x: u64 = 0;
        let ghost rest = grid_samples(*img, sx, sy, region, y + sy);
        assert(seen + row_samples(*img, sx, region, y as int, 0) + rest == all) by {
            assert(seen + (row_samples(*img, sx, region, y as int, 0) + rest) =~= seen
                + row_samples(*img, sx, region, y as int, 0) + rest);
        }
        while x < w as u64
            invariant
                img.wf(),
                w == img.width,
                h == img.height,
                sx == stride_x > 0,
                0 <= x <= w as int + sx,
                y < h,
                seen + row_samples(*img, sx, region, y as int, x as int) + rest == all,
                seen.len() <= y as int * w as int + (if x < w {
                    x as int
                } else {
                    w as int
                }),
                total == seen.len(),
                transparent == clear_count(seen),
                table_ok(index@, buckets@, seen),
            decreases w as int + sx - x,
        {
            let xi = x as u32;
            let yi = y as u32;
            let ghost tail = row_samples(*img, sx, region, y as int, x as int + sx);
            proof {
                crate::raster::lemma_index_in_bounds(x as int, y as int, w as int, h as int);
                assert(w as int * h as int <= 0xffff_ffff * 0xffff_ffff) by (nonlinear_arith)
                    requires
                        w <= 0xffff_ffffu32,
                        h <= 0xffff_ffffu32,
                ;
            }
            let inside = match region {
                SampleRegion::Whole => true,
                SampleRegion::Border(band) => xi < band || xi >= w.saturating_sub(band) || yi
                    < band || yi >= h.saturating_sub(band),
            };
            if inside {
                let p = img.get_pixel(xi, yi);
                let ghost seen2 = seen.push(p);
                assert(seen2.drop_last() =~= seen);
                assert(seen + row_samples(*img, sx, region, y as int, x as int) + rest =~= seen2
                    + tail + rest);
                total += 1;
                if p.a <= CLEAR_ALPHA_MAX {
                    proof {
                        lemma_count_bounds(seen, 0);
                    }
                    transparent += 1;
                    assert forall|k: u32| #[trigger] key_count(seen2, k) > 0 implies index@.contains_key(
                        k,
                    ) by {
                        assert(key_count(seen, k) > 0);
                    }
                    assert forall|i: int| 0 <= i < buckets@.len() implies (
                    #[trigger] buckets@[i]).matches(seen2) by {
                        assert(buckets@[i].matches(seen));
                    }
                } else {
                    record_sample(&mut index, &mut buckets, p, Ghost(seen));
                }
                proof {
                    seen = seen2;
                }
            } else {
                assert(seen + row_samples(*img, sx, region, y as int, x as int) + rest =~= seen
                    + tail + rest);
            }
            x += stride_x as u64;
        }
        proof {
            assert(row_samples(*img, sx, region, y as int, x as int) =~= Seq::<Pixel>::empty());
            assert(seen + rest =~= all);
            let ny = y as int + sy;
            let cap = if ny < h {
                ny
            } else {
                h as int
            };
            assert(y as int * w as int + w as int <= cap * w as int) by (nonlinear_arith)
                requires
                    y + 1 <= cap,
                    w >= 0,
            ;
        }
        y += stride_y as u64;
    }
    proof {
        assert(grid_samples(*img, sx, sy, region, y as int) =~= Seq::<Pixel>::empty());
        assert(seen =~= all);
    }
    let best = most_frequent(&buckets);
    proof {
        match best {
            None => {
                assert forall|k: u32| #[trigger] key_count(seen, k) == 0 by {
                    lemma_count_bounds(seen, k);
                    if key_count(seen, k) > 0 {
                        let j = index@[k] as int;
                        assert(buckets@[j].count > 0);
                    }
                }
            },
            Some(b) => {
                let j = choose|j: int| 0 <= j < buckets@.len() && b == #[trigger] buckets@[j];
                assert(buckets@[j].matches(seen));
                lemma_count_bounds(seen, b.key);
                assert forall|k: u32| #[trigger] key_count(seen, k) <= key_count(seen, b.key) by {
                    if key_count(seen, k) > 0 {
                        let jj = index@[k] as int;
                        assert(buckets@[jj].matches(seen));
                    }
                }
            },
        }
    }
    SampleResult { total, transparent, best }
}

/// Sampling step along one axis: about 200 samples whatever the size.
pub open spec fn sample_stride(d: u32) -> int {
    if d / 200 > 1 {
        (d / 200) as int
    } else {
        1
    }
}

/// Width of the border band: a twentieth of the shorter side, within `[8, 64]`.
pub open spec fn band_width(w: u32, h: u32) -> int {
    let m = if w < h {
        w
    } else {
        h
    };
    clamp_spec((m / 20) as int, 8, 64)
}

pub open spec fn border_samples(img: Image) -> Seq<Pixel> {
    grid_samples(
        img,
        sample_stride(img.width),
        sample_stride(img.height),
        SampleRegion::Border(band_width(img.width, img.height) as u32),
        0,
    )
}

pub open spec fn all_samples(img: Image) -> Seq<Pixel> {
    grid_samples(img, sample_stride(img.width), sample_stride(img.height), SampleRegion::Whole, 0)
}

/// `c` is a background color the estimator may give for `img`: the mean of a
/// dominant border bucket covering 20% of the non-transparent border samples;
/// else transparent when 60% of the border samples are near-transparent; else
/// the mean of a dominant bucket over the whole image covering 10%; else
/// transparent. Which of several equally frequent buckets is taken is left open.
pub open spec fn is_estimated_background(img: Image, c: Pixel) -> bool {
    if img.width == 0 || img.height == 0 {
        c == transparent_spec()
    } else {
        let b = border_samples(img);
        let o = all_samples(img);
        if confident(b, 20) {
            dominant_mean(b, c)
        } else if 100 * clear_count(b) >= 60 * b.len() {
            c == transparent_spec()
        } else if confident(o, 10) {
            dominant_mean(o, c)
        } else {
            c == transparent_spec()
        }
    }
}

fn sample_stride_of(d: u32) -> (r: u32)
    ensures
        r == sample_stride(d),
{
    if d / 200 > 1 {
        d / 200
    } else {
        1
    }
}

/// What `color_if_confident` answers on a summary of `s` is what `confident`
/// and `dominant_mean` say of `s`.
proof fn lemma_confident_color(r: SampleResult, s: Seq<Pixel>, pct: u64)
    requires
        r.summarizes(s),
    ensures
        r.color_if_confident_spec(pct) is Some <==> confident(s, pct as int),
        r.color_if_confident_spec(pct) matches Some(c) ==> dominant_mean(s, c),
{
    lemma_count_bounds(s, 0);
    match r.best {
        None => {
            if confident(s, pct as int) {
                let k = choose|k: u32| #[trigger] is_dominant(s, k) && 100 * key_count(s, k) >= pct
                    * non_clear(s);
                assert(key_count(s, k) == 0);
            }
        },
        Some(b) => {
            lemma_count_bounds(s, b.key);
            if confident(s, pct as int) {
                let k = choose|k: u32| #[trigger] is_dominant(s, k) && 100 * key_count(s, k) >= pct
                    * non_clear(s);
                assert(key_count(s, k) <= key_count(s, b.key));
            }
            if r.color_if_confident_spec(pct) is Some {
                assert(is_dominant(s, b.key) && 100 * key_count(s, b.key) >= pct * non_clear(s));
                assert(b.mean_spec() == mean_color(s, b.key));
            }
        },
    }
}

/// Guesses the background color of `img` from a sparse grid of samples,
/// border first.
pub fn deduce_background(img: &Image) -> (c: Pixel)
    requires
        img.wf(),
    ensures
        is_estimated_background(*img, c),
{
    let w = img.width;
    let h = img.height;
    if w == 0 || h == 0 {
        return Pixel::transparent();
    }
    let stride_x = sample_stride_of(w);
    let stride_y = sample_stride_of(h);
    let m = if w < h {
        w
    } else {
        h
    };
    let band = clamp_u32(m / 20, 8, 64);
    let border = dominant_sample(img, stride_x, stride_y, SampleRegion::Border(band));
    proof {
        lemma_confident_color(border, border_samples(*img), 20);
    }
    if let Some(c) = border.color_if_confident(20) {
        return c;
    }
    if border.transparent_at_least(60) {
        return Pixel::transparent();
    }
    let overall = dominant_sample(img, stride_x, stride_y, SampleRegion::Whole);
    proof {
        lemma_confident_color(overall, all_samples(*img), 10);
    }
    match overall.color_if_confident(10) {
        Some(c) => c,
        None => Pixel::transparent(),
    }
}

/// When one bucket holds every non-transparent border sample, the estimated
/// background is exactly that bucket's mean color.
pub proof fn lemma_single_border_bucket(img: Image, k: u32, c: Pixel)
    requires
        img.wf(),
        img.width > 0,
        img.height > 0,
        non_clear(border_samples(img)) > 0,
        key_count(border_samples(img), k) == non_clear(border_samples(img)),
        is_estimated_background(img, c),
    ensures
        c == mean_color(border_samples(img), k),
{
    let b = border_samples(img);
    assert forall|k2: u32| #[trigger] key_count(b, k2) <= key_count(b, k) by {
        lemma_count_bounds(b, k2);
        if k2 != k {
            lemma_two_keys(b, k, k2);
        }
    }
    assert(is_dominant(b, k));
    assert(confident(b, 20));
    let kk = choose|kk: u32| #[trigger] is_dominant(b, kk) && c == mean_color(b, kk);
    if kk != k {
        lemma_two_keys(b, k, kk);
    }
}

} // verus!
