use crate::padding::{clamp_spec, clamp_u32};
use crate::raster::{Image, Pixel};
use crate::rows::{classify_rows, major_rows, minor_rows};
use vstd::prelude::*;
use vstd::relations::{sorted_by, total_ordering};
use vstd::seq_lib::lemma_sorted_unique;

verus! {

/// Why the crop step kept or cut what it did.
#[derive(Clone, Copy, Debug, PartialEq, Eq, Structural)]
pub enum CropReason {
    /// Cropping was switched off by the caller.
    Disabled,
    /// The image has no pixels.
    Empty,
    /// No row carries solid content.
    NoClusters,
    /// The last block of content is much shorter than a typical line.
    PartialLine,
    /// A faint block sits below the last solid content.
    CursorResidue,
    /// Nothing to remove.
    Clean,
}

/// What the crop step decided.
#[derive(Clone, Copy, Debug, PartialEq, Eq, Structural)]
pub struct CropReport {
    pub original_height: u32,
    pub new_height: u32,
    pub reason: CropReason,
}

/// The image after the crop step, with the decision taken.
#[derive(Debug)]
pub struct CropResult {
    pub image: Image,
    pub report: CropReport,
}

impl CropResult {
    /// The image kept whole.
    pub fn no_crop(image: Image, reason: CropReason) -> (r: CropResult)
        ensures
            r.image == image,
            r.report == (CropReport {
                original_height: image.height,
                new_height: image.height,
                reason,
            }),
    {
        let original_height = image.height;
        CropResult {
            image,
            report: CropReport { original_height, new_height: original_height, reason },
        }
    }

    /// An image cut down from `original_height` rows.
    pub fn cropped(image: Image, original_height: u32, reason: CropReason) -> (r: CropResult)
        ensures
            r.image == image,
            r.report == (CropReport { original_height, new_height: image.height, reason }),
    {
        let new_height = image.height;
        CropResult { image, report: CropReport { original_height, new_height, reason } }
    }
}

/// The maximal runs of `true` in `s`, as inclusive `(start, end)` index pairs, top first.
pub open spec fn clusters_of(s: Seq<bool>) -> Seq<(int, int)>
    decreases s.len(),
{
    if s.len() == 0 {
        Seq::empty()
    } else {
        let prev = clusters_of(s.drop_last());
        let i = s.len() - 1;
        if !s[i] {
            prev
        } else if i > 0 && s[i - 1] && prev.len() > 0 {
            prev.update(prev.len() - 1, (prev.last().0, i))
        } else {
            prev.push((i, i))
        }
    }
}

pub open spec fn pairs_view(v: Seq<(u32, u32)>) -> Seq<(int, int)> {
    Seq::new(v.len(), |k: int| (v[k].0 as int, v[k].1 as int))
}

pub open spec fn height_of(c: (int, int)) -> int {
    c.1 - c.0 + 1
}

/// The heights of the clusters in `cl` that span at least four rows.
pub open spec fn tall_heights(cl: Seq<(int, int)>) -> Seq<u32>
    decreases cl.len(),
{
    if cl.len() == 0 {
        Seq::empty()
    } else {
        let prev = tall_heights(cl.drop_last());
        if height_of(cl.last()) >= 4 {
            prev.push(height_of(cl.last()) as u32)
        } else {
            prev
        }
    }
}

pub open spec fn all_heights(cl: Seq<(int, int)>) -> Seq<u32> {
    Seq::new(cl.len(), |k: int| height_of(cl[k]) as u32)
}

/// The heights the typical line height is taken from: those of at least four
/// rows among all clusters but the last, or failing that every cluster's.
pub open spec fn candidate_heights(cl: Seq<(int, int)>) -> Seq<u32> {
    let t = tall_heights(cl.drop_last());
    if t.len() > 0 {
        t
    } else {
        all_heights(cl)
    }
}

pub open spec fn ascending() -> spec_fn(u32, u32) -> bool {
    |a: u32, b: u32| a <= b
}

/// Twice the median of `v` (so that the mean of the two middle values stays
/// whole); 0 for an empty sequence.
pub open spec fn twice_median_spec(v: Seq<u32>) -> int {
    let t = v.sort_by(ascending());
    let n = t.len() as int;
    if n == 0 {
        0
    } else if n % 2 == 1 {
        2 * t[n / 2]
    } else {
        t[n / 2 - 1] + t[n / 2]
    }
}

/// Index of the last `true` in `s`, or -1.
pub open spec fn last_true(s: Seq<bool>) -> int
    decreases s.len(),
{
    if s.len() == 0 {
        -1
    } else if s.last() {
        s.len() - 1
    } else {
        last_true(s.drop_last())
    }
}

/// Number of `false` entries at the end of `s`.
pub open spec fn trailing_false(s: Seq<bool>) -> int
    decreases s.len(),
{
    if s.len() == 0 || s.last() {
        0
    } else {
        1 + trailing_false(s.drop_last())
    }
}

/// First index of the run of `true` that ends at `i`.
pub open spec fn run_start(s: Seq<bool>, i: int) -> int
    decreases i,
{
    if i > 0 && s[i - 1] {
        run_start(s, i - 1)
    } else {
        i
    }
}

/// Twice the line height used to judge a trailing block.
pub open spec fn twice_line_height(med2: int, height: int) -> int {
    if med2 > 0 {
        med2
    } else {
        2 * clamp_spec(height / 30, 12, 28)
    }
}

/// Whether a faint block below the last solid row is a residue to cut.
pub open spec fn residue_qualifies(major: Seq<bool>, minor: Seq<bool>, med2: int) -> bool {
    let last_major = last_true(major);
    let last_minor = last_true(minor);
    let start = run_start(minor, last_minor);
    let block = last_minor - start + 1;
    let gap = if start - (last_major + 1) > 0 {
        start - (last_major + 1)
    } else {
        0
    };
    let line2 = twice_line_height(med2, major.len() as int);
    let thin = 40 * block < 7 * line2;
    let min_gap = if (line2 + 5) / 10 > 2 {
        (line2 + 5) / 10
    } else {
        2
    };
    &&& last_major >= 0
    &&& last_minor > last_major
    &&& gap >= min_gap || (thin && gap >= 1)
    &&& 10 * block < 3 * line2
}

/// The new height and the reason, from the major and minor row flags, by the
/// first rule that applies: no clusters; a short partial last line near the
/// bottom; a faint trailing residue block; otherwise clean.
pub open spec fn crop_decision(major: Seq<bool>, minor: Seq<bool>) -> (int, CropReason) {
    let h = major.len() as int;
    let cl = clusters_of(major);
    if cl.len() == 0 {
        (h, CropReason::NoClusters)
    } else {
        let med2 = twice_median_spec(candidate_heights(cl));
        let last = cl.last();
        if cl.len() >= 2 && trailing_false(major) <= 2 && med2 > 0 && 20 * height_of(last) < 7
            * med2 && last.0 > 0 {
            (last.0, CropReason::PartialLine)
        } else if residue_qualifies(major, minor, med2) {
            (run_start(minor, last_true(minor)), CropReason::CursorResidue)
        } else {
            (h, CropReason::Clean)
        }
    }
}

/// The new height and the reason that cropping `img` against `bg` gives.
pub open spec fn crop_outcome(img: Image, bg: Pixel) -> (int, CropReason) {
    if img.width == 0 || img.height == 0 {
        (img.height as int, CropReason::Empty)
    } else {
        crop_decision(major_rows(img, bg), minor_rows(img, bg))
    }
}

proof fn lemma_clusters_last(s: Seq<bool>)
    requires
        s.len() > 0,
        s.last(),
    ensures
        clusters_of(s).len() > 0,
        clusters_of(s).last().1 == s.len() - 1,
{
}

/// Every cluster lies inside the sequence, its start no later than its end.
pub proof fn lemma_clusters_bounds(s: Seq<bool>)
    ensures
        forall|k: int|
            0 <= k < clusters_of(s).len() ==> 0 <= #[trigger] clusters_of(s)[k].0 <= clusters_of(
                s,
            )[k].1 < s.len(),
    decreases s.len(),
{
    if s.len() > 0 {
        let prev = clusters_of(s.drop_last());
        lemma_clusters_bounds(s.drop_last());
        if prev.len() > 0 {
            assert(prev.last() == prev[prev.len() - 1]);
        }
        let c = clusters_of(s);
        assert forall|k: int| 0 <= k < c.len() implies 0 <= #[trigger] c[k].0 <= c[k].1 < s.len() by {
            if k < prev.len() {
                assert(0 <= prev[k].0 <= prev[k].1 < s.len() - 1);
            }
        }
    }
}

proof fn lemma_run_start_bounds(s: Seq<bool>, i: int)
    requires
        0 <= i,
    ensures
        0 <= run_start(s, i) <= i,
    decreases i,
{
    if i > 0 && s[i - 1] {
        lemma_run_start_bounds(s, i - 1);
    }
}

proof fn lemma_last_true_bounds(s: Seq<bool>)
    ensures
        -1 <= last_true(s) < s.len(),
        last_true(s) >= 0 ==> s[last_true(s)],
    decreases s.len(),
{
    if s.len() > 0 && !s.last() {
        lemma_last_true_bounds(s.drop_last());
    }
}

/// The crop decision never asks for more rows than there are.
pub proof fn lemma_decision_within(major: Seq<bool>, minor: Seq<bool>)
    requires
        minor.len() == major.len(),
    ensures
        0 <= crop_decision(major, minor).0 <= major.len(),
{
    lemma_clusters_bounds(major);
    lemma_last_true_bounds(minor);
    let lm = last_true(minor);
    if lm >= 0 {
        lemma_run_start_bounds(minor, lm);
    }
    let cl = clusters_of(major);
    if cl.len() > 0 {
        assert(cl.last() == cl[cl.len() - 1]);
    }
}

/// Finds the maximal runs of `true` rows.
pub fn find_clusters(rows: &Vec<bool>) -> (r: Vec<(u32, u32)>)
    requires
        rows@.len() <= u32::MAX,
    ensures
        pairs_view(r@) == clusters_of(rows@),
{
    let mut clusters: Vec<(u32, u32)> = Vec::new();
    let mut i: usize = 0;
    while i < rows.len()
        invariant
            i <= rows@.len() <= u32::MAX,
            pairs_view(clusters@) == clusters_of(rows@.take(i as int)),
        decreases rows@.len() - i,
    {
        let ghost before = rows@.take(i as int);
        assert(rows@.take(i as int + 1).drop_last() =~= before);
        if rows[i] {
            if i > 0 && rows[i - 1] {
                proof {
                    assert(before.last() == rows@[i - 1]);
                    lemma_clusters_last(before);
                }
                let last = clusters.len() - 1;
                let start = clusters[last].0;
                clusters.set(last, (start, i as u32));
                assert(pairs_view(clusters@) =~= clusters_of(rows@.take(i as int + 1)));
            } else {
                clusters.push((i as u32, i as u32));
                assert(pairs_view(clusters@) =~= clusters_of(rows@.take(i as int + 1)));
            }
        }
        i += 1;
    }
    assert(rows@.take(rows@.len() as int) =~= rows@);
    clusters
}

/// Heights of the clusters that the typical line height is taken from.
fn candidate_cluster_heights(clusters: &Vec<(u32, u32)>) -> (r: Vec<u32>)
    requires
        clusters@.len() > 0,
        forall|k: int|
            0 <= k < clusters@.len() ==> #[trigger] clusters@[k].0 <= clusters@[k].1 < u32::MAX,
    ensures
        r@ == candidate_heights(pairs_view(clusters@)),
{
    let ghost cl = pairs_view(clusters@);
    let n = clusters.len() - 1;
    let mut tall: Vec<u32> = Vec::new();
    let mut i: usize = 0;
    while i < n
        invariant
            n == clusters@.len() - 1,
            i <= n,
            cl == pairs_view(clusters@),
            forall|k: int|
                0 <= k < clusters@.len() ==> #[trigger] clusters@[k].0 <= clusters@[k].1
                    < u32::MAX,
            tall@ == tall_heights(cl.take(i as int)),
        decreases n - i,
    {
        assert(cl.take(i as int + 1).drop_last() =~= cl.take(i as int));
        let (s, e) = clusters[i];
        let h = e - s + 1;
        if h >= 4 {
            tall.push(h);
        }
        i += 1;
    }
    assert(cl.take(n as int) =~= cl.drop_last());
    if tall.len() > 0 {
        return tall;
    }
    let mut all: Vec<u32> = Vec::new();
    let mut j: usize = 0;
    while j < clusters.len()
        invariant
            j <= clusters@.len(),
            cl == pairs_view(clusters@),
            forall|k: int|
                0 <= k < clusters@.len() ==> #[trigger] clusters@[k].0 <= clusters@[k].1
                    < u32::MAX,
            all@ == all_heights(cl).take(j as int),
        decreases clusters@.len() - j,
    {
        let (s, e) = clusters[j];
        all.push(e - s + 1);
        j += 1;
        assert(all@ =~= all_heights(cl).take(j as int));
    }
    assert(all@ =~= all_heights(cl));
    all
}

/// Relies on `slice::sort_unstable`: the values end up in ascending order,
/// the same values as before.
#[verifier::external_body]
fn sort_ascending(v: &mut Vec<u32>)
    ensures
        final(v)@.to_multiset() == old(v)@.to_multiset(),
        sorted_by(final(v)@, ascending()),
{
    v.sort_unstable();
}

proof fn lemma_ascending_total()
    ensures
        total_ordering(ascending()),
{
}

/// Twice the median of `values`, or 0 when there are none.
pub fn twice_median(values: &Vec<u32>) -> (r: u64)
    ensures
        r == twice_median_spec(values@),
        r <= 2 * (u32::MAX as int),
{
    let mut sorted = values.clone();
    assert(sorted@ =~= values@);
    sort_ascending(&mut sorted);
    proof {
        values@.lemma_sort_by_ensures(ascending());
        lemma_ascending_total();
        lemma_sorted_unique(sorted@, values@.sort_by(ascending()), ascending());
    }
    let n = sorted.len();
    if n == 0 {
        0
    } else if n % 2 == 1 {
        2 * (sorted[n / 2] as u64)
    } else {
        sorted[n / 2 - 1] as u64 + sorted[n / 2] as u64
    }
}

/// Index of the last `true` entry.
fn last_set(v: &Vec<bool>) -> (r: Option<usize>)
    ensures
        r is None <==> last_true(v@) == -1,
        r matches Some(i) ==> i == last_true(v@),
{
    let mut i: usize = v.len();
    assert(v@.take(i as int) =~= v@);
    while i > 0
        invariant
            i <= v@.len(),
            last_true(v@) == last_true(v@.take(i as int)),
        decreases i,
    {
        assert(v@.take(i as int).drop_last() =~= v@.take(i as int - 1));
        if v[i - 1] {
            return Some(i - 1);
        }
        i -= 1;
    }
    None
}

/// Number of `false` entries at the end of `v`.
fn count_trailing_false(v: &Vec<bool>) -> (r: usize)
    ensures
        r == trailing_false(v@),
{
    let len = v.len();
    let mut i: usize = len;
    let mut count: usize = 0;
    assert(v@.take(i as int) =~= v@);
    while i > 0 && !v[i - 1]
        invariant
            i <= v@.len(),
            len == v@.len(),
            count + i == len,
            trailing_false(v@) == count + trailing_false(v@.take(i as int)),
        decreases i,
    {
        assert(v@.take(i as int).drop_last() =~= v@.take(i as int - 1));
        i -= 1;
        count += 1;
    }
    if i > 0 {
        assert(v@.take(i as int).last() == v@[i - 1]);
    }
    count
}

/// Start of the run of `true` entries that ends at `end`.
fn find_run_start(v: &Vec<bool>, end: usize) -> (r: usize)
    requires
        end < v@.len(),
    ensures
        r == run_start(v@, end as int),
{
    let mut start = end;
    while start > 0 && v[start - 1]
        invariant
            start <= end < v@.len(),
            run_start(v@, end as int) == run_start(v@, start as int),
        decreases start,
    {
        start -= 1;
    }
    start
}

/// Removes a spurious trailing block from the bottom of `img`: a cut-off last
/// line of content, or a faint residue such as a text cursor. Only a bottom
/// run of rows is ever removed; the width is kept.
pub fn auto_crop_bottom_partial(img: &Image, bg: Pixel) -> (r: CropResult)
    requires
        img.wf(),
    ensures
        r.report.original_height == img.height,
        r.report.new_height as int == crop_outcome(*img, bg).0,
        r.report.reason == crop_outcome(*img, bg).1,
        r.report.new_height <= img.height,
        r.image.wf(),
        r.image.width == img.width,
        r.image.height == r.report.new_height,
        r.image.pixels@ == img.pixels@.take(img.width as int * r.report.new_height as int),
{
    let w = img.width;
    let h = img.height;
    if w == 0 || h == 0 {
        return CropResult::no_crop(img.top_rows(h), CropReason::Empty);
    }
    let (major, minor) = classify_rows(img, bg);
    let clusters = find_clusters(&major);
    proof {
        lemma_clusters_bounds(major@);
        lemma_decision_within(major@, minor@);
    }
    if clusters.len() == 0 {
        return CropResult::no_crop(img.top_rows(h), CropReason::NoClusters);
    }
    let ghost cl = clusters_of(major@);
    assert forall|k: int| 0 <= k < clusters@.len() implies #[trigger] clusters@[k].0
        <= clusters@[k].1 < u32::MAX by {
        assert(cl[k] == pairs_view(clusters@)[k]);
    }
    let bottom = count_trailing_false(&major);
    let heights = candidate_cluster_heights(&clusters);
    let med2 = twice_median(&heights);
    let n = clusters.len();
    let (last_start, last_end) = clusters[n - 1];
    assert(cl.last() == pairs_view(clusters@)[n - 1]);
    let last_height = last_end - last_start + 1;
    if n >= 2 && bottom <= 2 && med2 > 0 && 20 * (last_height as u64) < 7 * med2 && last_start > 0 {
        return CropResult::cropped(img.top_rows(last_start), h, CropReason::PartialLine);
    }
    let last_major = last_set(&major);
    let last_minor = last_set(&minor);
    if let (Some(lmaj), Some(lmin)) = (last_major, last_minor) {
        if lmin > lmaj {
            proof {
                lemma_last_true_bounds(minor@);
            }
            let start = find_run_start(&minor, lmin);
            proof {
                lemma_run_start_bounds(minor@, lmin as int);
            }
            let block: u64 = (lmin - start) as u64 + 1;
            let gap: u64 = if start > lmaj + 1 {
                (start - (lmaj + 1)) as u64
            } else {
                0
            };
            let line2: u64 = if med2 > 0 {
                med2
            } else {
                2 * (clamp_u32(h / 30, 12, 28) as u64)
            };
            let thin = 40 * block < 7 * line2;
            let min_gap: u64 = if (line2 + 5) / 10 > 2 {
                (line2 + 5) / 10
            } else {
                2
            };
            if (gap >= min_gap || (thin && gap >= 1)) && 10 * block < 3 * line2 {
                return CropResult::cropped(
                    img.top_rows(start as u32),
                    h,
                    CropReason::CursorResidue,
                );
            }
        }
    }
    CropResult::no_crop(img.top_rows(h), CropReason::Clean)
}

/// Cropping never makes an image taller: the new height is at most the
/// original height, for every image and background color.
pub proof fn lemma_crop_never_grows(img: Image, bg: Pixel)
    ensures
        0 <= crop_outcome(img, bg).0 <= img.height,
{
    if img.width != 0 && img.height != 0 {
        lemma_decision_within(major_rows(img, bg), minor_rows(img, bg));
    }
}

proof fn lemma_no_clusters_without_content(s: Seq<bool>)
    requires
        forall|i: int| 0 <= i < s.len() ==> !s[i],
    ensures
        clusters_of(s).len() == 0,
    decreases s.len(),
{
    if s.len() > 0 {
        lemma_no_clusters_without_content(s.drop_last());
    }
}

proof fn lemma_uniform_row_has_no_hits(img: Image, bg: Pixel, y: int, stride: int, x: int)
    requires
        img.wf(),
        0 <= y < img.height,
        0 <= x,
        forall|i: int| 0 <= i < img.pixels@.len() ==> img.pixels@[i] == bg,
    ensures
        crate::rows::hits_from(img, bg, y, stride, x) == 0,
    decreases
            if x < img.width {
                img.width - x
            } else {
                0
            },
{
    if x < img.width && stride > 0 {
        crate::raster::lemma_index_in_bounds(x, y, img.width as int, img.height as int);
        lemma_uniform_row_has_no_hits(img, bg, y, stride, x + stride);
    }
}

/// An image whose every pixel is the background color has no content
/// clusters, so cropping keeps it whole.
pub proof fn lemma_uniform_image_not_cropped(img: Image, bg: Pixel)
    requires
        img.wf(),
        img.width > 0,
        img.height > 0,
        forall|i: int| 0 <= i < img.pixels@.len() ==> img.pixels@[i] == bg,
    ensures
        clusters_of(major_rows(img, bg)).len() == 0,
        crop_outcome(img, bg) == (img.height as int, CropReason::NoClusters),
{
    let s = major_rows(img, bg);
    assert forall|y: int| 0 <= y < s.len() implies !s[y] by {
        lemma_uniform_row_has_no_hits(img, bg, y, crate::rows::column_stride(img.width), 0);
    }
    lemma_no_clusters_without_content(s);
}

} // verus!
