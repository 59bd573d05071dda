//! Star detection: thresholding, 4-connected blob labeling, centroids and
//! ranking by brightness.
use vstd::prelude::*;

use crate::frame::stats::{level_sum, sum};
use crate::frame::{is_candidate, threshold_of_levels, threshold_spec, Frame};

verus! {

/// Sub-pixel resolution of coordinates: thousandths of a pixel.
pub const MILLI: u64 = 1000;

/// A point of the frame, in thousandths of a pixel.
#[derive(Debug, Clone, Copy, PartialEq, Eq, Structural)]
pub struct Coord {
    pub x: u32,
    pub y: u32,
}

/// A bright blob found in a frame. Its centroid is
/// (`x_sum` / `brightness`, `y_sum` / `brightness`) in pixels.
#[derive(Debug, Clone, Copy, PartialEq, Eq, Structural)]
pub struct DetectedStar {
    /// Σ x·v over the blob's pixels, v being the gray level
    pub x_sum: u64,
    /// Σ y·v over the blob's pixels
    pub y_sum: u64,
    /// Σ v over the blob's pixels
    pub brightness: u64,
    /// Number of pixels in the blob
    pub area: u64,
}

/// `a / b` rounded to the nearest integer, halves upwards.
pub open spec fn round_div(a: int, b: int) -> int {
    (2 * a + b) / (2 * b)
}

impl DetectedStar {
    /// The sums of a blob lying in a `width` × `height` frame.
    pub open spec fn fits(&self, width: int, height: int) -> bool {
        &&& 1 <= self.area <= 0x1_0000_0000
        &&& 1 <= self.brightness <= 255 * self.area
        &&& self.x_sum <= (width - 1) * self.brightness
        &&& self.y_sum <= (height - 1) * self.brightness
    }

    /// Brightness-weighted centroid, in thousandths of a pixel, rounded.
    pub open spec fn centroid_spec(&self) -> Coord {
        Coord {
            x: round_div(self.x_sum * MILLI, self.brightness as int) as u32,
            y: round_div(self.y_sum * MILLI, self.brightness as int) as u32,
        }
    }

    /// Brightness-weighted centroid, in thousandths of a pixel, rounded.
    pub fn centroid(&self) -> (c: Coord)
        requires
            self.fits(65536, 65536),
        ensures
            c.x == round_div(self.x_sum * MILLI, self.brightness as int),
            c.y == round_div(self.y_sum * MILLI, self.brightness as int),
            c == self.centroid_spec(),
    {
        let b = self.brightness as u128;
        let (xs, ys) = (self.x_sum as u128, self.y_sum as u128);
        proof {
            assert(b <= 255 * 0x1_0000_0000) by (nonlinear_arith)
                requires
                    b <= 255 * self.area,
                    self.area <= 0x1_0000_0000,
            ;
            assert(xs <= 65535 * (255 * 0x1_0000_0000)) by (nonlinear_arith)
                requires
                    xs <= 65535 * b,
                    b <= 255 * 0x1_0000_0000,
            ;
            assert(ys <= 65535 * (255 * 0x1_0000_0000)) by (nonlinear_arith)
                requires
                    ys <= 65535 * b,
                    b <= 255 * 0x1_0000_0000,
            ;
        }
        let x = (2 * xs * (MILLI as u128) + b) / (2 * b);
        let y = (2 * ys * (MILLI as u128) + b) / (2 * b);
        proof {
            assert(x <= 65535 * MILLI + 1) by (nonlinear_arith)
                requires
                    x == (2 * xs * 1000 + b) / (2 * b),
                    xs <= 65535 * b,
                    b >= 1,
            ;
            assert(y <= 65535 * MILLI + 1) by (nonlinear_arith)
                requires
                    y == (2 * ys * 1000 + b) / (2 * b),
                    ys <= 65535 * b,
                    b >= 1,
            ;
        }
        Coord { x: x as u32, y: y as u32 }
    }
}

/// Gray levels as integers.
pub open spec fn as_levels(v: Seq<u8>) -> Seq<int> {
    v.map_values(|x: u8| x as int)
}

/// Σ v over the pixels `b`, v being the gray level.
pub open spec fn level_total(levels: Seq<int>, b: Seq<int>) -> int
    decreases b.len(),
{
    if b.len() == 0 {
        0
    } else {
        level_total(levels, b.drop_last()) + levels[b.last()]
    }
}

/// Σ x·v over the pixels `b` of a grid `w` pixels wide.
pub open spec fn x_moment(levels: Seq<int>, w: int, b: Seq<int>) -> int
    decreases b.len(),
{
    if b.len() == 0 {
        0
    } else {
        x_moment(levels, w, b.drop_last()) + (b.last() % w) * levels[b.last()]
    }
}

/// Σ y·v over the pixels `b` of a grid `w` pixels wide.
pub open spec fn y_moment(levels: Seq<int>, w: int, b: Seq<int>) -> int
    decreases b.len(),
{
    if b.len() == 0 {
        0
    } else {
        y_moment(levels, w, b.drop_last()) + (b.last() / w) * levels[b.last()]
    }
}

/// Pixels `p` and `q` (row-major indices in a grid `w` pixels wide) are
/// 4-connected neighbours.
pub open spec fn adjacent(w: int, p: int, q: int) -> bool {
    let (px, py, qx, qy) = (p % w, p / w, q % w, q / w);
    (px == qx && (py == qy + 1 || qy == py + 1)) || (py == qy && (px == qx + 1 || qx == px + 1))
}

/// Each pixel of `b` after the first is a 4-neighbour of an earlier one, so
/// that `b` is 4-connected.
pub open spec fn linked(w: int, b: Seq<int>) -> bool {
    forall|k: int| 0 < k < b.len() ==> #[trigger] linked_at(w, b, k)
}

/// Pixel `b[k]` is a 4-neighbour of a pixel before it in `b`.
pub open spec fn linked_at(w: int, b: Seq<int>, k: int) -> bool {
    exists|j: int| 0 <= j < k && #[trigger] adjacent(w, b[j], b[k])
}

/// Pixel `q` is a 4-neighbour of one of `members`.
pub open spec fn has_link(w: int, members: Seq<int>, q: int) -> bool {
    exists|j: int| 0 <= j < members.len() && #[trigger] adjacent(w, members[j], q)
}

/// Once `members` has a pixel, each pixel of `st` is a 4-neighbour of one
/// of `members`.
pub open spec fn reached(w: int, members: Seq<int>, st: Seq<usize>) -> bool {
    forall|k: int|
        0 <= k < st.len() && members.len() > 0 ==> #[trigger] has_link(w, members, st[k] as int)
}

/// Every candidate neighbour of a marked pixel is marked.
pub open spec fn closed(cand: Seq<bool>, marked: Seq<bool>, w: int) -> bool {
    forall|p: int, q: int|
        0 <= p < marked.len() && 0 <= q < marked.len() && marked[p] && cand[q] && #[trigger] adjacent(w, p, q)
            ==> marked[q]
}

/// `star` holds the sums of the distinct candidate pixels `b` (row-major
/// indices) of a frame `w` pixels wide with gray levels `levels`; every
/// candidate 4-neighbour of a pixel of `b` is in `b`, and `b` is 4-connected:
/// `b` is a 4-connected component of the candidate pixels.
pub open spec fn is_blob_of(levels: Seq<int>, w: int, b: Seq<int>, star: DetectedStar) -> bool {
    &&& b.no_duplicates()
    &&& linked(w, b)
    &&& forall|k: int| 0 <= k < b.len() ==> 0 <= b[k] < levels.len() && is_candidate(levels, b[k])
    &&& forall|k: int, q: int|
        0 <= k < b.len() && 0 <= q < levels.len() && is_candidate(levels, q) && #[trigger] adjacent(
            w,
            b[k],
            q,
        ) ==> b.contains(q)
    &&& star.area == b.len()
    &&& star.brightness == level_total(levels, b)
    &&& star.x_sum == x_moment(levels, w, b)
    &&& star.y_sum == y_moment(levels, w, b)
}

/// `star` is a blob of at least `min_pixels` candidate pixels of a
/// `w` × `h` frame with gray levels `levels`.
pub open spec fn found(levels: Seq<int>, w: int, h: int, min_pixels: int, star: DetectedStar) -> bool {
    &&& star.area >= min_pixels
    &&& star.fits(w, h)
    &&& exists|b: Seq<int>| #[trigger] is_blob_of(levels, w, b, star)
}

/// `stars` is what a search for up to `max_stars` stars of at least
/// `min_pixels` pixels may report on frame `f`: brightest first, each a
/// blob of candidate pixels, no two sharing a pixel, and together the top
/// `max_stars` by brightness of the blobs of at least `min_pixels` pixels
/// that partition the candidate pixels; none on a frame without candidate (a uniform
/// frame among them), and at least one on a frame with a candidate when
/// `min_pixels` is at most 1.
pub open spec fn detected<'a>(
    f: Frame<'a>,
    max_stars: int,
    min_pixels: int,
    stars: Seq<DetectedStar>,
) -> bool {
    let levels = f.levels();
    &&& stars.len() <= max_stars
    &&& ranked(stars)
    &&& forall|k: int|
        0 <= k < stars.len() ==> found(
            levels,
            f.width_spec(),
            f.height_spec(),
            min_pixels,
            #[trigger] stars[k],
        )
    &&& (forall|i: int| 0 <= i < levels.len() ==> !is_candidate(levels, i)) ==> stars.len() == 0
    &&& (forall|i: int| 0 <= i < levels.len() ==> #[trigger] levels[i] == levels[0])
        ==> stars.len() == 0
    &&& (exists|i: int| 0 <= i < levels.len() && is_candidate(levels, i)) && max_stars >= 1
        && min_pixels <= 1 ==> stars.len() >= 1
    &&& exists|blobs: Seq<Seq<int>>|
        #[trigger] blob_list(levels, f.width_spec(), stars, blobs) && disjoint_blobs(blobs)
    &&& exists|all_blobs: Seq<Seq<int>>, all: Seq<DetectedStar>|
        #[trigger] blob_list(levels, f.width_spec(), all, all_blobs) && disjoint_blobs(all_blobs)
            && covers(levels, all_blobs) && selected(stars, all, max_stars, min_pixels)
}

/// `blobs[k]` lists the pixels whose sums `stars[k]` holds.
pub open spec fn blob_list(levels: Seq<int>, w: int, stars: Seq<DetectedStar>, blobs: Seq<Seq<int>>) -> bool {
    &&& blobs.len() == stars.len()
    &&& forall|k: int| 0 <= k < stars.len() ==> is_blob_of(levels, w, blobs[k], #[trigger] stars[k])
}

/// No pixel lies in two of `blobs`.
pub open spec fn disjoint_blobs(blobs: Seq<Seq<int>>) -> bool {
    forall|k1: int, k2: int, j: int|
        0 <= k1 < blobs.len() && 0 <= k2 < blobs.len() && k1 != k2 && 0 <= j < blobs[k1].len()
            ==> !(#[trigger] blobs[k2].contains(blobs[k1][j]))
}

/// Every pixel of `blobs` is marked in `vis`.
pub open spec fn marked_blobs(blobs: Seq<Seq<int>>, vis: Seq<bool>) -> bool {
    forall|k: int, j: int|
        0 <= k < blobs.len() && 0 <= j < blobs[k].len() ==> 0 <= #[trigger] blobs[k][j] < vis.len()
            && vis[blobs[k][j]]
}

proof fn lemma_insert_blob(
    levels: Seq<int>,
    w: int,
    stars: Seq<DetectedStar>,
    blobs: Seq<Seq<int>>,
    star: DetectedStar,
    b: Seq<int>,
    p: int,
    vis0: Seq<bool>,
    vis1: Seq<bool>,
)
    requires
        0 <= p <= stars.len(),
        blob_list(levels, w, stars, blobs),
        disjoint_blobs(blobs),
        marked_blobs(blobs, vis0),
        is_blob_of(levels, w, b, star),
        vis1.len() == vis0.len(),
        forall|x: int| 0 <= x < vis0.len() && vis0[x] ==> vis1[x],
        forall|j: int| 0 <= j < b.len() ==> 0 <= #[trigger] b[j] < vis0.len() && !vis0[b[j]] && vis1[b[j]],
    ensures
        blob_list(levels, w, stars.insert(p, star), blobs.insert(p, b)),
        disjoint_blobs(blobs.insert(p, b)),
        marked_blobs(blobs.insert(p, b), vis1),
{
    stars.insert_ensures(p, star);
    blobs.insert_ensures(p, b);
    let s1 = stars.insert(p, star);
    let b1 = blobs.insert(p, b);
    assert forall|k: int| 0 <= k < s1.len() implies is_blob_of(levels, w, b1[k], #[trigger] s1[k]) by {
        if k > p {
            assert(s1[k] == stars[k - 1] && b1[k] == blobs[k - 1]);
        }
    }
    assert forall|k: int, j: int| 0 <= k < b1.len() && 0 <= j < b1[k].len() implies 0
        <= #[trigger] b1[k][j] < vis1.len() && vis1[b1[k][j]] by {
        if k > p {
            assert(b1[k] == blobs[k - 1]);
            assert(blobs[k - 1][j] == blobs[k - 1][j]);
        } else if k < p {
            assert(blobs[k][j] == blobs[k][j]);
        }
    }
    assert forall|k1: int, k2: int, j: int|
        0 <= k1 < b1.len() && 0 <= k2 < b1.len() && k1 != k2 && 0 <= j < b1[k1].len() implies !(#[trigger] b1[k2].contains(b1[k1][j])) by {
        let o1 = if k1 < p { k1 } else { k1 - 1 };
        let o2 = if k2 < p { k2 } else { k2 - 1 };
        if k1 == p {
            assert(b1[k1][j] == b[j]);
            if b1[k2].contains(b[j]) {
                let i = choose|i: int| 0 <= i < b1[k2].len() && b1[k2][i] == b[j];
                assert(b1[k2] == blobs[o2]);
                assert(blobs[o2][i] == blobs[o2][i]);
            }
        } else if k2 == p {
            assert(b1[k1] == blobs[o1]);
            assert(blobs[o1][j] == blobs[o1][j]);
            if b.contains(blobs[o1][j]) {
                let i = choose|i: int| 0 <= i < b.len() && b[i] == blobs[o1][j];
                assert(b[i] == b[i]);
            }
        } else {
            assert(b1[k1] == blobs[o1] && b1[k2] == blobs[o2]);
            assert(blobs[o1][j] == blobs[o1][j]);
        }
    }
}

proof fn lemma_drop_blob(levels: Seq<int>, w: int, stars: Seq<DetectedStar>, blobs: Seq<Seq<int>>, vis: Seq<bool>)
    requires
        stars.len() > 0,
        blob_list(levels, w, stars, blobs),
        disjoint_blobs(blobs),
        marked_blobs(blobs, vis),
    ensures
        blob_list(levels, w, stars.drop_last(), blobs.drop_last()),
        disjoint_blobs(blobs.drop_last()),
        marked_blobs(blobs.drop_last(), vis),
{
    let b1 = blobs.drop_last();
    assert forall|k: int, j: int| 0 <= k < b1.len() && 0 <= j < b1[k].len() implies 0
        <= #[trigger] b1[k][j] < vis.len() && vis[b1[k][j]] by {
        assert(b1[k] == blobs[k]);
        assert(blobs[k][j] == blobs[k][j]);
    }
    assert forall|k1: int, k2: int, j: int|
        0 <= k1 < b1.len() && 0 <= k2 < b1.len() && k1 != k2 && 0 <= j < b1[k1].len() implies !(#[trigger] b1[k2].contains(b1[k1][j])) by {
        assert(b1[k1] == blobs[k1] && b1[k2] == blobs[k2]);
        assert(blobs[k1][j] == blobs[k1][j]);
    }
}

/// Every marked pixel lies in one of `blobs`.
pub open spec fn marked_covered(blobs: Seq<Seq<int>>, vis: Seq<bool>) -> bool {
    forall|x: int|
        0 <= x < vis.len() && #[trigger] vis[x] ==> exists|k: int|
            0 <= k < blobs.len() && blobs[k].contains(x)
}

proof fn lemma_record_blob(
    all_b: Seq<Seq<int>>,
    b: Seq<int>,
    vis0: Seq<bool>,
    vis1: Seq<bool>,
)
    requires
        marked_covered(all_b, vis0),
        vis1.len() == vis0.len(),
        forall|q: int| 0 <= q < vis0.len() && #[trigger] vis1[q] && !vis0[q] ==> b.contains(q),
    ensures
        marked_covered(all_b.push(b), vis1),
{
    let a1 = all_b.push(b);
    assert forall|x: int| 0 <= x < vis1.len() && #[trigger] vis1[x] implies exists|k: int|
        0 <= k < a1.len() && a1[k].contains(x) by {
        if vis0[x] {
            let k = choose|k: int| 0 <= k < all_b.len() && all_b[k].contains(x);
            assert(a1[k] == all_b[k]);
        } else {
            assert(a1[all_b.len() as int] == b);
        }
    }
}

/// Every candidate pixel lies in one of `blobs`.
pub open spec fn covers(levels: Seq<int>, blobs: Seq<Seq<int>>) -> bool {
    forall|x: int|
        0 <= x < levels.len() && #[trigger] is_candidate(levels, x) ==> exists|k: int|
            0 <= k < blobs.len() && blobs[k].contains(x)
}

/// `stars` is the top of `all` by brightness: each reported star is one of
/// `all`, and a star of `all` of at least `min_pixels` pixels is reported
/// unless `max_stars` are, each at least as bright as it.
pub open spec fn selected(
    stars: Seq<DetectedStar>,
    all: Seq<DetectedStar>,
    max_stars: int,
    min_pixels: int,
) -> bool {
    &&& forall|j: int| 0 <= j < stars.len() ==> all.contains(#[trigger] stars[j])
    &&& forall|k: int|
        0 <= k < all.len() && (#[trigger] all[k]).area >= min_pixels ==> stars.contains(all[k]) || (
        stars.len() == max_stars && forall|j: int|
            0 <= j < stars.len() ==> stars[j].brightness >= all[k].brightness)
}

proof fn lemma_select_skip(
    stars: Seq<DetectedStar>,
    all: Seq<DetectedStar>,
    star: DetectedStar,
    max_stars: int,
    min_pixels: int,
)
    requires
        selected(stars, all, max_stars, min_pixels),
        star.area < min_pixels || (max_stars == 0 && stars.len() == 0),
    ensures
        selected(stars, all.push(star), max_stars, min_pixels),
{
    let a1 = all.push(star);
    assert forall|j: int| 0 <= j < stars.len() implies a1.contains(#[trigger] stars[j]) by {
        let i = choose|i: int| 0 <= i < all.len() && all[i] == stars[j];
        assert(a1[i] == all[i]);
    }
    assert forall|k: int| 0 <= k < a1.len() && (#[trigger] a1[k]).area >= min_pixels implies stars.contains(
        a1[k],
    ) || (stars.len() == max_stars && forall|j: int|
        0 <= j < stars.len() ==> stars[j].brightness >= a1[k].brightness) by {
        if k < all.len() {
            assert(a1[k] == all[k]);
        }
    }
}

proof fn lemma_select_insert(
    stars: Seq<DetectedStar>,
    stars1: Seq<DetectedStar>,
    all: Seq<DetectedStar>,
    star: DetectedStar,
    p: int,
    max_stars: int,
    min_pixels: int,
)
    requires
        selected(stars, all, max_stars, min_pixels),
        ranked(stars),
        1 <= max_stars,
        stars.len() <= max_stars,
        star.area >= min_pixels,
        0 <= p <= stars.len(),
        p < stars.len() ==> stars[p].brightness < star.brightness,
        forall|k: int| 0 <= k < p ==> stars[k].brightness >= star.brightness,
        stars.len() < max_stars ==> stars1 == stars.insert(p, star),
        stars.len() == max_stars ==> stars1 == stars.insert(p, star).drop_last(),
    ensures
        selected(stars1, all.push(star), max_stars, min_pixels),
{
    let a1 = all.push(star);
    let ins = stars.insert(p, star);
    stars.insert_ensures(p, star);
    let n0 = stars.len();
    assert(forall|j: int| 0 <= j < stars1.len() ==> stars1[j] == ins[j]);
    assert forall|j: int| 0 <= j < stars1.len() implies a1.contains(#[trigger] stars1[j]) by {
        if j == p {
            assert(a1[all.len() as int] == star);
        } else {
            let o = if j < p { j } else { j - 1 };
            assert(stars1[j] == stars[o]);
            let i = choose|i: int| 0 <= i < all.len() && all[i] == stars[o];
            assert(a1[i] == all[i]);
        }
    }
    assert forall|k: int| 0 <= k < a1.len() && (#[trigger] a1[k]).area >= min_pixels implies stars1.contains(
        a1[k],
    ) || (stars1.len() == max_stars && forall|j: int|
        0 <= j < stars1.len() ==> stars1[j].brightness >= a1[k].brightness) by {
        let x = a1[k];
        if k == all.len() {
            if p < stars1.len() {
                assert(stars1[p] == star);
            } else {
                assert(n0 == max_stars && p == n0);
                assert forall|j: int| 0 <= j < stars1.len() implies stars1[j].brightness
                    >= x.brightness by {
                    assert(stars1[j] == stars[j]);
                }
            }
        } else {
            assert(x == all[k]);
            if stars.contains(x) {
                let j = choose|j: int| 0 <= j < n0 && stars[j] == x;
                if j < p {
                    assert(stars1[j] == x);
                } else if j + 1 < stars1.len() {
                    assert(stars1[j + 1] == x);
                } else {
                    assert(n0 == max_stars && j == n0 - 1);
                    assert forall|i: int| 0 <= i < stars1.len() implies stars1[i].brightness
                        >= x.brightness by {
                        if i < p {
                            assert(stars1[i] == stars[i]);
                        } else if i == p {
                            assert(stars[p].brightness >= stars[j].brightness);
                        } else {
                            assert(stars1[i] == stars[i - 1]);
                        }
                    }
                }
            } else {
                assert(n0 == max_stars);
                assert forall|i: int| 0 <= i < stars1.len() implies stars1[i].brightness
                    >= x.brightness by {
                    if i < p {
                        assert(stars1[i] == stars[i]);
                    } else if i == p {
                        assert(stars[p].brightness >= x.brightness);
                    } else {
                        assert(stars1[i] == stars[i - 1]);
                    }
                }
            }
        }
    }
}

/// Stars ordered by brightness, brightest first.
pub open spec fn ranked(s: Seq<DetectedStar>) -> bool {
    forall|i: int, j: int| 0 <= i < j < s.len() ==> s[i].brightness >= s[j].brightness
}

/// Number of `true` entries.
pub open spec fn count_true(s: Seq<bool>) -> nat
    decreases s.len(),
{
    if s.len() == 0 {
        0
    } else {
        count_true(s.drop_last()) + if s.last() {
            1nat
        } else {
            0nat
        }
    }
}

proof fn lemma_count_true_bound(s: Seq<bool>)
    ensures
        count_true(s) <= s.len(),
    decreases s.len(),
{
    if s.len() > 0 {
        lemma_count_true_bound(s.drop_last());
    }
}

proof fn lemma_count_true_positive(s: Seq<bool>, k: int)
    requires
        0 <= k < s.len(),
        s[k],
    ensures
        count_true(s) > 0,
    decreases s.len(),
{
    if k < s.len() - 1 {
        lemma_count_true_positive(s.drop_last(), k);
    }
}

proof fn lemma_count_true_set(s: Seq<bool>, k: int)
    requires
        0 <= k < s.len(),
        !s[k],
    ensures
        count_true(s.update(k, true)) == count_true(s) + 1,
    decreases s.len(),
{
    if k == s.len() - 1 {
        assert(s.update(k, true).drop_last() =~= s.drop_last());
    } else {
        lemma_count_true_set(s.drop_last(), k);
        assert(s.update(k, true).drop_last() =~= s.drop_last().update(k, true));
    }
}

/// The 4-neighbours of pixel `i` = (x, y) in a `w` × `h` grid.
proof fn lemma_neighbour_index(w: int, h: int, i: int, x: int, y: int, q: int)
    requires
        0 <= x < w,
        0 <= y < h,
        i == y * w + x,
        0 <= q < w * h,
        adjacent(w, i, q),
    ensures
        (x > 0 && q == i - 1) || (x + 1 < w && q == i + 1) || (y > 0 && q == i - w) || (y + 1 < h
            && q == i + w),
{
    vstd::arithmetic::div_mod::lemma_fundamental_div_mod_converse(i, w, y, x);
    vstd::arithmetic::div_mod::lemma_fundamental_div_mod(q, w);
    let (qx, qy) = (q % w, q / w);
    assert(0 <= qx < w);
    assert(q == qy * w + qx) by (nonlinear_arith)
        requires
            q == w * (q / w) + q % w,
            qx == q % w,
            qy == q / w,
    ;
    if qy == y + 1 {
        assert(qy * w == y * w + w) by (nonlinear_arith)
            requires
                qy == y + 1,
        ;
        assert(qy < h) by (nonlinear_arith)
            requires
                q == qy * w + qx,
                q < w * h,
                qx >= 0,
                w > 0,
        ;
    } else if y == qy + 1 {
        assert(y * w == qy * w + w) by (nonlinear_arith)
            requires
                y == qy + 1,
        ;
    }
}

/// The four steps from pixel `i` = (x, y) lead to its 4-neighbours.
proof fn lemma_steps_adjacent(w: int, h: int, i: int, x: int, y: int)
    requires
        0 <= x < w,
        0 <= y < h,
        i == y * w + x,
    ensures
        x > 0 ==> adjacent(w, i, i - 1),
        x + 1 < w ==> adjacent(w, i, i + 1),
        y > 0 ==> adjacent(w, i, i - w),
        y + 1 < h ==> adjacent(w, i, i + w),
{
    vstd::arithmetic::div_mod::lemma_fundamental_div_mod_converse(i, w, y, x);
    if x > 0 {
        vstd::arithmetic::div_mod::lemma_fundamental_div_mod_converse(i - 1, w, y, x - 1);
    }
    if x + 1 < w {
        vstd::arithmetic::div_mod::lemma_fundamental_div_mod_converse(i + 1, w, y, x + 1);
    }
    if y > 0 {
        assert(i - w == (y - 1) * w + x) by (nonlinear_arith)
            requires
                i == y * w + x,
        ;
        vstd::arithmetic::div_mod::lemma_fundamental_div_mod_converse(i - w, w, y - 1, x);
    }
    if y + 1 < h {
        assert(i + w == (y + 1) * w + x) by (nonlinear_arith)
            requires
                i == y * w + x,
        ;
        vstd::arithmetic::div_mod::lemma_fundamental_div_mod_converse(i + w, w, y + 1, x);
    }
}

/// Every pixel marked in `vis` but not in `vis0` stands in `st` from
/// position `from` on.
pub open spec fn pushed_since(vis0: Seq<bool>, vis: Seq<bool>, st: Seq<usize>, from: int) -> bool {
    forall|q: int|
        0 <= q < vis.len() && #[trigger] vis[q] && !vis0[q] ==> exists|k: int|
            from <= k < st.len() && st[k] == q
}

proof fn lemma_pushed_step(
    vis0: Seq<bool>,
    vis: Seq<bool>,
    vis1: Seq<bool>,
    st: Seq<usize>,
    st1: Seq<usize>,
    from: int,
    j: int,
    w: int,
    i: int,
)
    requires
        pushed_since(vis0, vis, st, from),
        forall|k: int| from <= k < st.len() ==> adjacent(w, i, #[trigger] st[k] as int),
        adjacent(w, i, j),
        0 <= from <= st.len(),
        vis.len() == vis0.len(),
        0 <= j < vis.len(),
        (j as usize) as int == j,
        (vis1 == vis && st1 == st) || (vis1 == vis.update(j, true) && st1 == st.push(j as usize)),
    ensures
        pushed_since(vis0, vis1, st1, from),
        forall|k: int| from <= k < st1.len() ==> adjacent(w, i, #[trigger] st1[k] as int),
{
    assert forall|k: int| from <= k < st1.len() implies adjacent(w, i, #[trigger] st1[k] as int) by {
        if k < st.len() {
            assert(st1[k] == st[k]);
        }
    }
    assert forall|q: int| 0 <= q < vis1.len() && #[trigger] vis1[q] && !vis0[q] implies exists|k: int|
        from <= k < st1.len() && st1[k] == q by {
        if vis[q] {
            let k = choose|k: int| from <= k < st.len() && st[k] == q;
            assert(st1[k] == q);
        } else {
            assert(q == j && st1[st.len() as int] == q);
        }
    }
}

/// Every pixel marked in `vis` but not in `vis0` is one of `members` or
/// stands in `st`.
pub open spec fn accounted(vis0: Seq<bool>, vis: Seq<bool>, members: Seq<int>, st: Seq<usize>) -> bool {
    forall|q: int|
        0 <= q < vis.len() && #[trigger] vis[q] && !vis0[q] ==> members.contains(q) || exists|k: int|
            0 <= k < st.len() && st[k] == q
}

/// Marks pixel `j` visited and schedules it, if it is an unvisited candidate.
fn visit(cand: &Vec<bool>, visited: &mut Vec<bool>, stack: &mut Vec<usize>, j: usize)
    requires
        j < cand@.len() == old(visited)@.len(),
    ensures
        final(visited)@.len() == old(visited)@.len(),
        forall|k: int| 0 <= k < old(visited)@.len() && old(visited)@[k] ==> final(visited)@[k],
        cand@[j as int] && !old(visited)@[j as int] ==> final(stack)@ == old(stack)@.push(j)
            && final(visited)@ == old(visited)@.update(j as int, true) && count_true(final(visited)@) == count_true(old(visited)@) + 1,
        !(cand@[j as int] && !old(visited)@[j as int]) ==> final(stack)@ == old(stack)@
            && final(visited)@ == old(visited)@,
        cand@[j as int] ==> final(visited)@[j as int],
{
    if cand[j] && !visited[j] {
        proof {
            lemma_count_true_set(visited@, j as int);
        }
        visited.set(j, true);
        stack.push(j);
    }
}

/// Visits the 4-connected neighbours of pixel `i` = (x, y).
fn visit_neighbours(
    cand: &Vec<bool>,
    visited: &mut Vec<bool>,
    stack: &mut Vec<usize>,
    i: usize,
    x: usize,
    y: usize,
    w: usize,
    h: usize,
)
    requires
        cand@.len() == old(visited)@.len() == w * h,
        x < w,
        y < h,
        i == y * w + x,
    ensures
        final(visited)@.len() == old(visited)@.len(),
        forall|k: int| 0 <= k < old(visited)@.len() && old(visited)@[k] ==> final(visited)@[k],
        final(stack)@.len() >= old(stack)@.len(),
        forall|k: int| 0 <= k < old(stack)@.len() ==> final(stack)@[k] == old(stack)@[k],
        forall|k: int|
            old(stack)@.len() <= k < final(stack)@.len() ==> final(stack)@[k] < w * h
                && cand@[final(stack)@[k] as int],
        count_true(final(visited)@) == count_true(old(visited)@) + final(stack)@.len() - old(stack)@.len(),
        forall|k: int|
            old(stack)@.len() <= k < final(stack)@.len() ==> !old(visited)@[final(stack)@[k] as int]
                && final(visited)@[final(stack)@[k] as int],
        forall|k1: int, k2: int|
            old(stack)@.len() <= k1 < k2 < final(stack)@.len() ==> final(stack)@[k1] != final(stack)@[k2],
        forall|q: int|
            0 <= q < w * h && adjacent(w as int, i as int, q) && cand@[q] ==> final(visited)@[q],
        pushed_since(old(visited)@, final(visited)@, final(stack)@, old(stack)@.len() as int),
        forall|k: int|
            old(stack)@.len() <= k < final(stack)@.len() ==> adjacent(
                w as int,
                i as int,
                #[trigger] final(stack)@[k] as int,
            ),
{
    // the grid size fits in usize, being a vector length
    let n = cand.len();
    let ghost vis0 = visited@;
    let ghost from = stack@.len() as int;
    proof {
        lemma_steps_adjacent(w as int, h as int, i as int, x as int, y as int);
    }
    proof {
        assert(i < w * h) by (nonlinear_arith)
            requires
                i == y * w + x,
                y + 1 <= h,
                x < w,
        ;
    }
    if x > 0 {
        let ghost (v_before, s_before) = (visited@, stack@);
        visit(cand, visited, stack, i - 1);
        proof {
            lemma_pushed_step(
                vis0,
                v_before,
                visited@,
                s_before,
                stack@,
                from,
                (i - 1) as int,
                w as int,
                i as int,
            );
        }
    }
    if x + 1 < w {
        proof {
            assert(i + 1 < w * h) by (nonlinear_arith)
                requires
                    i == y * w + x,
                    y + 1 <= h,
                    x + 1 < w,
            ;
        }
        let ghost (v_before, s_before) = (visited@, stack@);
        visit(cand, visited, stack, i + 1);
        proof {
            lemma_pushed_step(
                vis0,
                v_before,
                visited@,
                s_before,
                stack@,
                from,
                (i + 1) as int,
                w as int,
                i as int,
            );
        }
    }
    if y > 0 {
        proof {
            assert(i >= w) by (nonlinear_arith)
                requires
                    i == y * w + x,
                    y >= 1,
                    x >= 0,
            ;
        }
        let ghost (v_before, s_before) = (visited@, stack@);
        visit(cand, visited, stack, i - w);
        proof {
            lemma_pushed_step(
                vis0,
                v_before,
                visited@,
                s_before,
                stack@,
                from,
                (i - w) as int,
                w as int,
                i as int,
            );
        }
    }
    if y + 1 < h {
        proof {
            assert(i + w < w * h) by (nonlinear_arith)
                requires
                    i == y * w + x,
                    y + 1 < h,
                    x < w,
            ;
        }
        let ghost (v_before, s_before) = (visited@, stack@);
        visit(cand, visited, stack, i + w);
        proof {
            lemma_pushed_step(
                vis0,
                v_before,
                visited@,
                s_before,
                stack@,
                from,
                (i + w) as int,
                w as int,
                i as int,
            );
        }
    }
    proof {
        assert(pushed_since(vis0, visited@, stack@, from));
        assert forall|q: int|
            0 <= q < w * h && adjacent(w as int, i as int, q) && cand@[q] implies visited@[q] by {
            lemma_neighbour_index(w as int, h as int, i as int, x as int, y as int, q);
        }
    }
}

/// Moving the last pixel of `st` to `members` keeps `members` 4-connected.
proof fn lemma_pop_link(
    w: int,
    members: Seq<int>,
    st: Seq<usize>,
    start: int,
    m1: Seq<int>,
    s1: Seq<usize>,
)
    requires
        m1 == members.push(st.last() as int),
        s1 == st.drop_last(),
        st.len() > 0,
        members.len() == 0 ==> st.len() == 1 && st[0] as int == start,
        members.len() > 0 ==> members[0] == start,
        reached(w, members, st),
        linked(w, members),
    ensures
        linked(w, m1),
        reached(w, m1, s1),
        m1[0] == start,
{
    if members.len() == 0 {
        assert(st.last() as int == start);
    } else {
        assert(m1[0] == members[0]);
    }
    assert forall|k: int| 0 < k < m1.len() implies #[trigger] linked_at(w, m1, k) by {
        if k < members.len() {
            assert(members[k] == m1[k]);
            assert(linked_at(w, members, k));
            let j1 = choose|j: int| 0 <= j < k && #[trigger] adjacent(w, members[j], members[k]);
            assert(m1[j1] == members[j1]);
            assert(adjacent(w, m1[j1], m1[k]));
        } else {
            let last = st.len() - 1;
            assert(st[last] == st.last());
            assert(has_link(w, members, st[last] as int));
            let j0 = choose|j: int|
                0 <= j < members.len() && #[trigger] adjacent(w, members[j], st[last] as int);
            assert(m1[j0] == members[j0]);
            assert(m1[k] == st[last] as int);
            assert(adjacent(w, m1[j0], m1[k]));
        }
    }
    assert forall|k: int| 0 <= k < s1.len() && m1.len() > 0 implies #[trigger] has_link(
        w,
        m1,
        s1[k] as int,
    ) by {
        assert(s1[k] == st[k]);
        if members.len() == 0 {
            assert(st.len() == 1);
        } else {
            assert(has_link(w, members, st[k] as int));
            let j1 = choose|j: int|
                0 <= j < members.len() && #[trigger] adjacent(w, members[j], st[k] as int);
            assert(m1[j1] == members[j1]);
            assert(adjacent(w, m1[j1], s1[k] as int));
        }
    }
}

/// Pixels pushed as 4-neighbours of the last member keep `st` reached.
proof fn lemma_push_link(w: int, members: Seq<int>, s0: Seq<usize>, s1: Seq<usize>, i: int)
    requires
        members.len() > 0,
        members.last() == i,
        reached(w, members, s0),
        s1.len() >= s0.len(),
        forall|k: int| 0 <= k < s0.len() ==> s1[k] == s0[k],
        forall|k: int| s0.len() <= k < s1.len() ==> adjacent(w, i, #[trigger] s1[k] as int),
    ensures
        reached(w, members, s1),
{
    assert forall|k: int| 0 <= k < s1.len() && members.len() > 0 implies #[trigger] has_link(
        w,
        members,
        s1[k] as int,
    ) by {
        if k < s0.len() {
            assert(s1[k] == s0[k]);
            assert(has_link(w, members, s0[k] as int));
            let j1 = choose|j: int|
                0 <= j < members.len() && #[trigger] adjacent(w, members[j], s0[k] as int);
            assert(adjacent(w, members[j1], s1[k] as int));
        } else {
            assert(members[members.len() - 1] == i);
            assert(adjacent(w, members[members.len() - 1], s1[k] as int));
        }
    }
    assert(reached(w, members, s1));
}

/// Collects the 4-connected blob of candidate pixels around `start` and
/// returns its sums; every pixel of it is marked visited.
fn fill_blob(
    levels: &Vec<u8>,
    cand: &Vec<bool>,
    visited: &mut Vec<bool>,
    start: usize,
    w: usize,
    h: usize,
) -> (r: (DetectedStar, Ghost<Seq<int>>))
    requires
        levels@.len() == cand@.len() == old(visited)@.len() == w * h,
        w * h <= 0x1_0000_0000,
        w <= 65535,
        h <= 65535,
        start < w * h,
        cand@[start as int],
        !old(visited)@[start as int],
        forall|k: int| 0 <= k < cand@.len() && cand@[k] ==> levels@[k] >= 1,
        forall|k: int|
            0 <= k < cand@.len() ==> cand@[k] == is_candidate(
                levels@.map_values(|v: u8| v as int),
                k,
            ),
        closed(cand@, old(visited)@, w as int),
    ensures
        closed(cand@, final(visited)@, w as int),
        final(visited)@.len() == old(visited)@.len(),
        forall|k: int| 0 <= k < old(visited)@.len() && old(visited)@[k] ==> final(visited)@[k],
        final(visited)@[start as int],
        r.0.fits(w as int, h as int),
        is_blob_of(as_levels(levels@), w as int, r.1@, r.0),
        forall|q: int|
            0 <= q < old(visited)@.len() && #[trigger] final(visited)@[q] && !old(visited)@[q]
                ==> r.1@.contains(q),
        forall|j: int|
            0 <= j < r.1@.len() ==> 0 <= #[trigger] r.1@[j] < old(visited)@.len() && !old(
                visited,
            )@[r.1@[j]] && final(visited)@[r.1@[j]],
{
    let ghost lv = as_levels(levels@);
    let ghost mut members: Seq<int> = Seq::empty();
    let ghost n = (w * h) as int;
    let ghost base = count_true(visited@);
    let ghost orig = visited@;
    proof {
        lemma_count_true_set(visited@, start as int);
    }
    visited.set(start, true);
    proof {
        lemma_count_true_bound(visited@);
    }
    let mut stack: Vec<usize> = Vec::new();
    stack.push(start);
    proof {
        assert forall|q: int|
            0 <= q < visited@.len() && #[trigger] visited@[q] && !orig[q] implies members.contains(q)
                || exists|k: int| 0 <= k < stack@.len() && stack@[k] == q by {
            assert(q == start);
            assert(stack@[0] == start);
        }
    }
    let mut area: u64 = 0;
    let mut brightness: u64 = 0;
    let mut x_sum: u64 = 0;
    let mut y_sum: u64 = 0;
    while stack.len() > 0
        invariant
            levels@.len() == cand@.len() == visited@.len() == n == w * h,
            n <= 0x1_0000_0000,
            w <= 65535,
            h <= 65535,
            start < n,
            visited@[start as int],
            forall|k: int| 0 <= k < cand@.len() && cand@[k] ==> levels@[k] >= 1,
            forall|k: int| 0 <= k < orig.len() && orig[k] ==> visited@[k],
            orig == old(visited)@,
            orig.len() == n,
            forall|k: int| 0 <= k < stack@.len() ==> stack@[k] < n && cand@[stack@[k] as int],
            base + area + stack@.len() <= count_true(visited@),
            count_true(visited@) <= n,
            area >= 1 || stack@.len() >= 1,
            area >= 1 ==> brightness >= 1,
            brightness <= 255 * area,
            x_sum <= (w - 1) * brightness,
            y_sum <= (h - 1) * brightness,
            lv == as_levels(levels@),
            lv == levels@.map_values(|v: u8| v as int),
            forall|k: int| 0 <= k < n ==> cand@[k] == is_candidate(lv, k),
            members.no_duplicates(),
            forall|k: int|
                0 <= k < members.len() ==> 0 <= members[k] < n && cand@[members[k]]
                    && visited@[members[k]] && !orig[members[k]],
            forall|k: int|
                0 <= k < stack@.len() ==> visited@[stack@[k] as int] && !orig[stack@[k] as int]
                    && !members.contains(stack@[k] as int),
            forall|k1: int, k2: int| 0 <= k1 < k2 < stack@.len() ==> stack@[k1] != stack@[k2],
            closed(cand@, orig, w as int),
            accounted(orig, visited@, members, stack@),
            members.len() == 0 ==> stack@ == seq![start],
            members.len() > 0 ==> members[0] == start,
            reached(w as int, members, stack@),
            linked(w as int, members),
            forall|k: int, q: int|
                0 <= k < members.len() && 0 <= q < n && cand@[q] && #[trigger] adjacent(
                    w as int,
                    members[k],
                    q,
                ) ==> visited@[q],
            area == members.len(),
            brightness == level_total(lv, members),
            x_sum == x_moment(lv, w as int, members),
            y_sum == y_moment(lv, w as int, members),
        decreases 2 * (n - count_true(visited@)) + stack@.len(),
    {
        proof {
            lemma_count_true_bound(visited@);
        }
        let ghost stack_before = stack;
        let i = stack.pop().unwrap();
        let x = i % w;
        let y = i / w;
        proof {
            vstd::arithmetic::div_mod::lemma_fundamental_div_mod(i as int, w as int);
            assert(y < h) by (nonlinear_arith)
                requires
                    i < w * h,
                    y == i / w,
                    w > 0,
            ;
            assert(i == y * w + x) by (nonlinear_arith)
                requires
                    i == w * (i / w) + i % w,
                    y == i / w,
                    x == i % w,
            ;
        }
        let v = levels[i] as u64;
        proof {
            assert(area + 1 <= n);
            assert(brightness + v <= 255 * 0x1_0000_0000);
            assert(x * v <= (w - 1) * v) by (nonlinear_arith)
                requires
                    x < w,
            ;
            assert(y * v <= (h - 1) * v) by (nonlinear_arith)
                requires
                    y < h,
            ;
            assert((w - 1) * brightness + (w - 1) * v == (w - 1) * (brightness + v))
                by (nonlinear_arith);
            assert((h - 1) * brightness + (h - 1) * v == (h - 1) * (brightness + v))
                by (nonlinear_arith);
            assert((w - 1) * (brightness + v) <= 65535 * (255 * 0x1_0000_0000)) by (nonlinear_arith)
                requires
                    1 <= w <= 65535,
                    brightness + v <= 255 * 0x1_0000_0000,
            ;
            assert((h - 1) * (brightness + v) <= 65535 * (255 * 0x1_0000_0000)) by (nonlinear_arith)
                requires
                    1 <= h <= 65535,
                    brightness + v <= 255 * 0x1_0000_0000,
            ;
        }
        area = area + 1;
        brightness = brightness + v;
        x_sum = x_sum + (x as u64) * v;
        y_sum = y_sum + (y as u64) * v;
        proof {
            let old_members = members;
            members = members.push(i as int);
            assert(members.drop_last() =~= old_members);
            lemma_pop_link(w as int, old_members, stack_before@, start as int, members, stack@);
            assert(lv[i as int] == v);
            assert forall|q: int|
                0 <= q < visited@.len() && #[trigger] visited@[q] && !orig[q] implies members.contains(q)
                    || exists|k: int| 0 <= k < stack@.len() && stack@[k] == q by {
                if !old_members.contains(q) {
                    let k = choose|k: int| 0 <= k < stack_before@.len() && stack_before@[k] == q;
                    if k == stack@.len() {
                        assert(members[members.len() - 1] == q);
                    } else {
                        assert(stack@[k] == q);
                    }
                } else {
                    let k = choose|k: int| 0 <= k < old_members.len() && old_members[k] == q;
                    assert(members[k] == q);
                }
            }
        }
        let ghost (v_before, s_before) = (visited@, stack@);
        visit_neighbours(cand, visited, &mut stack, i, x, y, w, h);
        proof {
            lemma_push_link(w as int, members, s_before, stack@, i as int);
            assert forall|q: int|
                0 <= q < visited@.len() && #[trigger] visited@[q] && !orig[q] implies members.contains(q)
                    || exists|k: int| 0 <= k < stack@.len() && stack@[k] == q by {
                if v_before[q] {
                    if !members.contains(q) {
                        let k = choose|k: int| 0 <= k < s_before.len() && s_before[k] == q;
                        assert(stack@[k] == q);
                    }
                } else {
                    let k = choose|k: int| s_before.len() <= k < stack@.len() && stack@[k] == q;
                }
            }
        }
        proof {
            lemma_count_true_bound(visited@);
        }
    }
    let star = DetectedStar { x_sum, y_sum, brightness, area };
    proof {
        assert forall|k: int, q: int|
            0 <= k < members.len() && 0 <= q < lv.len() && is_candidate(lv, q) && #[trigger] adjacent(
                w as int,
                members[k],
                q,
            ) implies members.contains(q) by {
            assert(cand@[q]);
            assert(visited@[q]);
            if orig[q] {
                assert(adjacent(w as int, q, members[k]));
                assert(orig[members[k]]);
            }
        }
        assert forall|p: int, q: int|
            0 <= p < visited@.len() && 0 <= q < visited@.len() && visited@[p] && cand@[q]
                && #[trigger] adjacent(w as int, p, q) implies visited@[q] by {
            if orig[p] {
                assert(orig[q]);
            } else {
                assert(members.contains(p));
                let k = choose|k: int| 0 <= k < members.len() && members[k] == p;
                assert(adjacent(w as int, members[k], q));
            }
        }
    }
    assert(is_blob_of(lv, w as int, members, star));
    (star, Ghost(members))
}

/// Inserts `star` into `stars`, kept ranked and at most `max` long; among
/// stars of equal brightness the earlier found comes first.
fn insert_ranked(stars: &mut Vec<DetectedStar>, star: DetectedStar, max: usize) -> (p: usize)
    requires
        1 <= max,
        old(stars)@.len() <= max,
        ranked(old(stars)@),
    ensures
        p <= old(stars)@.len(),
        p < old(stars)@.len() ==> old(stars)@[p as int].brightness < star.brightness,
        forall|k: int| 0 <= k < p ==> old(stars)@[k].brightness >= star.brightness,
        old(stars)@.len() < max ==> final(stars)@ == old(stars)@.insert(p as int, star),
        old(stars)@.len() == max ==> final(stars)@ == old(stars)@.insert(p as int, star).drop_last(),
        final(stars)@.len() <= max,
        ranked(final(stars)@),
        max >= 1 ==> final(stars)@.len() >= 1,
        forall|k: int|
            0 <= k < final(stars)@.len() ==> final(stars)@[k] == star || old(stars)@.contains(
                final(stars)@[k],
            ),
{
    let mut p: usize = 0;
    while p < stars.len() && stars[p].brightness >= star.brightness
        invariant
            p <= stars@.len(),
            forall|k: int| 0 <= k < p ==> stars@[k].brightness >= star.brightness,
        decreases stars@.len() - p,
    {
        p = p + 1;
    }
    let ghost before = stars@;
    stars.insert(p, star);
    assert(stars@ =~= before.insert(p as int, star));
    assert(forall|k: int|
        0 <= k < stars@.len() ==> stars@[k] == star || before.contains(stars@[k])) by {
        assert forall|k: int| 0 <= k < stars@.len() implies stars@[k] == star || before.contains(
            stars@[k],
        ) by {
            if k < p {
                assert(stars@[k] == before[k]);
            } else if k > p {
                assert(stars@[k] == before[k - 1]);
            }
        }
    }
    if stars.len() > max {
        let ghost full = stars@;
        stars.pop();
        assert(forall|k: int| 0 <= k < stars@.len() ==> stars@[k] == full[k]);
        assert(stars@ =~= full.drop_last());
    }
    p
}

/// Marks the star candidates among `levels`, given their threshold `t`
/// and their sum `s`.
fn mark_candidates(levels: &Vec<u8>, t: u8, s: u64) -> (cand: Vec<bool>)
    requires
        levels@.len() <= 0x1_0000_0000,
        t == threshold_spec(levels@.map_values(|v: u8| v as int)),
        s == sum(levels@.map_values(|v: u8| v as int)),
    ensures
        cand@.len() == levels@.len(),
        forall|k: int|
            0 <= k < levels@.len() ==> cand@[k] == is_candidate(
                levels@.map_values(|v: u8| v as int),
                k,
            ),
        forall|k: int| 0 <= k < levels@.len() && cand@[k] ==> levels@[k] >= 1,
{
    let ghost lv = levels@.map_values(|v: u8| v as int);
    let n = levels.len();
    let mut cand: Vec<bool> = Vec::new();
    let mut i: usize = 0;
    while i < n
        invariant
            n == levels@.len() <= 0x1_0000_0000,
            lv == levels@.map_values(|v: u8| v as int),
            t == threshold_spec(lv),
            s == sum(lv),
            cand@.len() == i <= n,
            forall|k: int| 0 <= k < i ==> cand@[k] == is_candidate(lv, k),
            forall|k: int| 0 <= k < i && cand@[k] ==> levels@[k] >= 1,
        decreases n - i,
    {
        let v = levels[i];
        assert(lv[i as int] == v as int);
        assert((v as u64) * (n as u64) <= 255 * 0x1_0000_0000) by (nonlinear_arith)
            requires
                v <= 255,
                n <= 0x1_0000_0000,
        ;
        assert(v == 0 ==> (v as u64) * (n as u64) == 0) by (nonlinear_arith);
        cand.push(v >= t && (v as u64) * (n as u64) > s);
        i = i + 1;
    }
    cand
}

impl<'a> Frame<'a> {
    /// Finds up to `max_stars` stars: the 4-connected blobs of candidate
    /// pixels (see `is_candidate`) of at least `min_pixels` pixels, brightest
    /// first, ties in scan order. Each star holds the sums of one
    /// 4-connected component of candidate pixels, and no two stars share a
    /// pixel (see `detected`).
    /// A frame without candidate, uniform frames among them, has no star;
    /// one with a candidate has at least one when `min_pixels` is at most 1.
    #[verifier::rlimit(100)]
    pub fn star_coordinates_finder(&self, max_stars: usize, min_pixels: u64) -> (stars: Vec<
        DetectedStar,
    >)
        ensures
            self.width_spec() <= 65535 && self.height_spec() <= 65535,
            detected(*self, max_stars as int, min_pixels as int, stars@),
    {
        let levels = self.gray_levels();
        let ghost lv = self.levels();
        let n = levels.len();
        let t = threshold_of_levels(&levels);
        let s = level_sum(&levels);
        let cand = mark_candidates(&levels, t, s);
        let mut visited: Vec<bool> = Vec::new();
        let mut i: usize = 0;
        while i < n
            invariant
                visited@.len() == i <= n,
                forall|k: int| 0 <= k < i ==> !visited@[k],
            decreases n - i,
        {
            visited.push(false);
            i = i + 1;
        }
        let w = self.bitmap.width() as usize;
        let h = self.bitmap.height() as usize;
        proof {
            use_type_invariant(self);
            assert(w <= 65535 && h <= 65535);
        }
        let mut stars: Vec<DetectedStar> = Vec::new();
        let ghost mut blobs: Seq<Seq<int>> = Seq::empty();
        let ghost mut all_b: Seq<Seq<int>> = Seq::empty();
        let ghost mut all_s: Seq<DetectedStar> = Seq::empty();
        let mut i: usize = 0;
        while i < n
            invariant
                n == levels@.len() == cand@.len() == visited@.len() == w * h,
                n <= 0x1_0000_0000,
                w <= 65535,
                h <= 65535,
                n == lv.len(),
                lv == levels@.map_values(|v: u8| v as int),
                w == self.width_spec(),
                h == self.height_spec(),
                forall|k: int| 0 <= k < n && cand@[k] ==> levels@[k] >= 1,
                forall|k: int| 0 <= k < n ==> cand@[k] == is_candidate(lv, k),
                forall|k: int| 0 <= k < i && cand@[k] ==> visited@[k],
                closed(cand@, visited@, w as int),
                stars@.len() <= max_stars,
                ranked(stars@),
                lv == as_levels(levels@),
                blob_list(lv, w as int, stars@, blobs),
                disjoint_blobs(blobs),
                marked_blobs(blobs, visited@),
                blob_list(lv, w as int, all_s, all_b),
                disjoint_blobs(all_b),
                marked_blobs(all_b, visited@),
                marked_covered(all_b, visited@),
                selected(stars@, all_s, max_stars as int, min_pixels as int),
                forall|k: int|
                    0 <= k < stars@.len() ==> found(
                        lv,
                        w as int,
                        h as int,
                        min_pixels as int,
                        #[trigger] stars@[k],
                    ),
                (forall|k: int| 0 <= k < n ==> !cand@[k]) ==> stars@.len() == 0,
                max_stars >= 1 && min_pixels <= 1 && (exists|k: int| 0 <= k < n && visited@[k])
                    ==> stars@.len() >= 1,
            decreases n - i,
        {
            if cand[i] && !visited[i] {
                let ghost vis0 = visited@;
                let (star, Ghost(members)) = fill_blob(&levels, &cand, &mut visited, i, w, h);
                proof {
                    assert forall|k: int, j: int|
                        0 <= k < blobs.len() && 0 <= j < blobs[k].len() implies 0
                        <= #[trigger] blobs[k][j] < visited@.len() && visited@[blobs[k][j]] by {
                        assert(vis0[blobs[k][j]]);
                    }
                    let ghost len = all_s.len() as int;
                    lemma_insert_blob(lv, w as int, all_s, all_b, star, members, len, vis0, visited@);
                    lemma_record_blob(all_b, members, vis0, visited@);
                    assert(all_s.insert(len, star) =~= all_s.push(star));
                    assert(all_b.insert(len, members) =~= all_b.push(members));
                }
                let ghost all_s0 = all_s;
                proof {
                    all_s = all_s.push(star);
                    all_b = all_b.push(members);
                }
                if star.area >= min_pixels && max_stars > 0 {
                    let ghost prev = stars@;
                    let p = insert_ranked(&mut stars, star, max_stars);
                    proof {
                        lemma_select_insert(
                            prev,
                            stars@,
                            all_s0,
                            star,
                            p as int,
                            max_stars as int,
                            min_pixels as int,
                        );
                        lemma_insert_blob(lv, w as int, prev, blobs, star, members, p as int, vis0, visited@);
                        blobs = blobs.insert(p as int, members);
                        assert(marked_blobs(blobs, visited@));
                        if prev.len() == max_stars {
                            lemma_drop_blob(lv, w as int, prev.insert(p as int, star), blobs, visited@);
                            blobs = blobs.drop_last();
                        }
                    }
                    assert(found(lv, w as int, h as int, min_pixels as int, star));
                    assert forall|k: int| 0 <= k < stars@.len() implies found(
                        lv,
                        w as int,
                        h as int,
                        min_pixels as int,
                        #[trigger] stars@[k],
                    ) by {
                        if stars@[k] != star {
                            let j = choose|j: int| 0 <= j < prev.len() && prev[j] == stars@[k];
                            assert(found(lv, w as int, h as int, min_pixels as int, prev[j]));
                        }
                    }
                } else {
                    proof {
                        lemma_select_skip(stars@, all_s0, star, max_stars as int, min_pixels as int);
                    }
                }
            }
            i = i + 1;
        }
        proof {
            if forall|k: int| 0 <= k < n ==> #[trigger] lv[k] == lv[0] {
                assert forall|k: int| 0 <= k < n implies !cand@[k] by {
                    crate::frame::lemma_uniform_no_candidate(lv, lv[0], k);
                }
            }
            if exists|k: int| 0 <= k < n && is_candidate(lv, k) {
                let k = choose|k: int| 0 <= k < n && is_candidate(lv, k);
                assert(visited@[k]);
            }
            assert forall|x: int| 0 <= x < lv.len() && #[trigger] is_candidate(lv, x) implies exists|
                k: int,
            | 0 <= k < all_b.len() && all_b[k].contains(x) by {
                assert(cand@[x] && visited@[x]);
            }
            assert(covers(lv, all_b));
        }
        stars
    }
}

} // verus!
