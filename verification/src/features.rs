//! Corner detectors, orientation, binary descriptors and non-maximum
//! suppression.

use vstd::prelude::*;

use crate::keypoints::{Descriptor, KeyPoint, KeyPointShape, Rotation};
use crate::algorithm::{conv_sum, push_weight, gauss_kernel_spec, gauss_divisor_spec, gaussian_kernel, luma_of, rgb3, sobel_x_kernel, sobel_y_kernel, sum_abs_i64};
use crate::model::{ColorSpace, Image};
use crate::typing::ImageData;

verus! {

/// Whether keypoint `p` survives suppression among `s`: no keypoint within
/// the (squared) radius has a strictly greater score. Equal scores survive on
/// both sides: ties are kept by design, so equal-score neighbors never
/// eliminate each other.
pub open spec fn nms_keep(s: Seq<KeyPoint>, p: KeyPoint, dist_sq: int) -> bool {
    forall|j: int| 0 <= j < s.len() && #[trigger] s[j].dist_sq(p) <= dist_sq
        ==> s[j].score <= p.score
}

/// The suppressed set: the keypoints that survive, in input order.
pub open spec fn nms_filter(s: Seq<KeyPoint>, dist_sq: int) -> Seq<KeyPoint> {
    s.filter(|p: KeyPoint| nms_keep(s, p, dist_sq))
}

/// Non-maximum suppression over a squared Euclidean radius: a keypoint is
/// kept exactly when no keypoint of the input within the radius (itself
/// included) has a strictly greater score. Output order follows input order.
///
/// An outside spatial index (a k-d tree) would speed the neighbor queries,
/// but such indexes are keyed by floating-point coordinates, which verified
/// signatures cannot carry; the direct scan below realizes the same
/// surviving set.
pub fn non_maximum_suppression(keypoints: &Vec<KeyPoint>, dist_sq: u64) -> (r: Vec<KeyPoint>)
    requires
        forall|i: int| 0 <= i < keypoints@.len()
            ==> (#[trigger] keypoints@[i].x) < 0x4000_0000 && keypoints@[i].y < 0x4000_0000,
    ensures
        r@ == nms_filter(keypoints@, dist_sq as int),
{
    let ghost s = keypoints@;
    let ghost pred = |p: KeyPoint| nms_keep(s, p, dist_sq as int);
    let n = keypoints.len();
    let mut r: Vec<KeyPoint> = Vec::new();
    let mut i: usize = 0;
    proof {
        reveal(Seq::filter);
        assert(s.take(0) =~= Seq::<KeyPoint>::empty());
    }
    while i < n
        invariant
            s == keypoints@,
            n == s.len(),
            i <= n,
            pred == (|p: KeyPoint| nms_keep(s, p, dist_sq as int)),
            forall|k: int| 0 <= k < s.len()
                ==> (#[trigger] s[k].x) < 0x4000_0000 && s[k].y < 0x4000_0000,
            r@ == s.take(i as int).filter(pred),
        decreases n - i,
    {
        let p = keypoints[i];
        // Does any keypoint within the radius beat p's score?
        let mut keep = true;
        let mut j: usize = 0;
        while j < n
            invariant
                s == keypoints@,
                n == s.len(),
                i < n,
                j <= n,
                p == s[i as int],
                forall|k: int| 0 <= k < s.len()
                    ==> (#[trigger] s[k].x) < 0x4000_0000 && s[k].y < 0x4000_0000,
                keep == forall|k: int| 0 <= k < j && #[trigger] s[k].dist_sq(p)
                    <= dist_sq as int ==> s[k].score <= p.score,
            decreases n - j,
        {
            let q = keypoints[j];
            let dx = if p.x >= q.x { (p.x - q.x) as i64 } else { (q.x - p.x) as i64 };
            let dy = if p.y >= q.y { (p.y - q.y) as i64 } else { (q.y - p.y) as i64 };
            proof {
                assert(dx * dx == (q.x - p.x) * (q.x - p.x) && dy * dy
                    == (q.y - p.y) * (q.y - p.y) && 0 <= dx * dx <= 0x4000_0000 * 0x4000_0000
                    && 0 <= dy * dy <= 0x4000_0000 * 0x4000_0000) by (nonlinear_arith)
                    requires
                        -0x4000_0000 <= dx <= 0x4000_0000,
                        -0x4000_0000 <= dy <= 0x4000_0000,
                        dx == p.x - q.x || dx == q.x - p.x,
                        dy == p.y - q.y || dy == q.y - p.y,
                ;
            }
            let d2 = (dx * dx + dy * dy) as u64;
            proof {
                assert(d2 as int == s[j as int].dist_sq(p));
            }
            if d2 <= dist_sq && q.score > p.score {
                keep = false;
            }
            j = j + 1;
        }
        proof {
            assert(keep == nms_keep(s, p, dist_sq as int));
            assert(s.take(i + 1).drop_last() =~= s.take(i as int));
            assert(s.take(i + 1).last() == s[i as int]);
            reveal(Seq::filter);
        }
        if keep {
            r.push(p);
        }
        i = i + 1;
    }
    proof {
        assert(s.take(n as int) =~= s);
    }
    r
}

/// Squared distances are symmetric.
pub proof fn lemma_dist_sq_symm(a: KeyPoint, b: KeyPoint)
    ensures
        a.dist_sq(b) == b.dist_sq(a),
{
    assert((a.x - b.x) * (a.x - b.x) == (b.x - a.x) * (b.x - a.x) && (a.y - b.y) * (a.y - b.y)
        == (b.y - a.y) * (b.y - a.y)) by (nonlinear_arith);
}

/// The suppression law for a dominated cluster: when every keypoint lies
/// within the radius of one keypoint `m` of strictly greatest score, exactly
/// the maximum survives.
pub proof fn lemma_nms_cluster(s: Seq<KeyPoint>, mi: int, dist_sq: int)
    requires
        0 <= mi < s.len(),
        forall|k: int| 0 <= k < s.len() ==> #[trigger] s[k].dist_sq(s[mi]) <= dist_sq,
        forall|k: int| 0 <= k < s.len() && k != mi ==> (#[trigger] s[k]).score < s[mi].score,
    ensures
        nms_filter(s, dist_sq) =~= seq![s[mi]],
{
    let m = s[mi];
    let pred = |p: KeyPoint| nms_keep(s, p, dist_sq);
    assert forall|k: int| 0 <= k < s.len() implies #[trigger] pred(s[k]) == (k == mi) by {
        if k == mi {
            assert forall|j: int| 0 <= j < s.len() && #[trigger] s[j].dist_sq(m) <= dist_sq
                implies s[j].score <= m.score by {}
            assert(pred(s[k]));
        } else {
            lemma_dist_sq_symm(s[mi], s[k]);
            assert(s[mi].dist_sq(s[k]) <= dist_sq);
            assert(s[mi].score > s[k].score);
            assert(!pred(s[k]));
        }
    }
    lemma_filter_unique_index(s, pred, mi);
}

/// Filtering by a predicate that holds at exactly one index yields exactly
/// that element.
proof fn lemma_filter_unique_index(s: Seq<KeyPoint>, pred: spec_fn(KeyPoint) -> bool, mi: int)
    requires
        0 <= mi < s.len(),
        forall|k: int| 0 <= k < s.len() ==> #[trigger] pred(s[k]) == (k == mi),
    ensures
        s.filter(pred) =~= seq![s[mi]],
    decreases s.len(),
{
    reveal(Seq::filter);
    if mi == s.len() - 1 {
        lemma_filter_none(s.drop_last(), pred);
        assert(s.filter(pred) =~= s.drop_last().filter(pred).push(s.last()));
    } else {
        lemma_filter_unique_index(s.drop_last(), pred, mi);
    }
}

/// Filtering by a predicate that holds nowhere yields the empty sequence.
proof fn lemma_filter_none(s: Seq<KeyPoint>, pred: spec_fn(KeyPoint) -> bool)
    requires
        forall|k: int| 0 <= k < s.len() ==> !(#[trigger] pred(s[k])),
    ensures
        s.filter(pred) =~= Seq::<KeyPoint>::empty(),
    decreases s.len(),
{
    reveal(Seq::filter);
    if s.len() > 0 {
        lemma_filter_none(s.drop_last(), pred);
    }
}


/// The byte of pixel (`x`, `y`) in a single-channel plane of width `w`.
pub open spec fn gray_at(s: Seq<u8>, w: int, x: int, y: int) -> int {
    s[w * y + x] as int
}

/// The 16 offsets of the Bresenham circle of radius 3, clockwise from the
/// top, as (dx, dy).
pub open spec fn fast_circle() -> Seq<(int, int)> {
    seq![
        (0int, -3int), (1int, -3int), (2int, -2int), (3int, -1int), (3int, 0int),
        (3int, 1int), (2int, 2int), (1int, 3int), (0int, 3int), (-1int, 3int),
        (-2int, 2int), (-3int, 1int), (-3int, 0int), (-3int, -1int), (-2int, -2int),
        (-1int, -3int),
    ]
}

/// The byte of the `k`-th circle sample around (`x`, `y`).
pub open spec fn circle_byte(s: Seq<u8>, w: int, x: int, y: int, k: int) -> int {
    gray_at(s, w, x + fast_circle()[k].0, y + fast_circle()[k].1)
}

/// A circle sample's class against the thresholds: 0 below, 1 neither,
/// 2 above.
pub open spec fn fast_class(p: int, up: int, down: int) -> int {
    1 + (if p > up { 1int } else { 0int }) - (if p < down { 1int } else { 0int })
}

/// The cheap rejection test: at least 3 of the 4 cardinal circle samples lie
/// strictly above `up`, or at least 3 strictly below `down`.
pub open spec fn fast_quick(s: Seq<u8>, w: int, x: int, y: int, up: int, down: int) -> bool {
    let p0 = circle_byte(s, w, x, y, 0);
    let p1 = circle_byte(s, w, x, y, 4);
    let p2 = circle_byte(s, w, x, y, 8);
    let p3 = circle_byte(s, w, x, y, 12);
    let above = (if p0 > up { 1int } else { 0int }) + (if p1 > up { 1int } else { 0int })
        + (if p2 > up { 1int } else { 0int }) + (if p3 > up { 1int } else { 0int });
    let below = (if p0 < down { 1int } else { 0int }) + (if p1 < down { 1int } else { 0int })
        + (if p2 < down { 1int } else { 0int }) + (if p3 < down { 1int } else { 0int });
    above >= 3 || below >= 3
}

/// Whether a run of 12 equally classified, non-neutral circle samples starts
/// at index `st` (wrapping around the circle).
pub open spec fn fast_run_at(s: Seq<u8>, w: int, x: int, y: int, up: int, down: int,
    st: int) -> bool {
    &&& fast_class(circle_byte(s, w, x, y, st), up, down) != 1
    &&& forall|k: int| 0 <= k < 12 ==> fast_class(
        #[trigger] circle_byte(s, w, x, y, (st + k) % 16), up, down)
        == fast_class(circle_byte(s, w, x, y, st), up, down)
}

/// The full test: some circular run of at least 12 samples all strictly
/// above `up` or all strictly below `down`.
pub open spec fn fast_full(s: Seq<u8>, w: int, x: int, y: int, up: int, down: int) -> bool {
    exists|st: int| 0 <= st < 16 && fast_run_at(s, w, x, y, up, down, st)
}

/// Whether pixel (`x`, `y`) is a FAST corner for threshold `t`.
pub open spec fn is_fast_corner(s: Seq<u8>, w: int, x: int, y: int, t: int) -> bool {
    let p = gray_at(s, w, x, y);
    fast_quick(s, w, x, y, p + t, p - t) && fast_full(s, w, x, y, p + t, p - t)
}

/// The sum of the first `k` differences between the center intensity and its
/// circle samples.
pub open spec fn fast_score_upto(s: Seq<u8>, w: int, x: int, y: int, k: int) -> int
    decreases k,
{
    if k <= 0 {
        0
    } else {
        fast_score_upto(s, w, x, y, k - 1) + gray_at(s, w, x, y) - circle_byte(s, w, x, y,
            k - 1)
    }
}

/// The FAST score: the signed sum over all 16 circle samples of the center
/// intensity minus the sample.
pub open spec fn fast_score_spec(s: Seq<u8>, w: int, x: int, y: int) -> int {
    fast_score_upto(s, w, x, y, 16)
}

/// The keypoint FAST emits at (`x`, `y`).
pub open spec fn fast_keypoint(s: Seq<u8>, w: int, x: int, y: int) -> KeyPoint {
    KeyPoint {
        x: x as usize,
        y: y as usize,
        descriptor: Descriptor::Empty,
        octave: 0,
        score: fast_score_spec(s, w, x, y) as i32,
        angle: Rotation { c: 16384, s: 0 },
        color: (0, 255, 0),
        shape: KeyPointShape::Square,
    }
}

/// The FAST corners of the first `n` cells of the margin-trimmed scan area,
/// in row-major order.
pub open spec fn fast_candidates_upto(s: Seq<u8>, w: int, h: int, t: int, m: int,
    n: int) -> Seq<KeyPoint>
    decreases n,
{
    if n <= 0 || w <= 2 * m || h <= 2 * m {
        Seq::empty()
    } else {
        let cw = w - 2 * m;
        let x = m + (n - 1) % cw;
        let y = m + (n - 1) / cw;
        fast_candidates_upto(s, w, h, t, m, n - 1) + (if is_fast_corner(s, w, x, y, t) {
            seq![fast_keypoint(s, w, x, y)]
        } else {
            Seq::empty()
        })
    }
}

/// All FAST corners of the margin-trimmed area, in row-major order.
pub open spec fn fast_candidates(s: Seq<u8>, w: int, h: int, t: int, m: int) -> Seq<KeyPoint> {
    fast_candidates_upto(s, w, h, t, m, (h - 2 * m) * (w - 2 * m))
}

/// The `k`-th circle offset.
fn circle_offset(k: usize) -> (r: (i32, i32))
    requires
        k < 16,
    ensures
        (r.0 as int, r.1 as int) == fast_circle()[k as int],
{
    if k == 0 { (0, -3) } else if k == 1 { (1, -3) } else if k == 2 { (2, -2) }
    else if k == 3 { (3, -1) } else if k == 4 { (3, 0) } else if k == 5 { (3, 1) }
    else if k == 6 { (2, 2) } else if k == 7 { (1, 3) } else if k == 8 { (0, 3) }
    else if k == 9 { (-1, 3) } else if k == 10 { (-2, 2) } else if k == 11 { (-3, 1) }
    else if k == 12 { (-3, 0) } else if k == 13 { (-3, -1) } else if k == 14 { (-2, -2) }
    else { (-1, -3) }
}

impl<T: ImageData> Image<T> {
    /// Reads the byte of pixel (`x`, `y`) of a single-channel buffer.
    fn gray_sample(&self, x: usize, y: usize) -> (r: u8)
        requires
            self.wf(),
            self.channels == 1,
            x < self.width,
            y < self.height,
        ensures
            r == gray_at(self.bytes(), self.width as int, x as int, y as int),
    {
        proof {
            assert((self.width as int * y + x) * 1 + 0 == self.width as int * y + x)
                by (nonlinear_arith);
        }
        self.get_sample(x, y, 0).to_u8()
    }

    /// The 16 circle sample bytes around (`x`, `y`).
    fn fast_neighborhood(&self, x: usize, y: usize) -> (r: Vec<u8>)
        requires
            self.wf(),
            self.channels == 1,
            3 <= x,
            x + 3 < self.width,
            3 <= y,
            y + 3 < self.height,
            self.width < 0x4000_0000,
            self.height < 0x4000_0000,
        ensures
            r@.len() == 16,
            forall|k: int| 0 <= k < 16 ==> r@[k] == circle_byte(self.bytes(),
                self.width as int, x as int, y as int, k),
    {
        let mut r: Vec<u8> = Vec::new();
        let mut k: usize = 0;
        while k < 16
            invariant
                self.wf(),
                self.channels == 1,
                3 <= x,
                x + 3 < self.width,
                3 <= y,
                y + 3 < self.height,
                self.width < 0x4000_0000,
                self.height < 0x4000_0000,
                k <= 16,
                r@.len() == k,
                forall|j: int| 0 <= j < k ==> r@[j] == circle_byte(self.bytes(),
                    self.width as int, x as int, y as int, j),
            decreases 16 - k,
        {
            let (dx, dy) = circle_offset(k);
            let sx = ((x as i64) + (dx as i64)) as usize;
            let sy = ((y as i64) + (dy as i64)) as usize;
            let v = self.gray_sample(sx, sy);
            r.push(v);
            k = k + 1;
        }
        r
    }

    /// The cheap cardinal-sample rejection test at (`x`, `y`).
    fn fast_neighborhood_fast_check(&self, x: usize, y: usize, up: i32, down: i32) -> (r: bool)
        requires
            self.wf(),
            self.channels == 1,
            3 <= x,
            x + 3 < self.width,
            3 <= y,
            y + 3 < self.height,
            self.width < 0x4000_0000,
            self.height < 0x4000_0000,
        ensures
            r == fast_quick(self.bytes(), self.width as int, x as int, y as int, up as int,
                down as int),
    {
        let p0 = self.gray_sample(x, y - 3) as i32;
        let p1 = self.gray_sample(x + 3, y) as i32;
        let p2 = self.gray_sample(x, y + 3) as i32;
        let p3 = self.gray_sample(x - 3, y) as i32;
        let above = (if p0 > up { 1u32 } else { 0u32 }) + (if p1 > up { 1 } else { 0 })
            + (if p2 > up { 1 } else { 0 }) + (if p3 > up { 1 } else { 0 });
        let below = (if p0 < down { 1u32 } else { 0u32 }) + (if p1 < down { 1 } else { 0 })
            + (if p2 < down { 1 } else { 0 }) + (if p3 < down { 1 } else { 0 });
        above >= 3 || below >= 3
    }

    /// The full circular-run test at (`x`, `y`).
    fn fast_neighborhood_full_check(&self, x: usize, y: usize, up: i32, down: i32) -> (r: bool)
        requires
            self.wf(),
            self.channels == 1,
            3 <= x,
            x + 3 < self.width,
            3 <= y,
            y + 3 < self.height,
            self.width < 0x4000_0000,
            self.height < 0x4000_0000,
        ensures
            r == fast_full(self.bytes(), self.width as int, x as int, y as int, up as int,
                down as int),
    {
        let ghost bs = self.bytes();
        let ghost w = self.width as int;
        let nb = self.fast_neighborhood(x, y);
        let mut found = false;
        let mut st: usize = 0;
        while st < 16
            invariant
                nb@.len() == 16,
                forall|j: int| 0 <= j < 16 ==> nb@[j] == circle_byte(bs, w, x as int,
                    y as int, j),
                st <= 16,
                found == exists|s0: int| 0 <= s0 < st && fast_run_at(bs, w, x as int,
                    y as int, up as int, down as int, s0),
            decreases 16 - st,
        {
            let c0 = Self::map_fast_pixel_value(nb[st], up, down);
            let mut ok = c0 != 1;
            let mut k: usize = 1;
            while k < 12
                invariant
                    nb@.len() == 16,
                    forall|j: int| 0 <= j < 16 ==> nb@[j] == circle_byte(bs, w, x as int,
                        y as int, j),
                    st < 16,
                    k <= 12,
                    c0 == fast_class(circle_byte(bs, w, x as int, y as int, st as int),
                        up as int, down as int),
                    ok == (c0 != 1 && forall|kk: int| 0 <= kk < k ==> fast_class(
                        #[trigger] circle_byte(bs, w, x as int, y as int,
                            (st + kk) % 16 as int), up as int, down as int) == c0),
                decreases 12 - k,
            {
                let idx = (st + k) % 16;
                let ck = Self::map_fast_pixel_value(nb[idx], up, down);
                if ck != c0 {
                    ok = false;
                }
                k = k + 1;
            }
            proof {
                if ok {
                    assert(fast_run_at(bs, w, x as int, y as int, up as int, down as int,
                        st as int));
                }
                if fast_run_at(bs, w, x as int, y as int, up as int, down as int, st as int) {
                    assert(c0 != 1);
                    assert(forall|kk: int| 0 <= kk < 12 ==> fast_class(
                        #[trigger] circle_byte(bs, w, x as int, y as int, (st + kk) % 16),
                        up as int, down as int) == c0);
                }
            }
            if ok {
                found = true;
            }
            st = st + 1;
        }
        found
    }

    /// Classifies a sample against the thresholds: 0 below, 1 neither,
    /// 2 above.
    fn map_fast_pixel_value(p: u8, up: i32, down: i32) -> (r: u8)
        ensures
            r == fast_class(p as int, up as int, down as int),
    {
        let mut r: u8 = 1;
        if (p as i32) > up {
            r = r + 1;
        }
        if (p as i32) < down {
            r = r - 1;
        }
        r
    }

    /// The signed FAST score at (`x`, `y`).
    fn fast_score(&self, x: usize, y: usize) -> (r: i32)
        requires
            self.wf(),
            self.channels == 1,
            3 <= x,
            x + 3 < self.width,
            3 <= y,
            y + 3 < self.height,
            self.width < 0x4000_0000,
            self.height < 0x4000_0000,
        ensures
            r == fast_score_spec(self.bytes(), self.width as int, x as int, y as int),
    {
        let ghost bs = self.bytes();
        let ghost w = self.width as int;
        let nb = self.fast_neighborhood(x, y);
        let p = self.gray_sample(x, y) as i32;
        let mut acc: i32 = 0;
        let mut k: usize = 0;
        while k < 16
            invariant
                nb@.len() == 16,
                forall|j: int| 0 <= j < 16 ==> nb@[j] == circle_byte(bs, w, x as int,
                    y as int, j),
                p == gray_at(bs, w, x as int, y as int),
                k <= 16,
                acc == fast_score_upto(bs, w, x as int, y as int, k as int),
                -255 * k <= acc <= 255 * k,
            decreases 16 - k,
        {
            acc = acc + p - (nb[k] as i32);
            k = k + 1;
        }
        acc
    }

    /// The FAST corner detector on a single-channel gray buffer: a pixel at
    /// least `margin` (at minimum 3) from every border is a corner when it
    /// passes the cardinal rejection test and shows a circular run of 12
    /// equally classified samples for threshold `t`. Corners carry the signed
    /// intensity-difference score; non-maximum suppression over the given
    /// squared radius is applied when it is non-zero.
    pub fn fast(&self, t: i16, non_maximum_suppression_dist_sq: u64, margin: usize)
        -> (r: Vec<KeyPoint>)
        requires
            self.wf(),
            self.channels == 1,
            self.color == ColorSpace::Gray,
            self.width < 0x4000_0000,
            self.height < 0x4000_0000,
        ensures
            ({
                let m = if margin >= 3 { margin as int } else { 3int };
                let cands = fast_candidates(self.bytes(), self.width as int,
                    self.height as int, t as int, m);
                r@ == if non_maximum_suppression_dist_sq == 0 { cands } else {
                    nms_filter(cands, non_maximum_suppression_dist_sq as int)
                }
            }),
    {
        let ghost bs = self.bytes();
        let ghost w = self.width as int;
        let ghost h = self.height as int;
        let m: usize = if margin >= 3 { margin } else { 3 };
        let ghost mm = m as int;
        let mut cands: Vec<KeyPoint> = Vec::new();
        if m < 0x2000_0000 && self.width > 2 * m && self.height > 2 * m {
            let cw = self.width - 2 * m;
            let mut y: usize = m;
            while y < self.height - m
                invariant
                    self.wf(),
                    self.channels == 1,
                    bs == self.bytes(),
                    w == self.width as int,
                    h == self.height as int,
                    mm == m as int,
                    3 <= m < 0x2000_0000,
                    w > 2 * mm,
                    h > 2 * mm,
                    cw == w - 2 * mm,
                    self.width < 0x4000_0000,
                    self.height < 0x4000_0000,
                    m <= y <= self.height - m,
                    cands@ == fast_candidates_upto(bs, w, h, t as int, mm,
                        (y - mm) * cw),
                    forall|i: int| 0 <= i < cands@.len()
                        ==> (#[trigger] cands@[i].x) < 0x4000_0000
                            && cands@[i].y < 0x4000_0000,
                decreases self.height - m - y,
            {
                let mut x: usize = m;
                proof {
                    assert((y - mm) * cw + cw == (y + 1 - mm) * cw
                        && (y - mm) * cw >= 0) by (nonlinear_arith)
                        requires
                            cw >= 1,
                            y >= mm,
                    ;
                }
                while x < self.width - m
                    invariant
                        self.wf(),
                        self.channels == 1,
                        bs == self.bytes(),
                        w == self.width as int,
                        h == self.height as int,
                        mm == m as int,
                        3 <= m < 0x2000_0000,
                        w > 2 * mm,
                        h > 2 * mm,
                        cw == w - 2 * mm,
                        self.width < 0x4000_0000,
                        self.height < 0x4000_0000,
                        m <= y < self.height - m,
                        m <= x <= self.width - m,
                        cands@ == fast_candidates_upto(bs, w, h, t as int, mm,
                            (y - mm) * cw + (x - mm)),
                        forall|i: int| 0 <= i < cands@.len()
                            ==> (#[trigger] cands@[i].x) < 0x4000_0000
                                && cands@[i].y < 0x4000_0000,
                    decreases self.width - m - x,
                {
                    let p = self.gray_sample(x, y) as i32;
                    let up = p + (t as i32);
                    let down = p - (t as i32);
                    let is_corner = self.fast_neighborhood_fast_check(x, y, up, down)
                        && self.fast_neighborhood_full_check(x, y, up, down);
                    proof {
                        assert(0 <= (y - mm) * (cw as int)) by (nonlinear_arith)
                            requires
                                cw >= 1,
                                y >= mm,
                        ;
                        crate::arith::lemma_decompose((y - mm) * (cw as int) + (x - mm),
                            cw as int, y - mm, x - mm);
                        assert(is_corner == is_fast_corner(bs, w, x as int, y as int,
                            t as int));
                    }
                    if is_corner {
                        let score = self.fast_score(x, y);
                        let mut kp = KeyPoint::new(x, y, (0, 255, 0), KeyPointShape::Square);
                        kp.score = score;
                        proof {
                            assert(kp == fast_keypoint(bs, w, x as int, y as int));
                        }
                        cands.push(kp);
                    }
                    x = x + 1;
                }
                y = y + 1;
            }
            proof {
                assert((h - mm - mm) * cw == (h - 2 * mm) * (w - 2 * mm)) by (nonlinear_arith)
                    requires
                        cw == w - 2 * mm,
                ;
            }
        } else {
            proof {
                assert(w <= 2 * mm || h <= 2 * mm) by (nonlinear_arith)
                    requires
                        mm >= 0x2000_0000 ==> mm * 2 >= 0x4000_0000,
                        w < 0x4000_0000,
                        mm >= 0x2000_0000 || w <= 2 * mm || h <= 2 * mm,
                ;
            }
        }
        if non_maximum_suppression_dist_sq == 0 {
            cands
        } else {
            non_maximum_suppression(&cands, non_maximum_suppression_dist_sq)
        }
    }
}


/// The floor square root (the spec-side mirror of `isqrt`).
pub open spec fn floor_sqrt(n: int) -> int {
    crate::algorithm::floor_sqrt(n)
}

/// The half-width of row `i` of the circular orientation patch of radius 16.
pub open spec fn patch_lim(i: int) -> int {
    floor_sqrt(256 - i * i)
}

/// The plain intensity sum of patch row `i` up to column offset `j`.
pub open spec fn row_sum_upto(s: Seq<u8>, w: int, x: int, y: int, i: int, j: int) -> int
    decreases j + 17,
{
    if j < -patch_lim(i) || j < -16 {
        0
    } else {
        row_sum_upto(s, w, x, y, i, j - 1) + gray_at(s, w, x + j, y + i)
    }
}

/// The column-weighted intensity sum of patch row `i` up to column offset `j`.
pub open spec fn row_wsum_upto(s: Seq<u8>, w: int, x: int, y: int, i: int, j: int) -> int
    decreases j + 17,
{
    if j < -patch_lim(i) || j < -16 {
        0
    } else {
        row_wsum_upto(s, w, x, y, i, j - 1) + j * gray_at(s, w, x + j, y + i)
    }
}

/// The first intensity-centroid moment over patch rows up to `i`:
/// the sum of column offsets weighted by intensity.
pub open spec fn moment_x_upto(s: Seq<u8>, w: int, x: int, y: int, i: int) -> int
    decreases i + 17,
{
    if i < -16 {
        0
    } else {
        moment_x_upto(s, w, x, y, i - 1) + row_wsum_upto(s, w, x, y, i, patch_lim(i))
    }
}

/// The second intensity-centroid moment: row offsets weighted by row sums.
pub open spec fn moment_y_upto(s: Seq<u8>, w: int, x: int, y: int, i: int) -> int
    decreases i + 17,
{
    if i < -16 {
        0
    } else {
        moment_y_upto(s, w, x, y, i - 1) + i * row_sum_upto(s, w, x, y, i, patch_lim(i))
    }
}

/// The intensity-centroid moments of the circular patch around (`x`, `y`).
pub open spec fn patch_moments(s: Seq<u8>, w: int, x: int, y: int) -> (int, int) {
    (moment_x_upto(s, w, x, y, 16), moment_y_upto(s, w, x, y, 16))
}

/// The unit direction (in Q14) of the moment vector; the zero angle when the
/// vector vanishes.
pub open spec fn direction_of(mx: int, my: int) -> Rotation {
    let r = floor_sqrt(mx * mx + my * my);
    if r == 0 {
        Rotation { c: 16384, s: 0 }
    } else {
        Rotation {
            c: crate::arith::div_trunc(16384 * mx, r) as i32,
            s: crate::arith::div_trunc(16384 * my, r) as i32,
        }
    }
}

/// The linear congruential stream the descriptor sampling pattern is drawn
/// from.
pub open spec fn lcg(n: int) -> int
    decreases n,
{
    if n <= 0 {
        0x9E3779B9
    } else {
        (lcg(n - 1) * 1664525 + 1013904223) % 0x1_0000_0000
    }
}

/// Component `j` (of four) of descriptor pair `k`: a fixed pseudo-random
/// offset in -13..=13.
pub open spec fn brief_off(k: int, j: int) -> int {
    (lcg(4 * k + 1 + j) / 16) % 27 - 13
}

/// Whether descriptor bit `k` is set around (`x`, `y`) under rotation `rot`:
/// both sampling offsets are rotated (each from the original, unrotated pair)
/// and the bit records whether the first sample is strictly darker.
pub open spec fn brief_bit(s: Seq<u8>, w: int, x: int, y: int, k: int, rot: Rotation) -> bool {
    let x0 = brief_off(k, 0);
    let y0 = brief_off(k, 1);
    let x1 = brief_off(k, 2);
    let y1 = brief_off(k, 3);
    let rx0 = crate::arith::div_trunc(x0 * rot.c - y0 * rot.s, 16384);
    let ry0 = crate::arith::div_trunc(y0 * rot.c + x0 * rot.s, 16384);
    let rx1 = crate::arith::div_trunc(x1 * rot.c - y1 * rot.s, 16384);
    let ry1 = crate::arith::div_trunc(y1 * rot.c + x1 * rot.s, 16384);
    gray_at(s, w, x + rx0, y + ry0) < gray_at(s, w, x + rx1, y + ry1)
}

/// The low `j` bits of descriptor byte `i` around (`x`, `y`).
pub open spec fn brief_byte_upto(s: Seq<u8>, w: int, x: int, y: int, i: int, rot: Rotation,
    j: int) -> int
    decreases j,
{
    if j <= 0 {
        0
    } else {
        brief_byte_upto(s, w, x, y, i, rot, j - 1) + (if brief_bit(s, w, x, y, 8 * i + (j - 1),
            rot) {
            vstd::arithmetic::power2::pow2((j - 1) as nat) as int
        } else {
            0
        })
    }
}

/// Descriptor byte `i` around (`x`, `y`) under rotation `rot`: 8 comparison
/// bits, least significant first.
pub open spec fn brief_byte(s: Seq<u8>, w: int, x: int, y: int, i: int, rot: Rotation) -> int {
    brief_byte_upto(s, w, x, y, i, rot, 8)
}

/// A partial descriptor byte stays below the next power of two.
proof fn lemma_brief_byte_upto_bound(s: Seq<u8>, w: int, x: int, y: int, i: int,
    rot: Rotation, j: int)
    requires
        0 <= j <= 8,
    ensures
        0 <= brief_byte_upto(s, w, x, y, i, rot, j) < vstd::arithmetic::power2::pow2(
            j as nat),
    decreases j,
{
    vstd::arithmetic::power2::lemma2_to64();
    if j > 0 {
        lemma_brief_byte_upto_bound(s, w, x, y, i, rot, j - 1);
        vstd::arithmetic::power2::lemma_pow2_unfold(j as nat);
    }
}

/// Builds the 512 descriptor sampling pairs (x0, y0, x1, y1), each component
/// a fixed pseudo-random offset in -13..=13.
pub fn brief_offsets() -> (r: Vec<(i32, i32, i32, i32)>)
    ensures
        r@.len() == 512,
        forall|k: int| 0 <= k < 512 ==> #[trigger] r@[k] == (brief_off(k, 0) as i32,
            brief_off(k, 1) as i32, brief_off(k, 2) as i32, brief_off(k, 3) as i32),
{
    let mut r: Vec<(i32, i32, i32, i32)> = Vec::new();
    let mut state: u64 = 0x9E3779B9;
    let mut k: usize = 0;
    while k < 512
        invariant
            k <= 512,
            r@.len() == k,
            state == lcg(4 * k),
            state < 0x1_0000_0000,
            forall|q: int| 0 <= q < k ==> #[trigger] r@[q] == (brief_off(q, 0) as i32,
                brief_off(q, 1) as i32, brief_off(q, 2) as i32, brief_off(q, 3) as i32),
        decreases 512 - k,
    {
        let mut vals: [i32; 4] = [0; 4];
        let mut j: usize = 0;
        while j < 4
            invariant
                k < 512,
                j <= 4,
                state < 0x1_0000_0000,
                state == lcg(4 * k + j),
                forall|q: int| 0 <= q < j ==> vals@[q] == brief_off(k as int, q),
            decreases 4 - j,
        {
            state = (state * 1664525 + 1013904223) % 0x1_0000_0000;
            proof {
                assert(4 * k + j + 1 == 4 * k + (j + 1));
            }
            let v: i32 = (((state / 16) % 27) as i32) - 13;
            vals[j] = v;
            j = j + 1;
        }
        r.push((vals[0], vals[1], vals[2], vals[3]));
        proof {
            assert(4 * (k + 1) == 4 * k + 4);
        }
        k = k + 1;
    }
    r
}

impl<T: ImageData> Image<T> {
    /// Computes a keypoint's orientation from the intensity-centroid moments
    /// of the circular patch of radius 16 around it, storing the moment
    /// vector's exact unit direction.
    pub fn compute_angle(&self, kp: &mut KeyPoint)
        requires
            self.wf(),
            self.channels == 1,
            16 <= old(kp).x,
            old(kp).x + 16 < self.width,
            16 <= old(kp).y,
            old(kp).y + 16 < self.height,
            self.width < 0x4000_0000,
            self.height < 0x4000_0000,
        ensures
            ({
                let m = patch_moments(self.bytes(), self.width as int, old(kp).x as int,
                    old(kp).y as int);
                final(kp).angle == direction_of(m.0, m.1)
            }),
            final(kp).angle.wf(),
            final(kp).x == old(kp).x,
            final(kp).y == old(kp).y,
            final(kp).descriptor == old(kp).descriptor,
            final(kp).octave == old(kp).octave,
            final(kp).score == old(kp).score,
            final(kp).color == old(kp).color,
            final(kp).shape == old(kp).shape,
    {
        let ghost bs = self.bytes();
        let ghost w = self.width as int;
        let x = kp.x;
        let y = kp.y;
        let mut mx: i64 = 0;
        let mut my: i64 = 0;
        let mut irow: usize = 0;
        while irow < 33
            invariant
                self.wf(),
                self.channels == 1,
                bs == self.bytes(),
                w == self.width as int,
                16 <= x,
                x + 16 < self.width,
                16 <= y,
                y + 16 < self.height,
                self.width < 0x4000_0000,
                self.height < 0x4000_0000,
                irow <= 33,
                mx == moment_x_upto(bs, w, x as int, y as int, irow - 17),
                my == moment_y_upto(bs, w, x as int, y as int, irow - 17),
                -135000 * irow <= mx <= 135000 * irow,
                -135000 * irow <= my <= 135000 * irow,
            decreases 33 - irow,
        {
            let ghost ii = irow as int - 16;
            let d: i64 = (irow as i64) - 16;
            proof {
                assert(0 <= d * d <= 256) by (nonlinear_arith)
                    requires
                        -16 <= d <= 16,
                ;
            }
            let sq: u64 = (d * d) as u64;
            let lim = crate::arith::isqrt(256 - sq);
            proof {
                crate::algorithm::lemma_floor_sqrt((256 - sq) as int, lim as int);
                assert(lim <= 16) by (nonlinear_arith)
                    requires
                        lim * lim <= 256,
                        lim >= 0,
                ;
            }
            let mut rsum: i64 = 0;
            let mut wsum: i64 = 0;
            let mut jcol: usize = 0;
            let width2 = 2 * (lim as usize) + 1;
            while jcol < width2
                invariant
                    self.wf(),
                    self.channels == 1,
                    bs == self.bytes(),
                    w == self.width as int,
                    16 <= x,
                    x + 16 < self.width,
                    16 <= y,
                    y + 16 < self.height,
                    self.width < 0x4000_0000,
                    self.height < 0x4000_0000,
                    irow < 33,
                    ii == irow as int - 16,
                    lim == patch_lim(ii),
                    0 <= lim <= 16,
                    width2 == 2 * lim + 1,
                    jcol <= width2,
                    rsum == row_sum_upto(bs, w, x as int, y as int, ii, jcol - lim - 1),
                    wsum == row_wsum_upto(bs, w, x as int, y as int, ii, jcol - lim - 1),
                    0 <= rsum <= 255 * jcol,
                    -4080 * jcol <= wsum <= 4080 * jcol,
                decreases width2 - jcol,
            {
                let ghost jj = jcol as int - lim as int;
                let sx = ((x as i64) + (jcol as i64) - (lim as i64)) as usize;
                let sy = ((y as i64) + (irow as i64) - 16) as usize;
                let p = self.gray_sample(sx, sy) as i64;
                let jrel: i64 = (jcol as i64) - (lim as i64);
                proof {
                    assert(-4080 <= jrel * p <= 4080) by (nonlinear_arith)
                        requires
                            -16 <= jrel <= 16,
                            0 <= p <= 255,
                    ;
                }
                rsum = rsum + p;
                wsum = wsum + jrel * p;
                jcol = jcol + 1;
            }
            proof {
                assert(jcol - lim - 1 == lim as int);
                assert(-135000 <= wsum <= 135000 && 0 <= rsum <= 8415);
                assert(-135000 <= (ii) * rsum <= 135000) by (nonlinear_arith)
                    requires
                        -16 <= ii <= 16,
                        0 <= rsum <= 8415,
                ;
            }
            mx = mx + wsum;
            my = my + ((irow as i64) - 16) * rsum;
            irow = irow + 1;
        }
        // The moment vector's length, and the direction scaled to Q14.
        proof {
            assert(0 <= mx * mx <= 0x1_0000_0000_0000 && 0 <= my * my <= 0x1_0000_0000_0000)
                by (nonlinear_arith)
                requires
                    -4455000 <= mx <= 4455000,
                    -4455000 <= my <= 4455000,
            ;
        }
        let m2: u64 = ((mx * mx) + (my * my)) as u64;
        let rr = crate::arith::isqrt(m2);
        proof {
            crate::algorithm::lemma_floor_sqrt(m2 as int, rr as int);
        }
        if rr == 0 {
            kp.angle = Rotation { c: 16384, s: 0 };
        } else {
            proof {
                assert(-(rr as int) <= mx <= rr && -(rr as int) <= my <= rr)
                    by (nonlinear_arith)
                    requires
                        rr * rr <= m2,
                        m2 < (rr + 1) * (rr + 1),
                        m2 == mx * mx + my * my,
                        rr >= 0,
                ;
                assert(-16384 * (rr as int) <= 16384 * mx <= 16384 * (rr as int)
                    && -16384 * (rr as int) <= 16384 * my <= 16384 * (rr as int))
                    by (nonlinear_arith)
                    requires
                        -(rr as int) <= mx <= rr,
                        -(rr as int) <= my <= rr,
                ;
                vstd::arithmetic::div_mod::lemma_div_is_ordered(16384 * mx, 16384 * (rr as int),
                    rr as int);
                vstd::arithmetic::div_mod::lemma_div_is_ordered(-(16384 * mx),
                    16384 * (rr as int), rr as int);
                vstd::arithmetic::div_mod::lemma_div_is_ordered(16384 * my, 16384 * (rr as int),
                    rr as int);
                vstd::arithmetic::div_mod::lemma_div_is_ordered(-(16384 * my),
                    16384 * (rr as int), rr as int);
                assert(16384 * (rr as int) == (rr as int) * 16384) by (nonlinear_arith);
                vstd::arithmetic::div_mod::lemma_div_by_multiple(16384, rr as int);
                if mx >= 0 {
                    vstd::arithmetic::div_mod::lemma_div_pos_is_pos(16384 * mx, rr as int);
                } else {
                    vstd::arithmetic::div_mod::lemma_div_pos_is_pos(-(16384 * mx), rr as int);
                }
                if my >= 0 {
                    vstd::arithmetic::div_mod::lemma_div_pos_is_pos(16384 * my, rr as int);
                } else {
                    vstd::arithmetic::div_mod::lemma_div_pos_is_pos(-(16384 * my), rr as int);
                }
            }
            let nx: i64 = 16384 * mx;
            let ny: i64 = 16384 * my;
            let c64: i64 = if nx >= 0 { nx / (rr as i64) } else { -((-nx) / (rr as i64)) };
            let s64: i64 = if ny >= 0 { ny / (rr as i64) } else { -((-ny) / (rr as i64)) };
            kp.angle = Rotation { c: c64 as i32, s: s64 as i32 };
        }
    }

    /// The 64 descriptor bytes sampled around (`x`, `y`) under rotation `rot`.
    fn descriptor_bytes(&self, x: usize, y: usize, rot: Rotation,
        offsets: &Vec<(i32, i32, i32, i32)>) -> (r: [u8; 64])
        requires
            self.wf(),
            self.channels == 1,
            26 <= x,
            x + 26 < self.width,
            26 <= y,
            y + 26 < self.height,
            self.width < 0x4000_0000,
            self.height < 0x4000_0000,
            rot.wf(),
            offsets@.len() == 512,
            forall|k: int| 0 <= k < 512 ==> #[trigger] offsets@[k] == (brief_off(k, 0) as i32,
                brief_off(k, 1) as i32, brief_off(k, 2) as i32, brief_off(k, 3) as i32),
        ensures
            forall|i: int| 0 <= i < 64 ==> r@[i] == brief_byte(self.bytes(),
                self.width as int, x as int, y as int, i, rot),
    {
        let ghost bs = self.bytes();
        let ghost w = self.width as int;
        let mut res: [u8; 64] = [0; 64];
        let mut i: usize = 0;
        while i < 64
            invariant
                self.wf(),
                self.channels == 1,
                bs == self.bytes(),
                w == self.width as int,
                26 <= x,
                x + 26 < self.width,
                26 <= y,
                y + 26 < self.height,
                self.width < 0x4000_0000,
                self.height < 0x4000_0000,
                rot.wf(),
                offsets@.len() == 512,
                forall|k: int| 0 <= k < 512 ==> #[trigger] offsets@[k] == (
                    brief_off(k, 0) as i32, brief_off(k, 1) as i32, brief_off(k, 2) as i32,
                    brief_off(k, 3) as i32),
                i <= 64,
                res@.len() == 64,
                forall|q: int| 0 <= q < i ==> res@[q] == brief_byte(bs, w, x as int, y as int,
                    q, rot),
            decreases 64 - i,
        {
            let mut b: u8 = 0;
            let mut mul: u8 = 1;
            let mut j: usize = 0;
            proof {
                vstd::arithmetic::power2::lemma2_to64();
            }
            while j < 8
                invariant
                    self.wf(),
                    self.channels == 1,
                    bs == self.bytes(),
                    w == self.width as int,
                    26 <= x,
                    x + 26 < self.width,
                    26 <= y,
                    y + 26 < self.height,
                    self.width < 0x4000_0000,
                    self.height < 0x4000_0000,
                    rot.wf(),
                    offsets@.len() == 512,
                    forall|k: int| 0 <= k < 512 ==> #[trigger] offsets@[k] == (
                        brief_off(k, 0) as i32, brief_off(k, 1) as i32,
                        brief_off(k, 2) as i32, brief_off(k, 3) as i32),
                    i < 64,
                    j <= 8,
                    b == brief_byte_upto(bs, w, x as int, y as int, i as int, rot, j as int),
                    mul as int == vstd::arithmetic::power2::pow2(j as nat) || j == 8,
                decreases 8 - j,
            {
                let k = 8 * i + j;
                let (x0, y0, x1, y1) = offsets[k];
                proof {
                    assert((lcg(4 * (8 * (i as int) + j) + 1) / 16) % 27 - 13 >= -13
                        && (lcg(4 * (8 * (i as int) + j) + 1) / 16) % 27 - 13 <= 13) by {
                        vstd::arithmetic::div_mod::lemma_mod_bound(
                            lcg(4 * (8 * (i as int) + j) + 1) / 16, 27);
                    }
                    lemma_brief_off_range(8 * (i as int) + j);
                }
                let (rx0, ry0) = rot.rotate(x0 as i64, y0 as i64);
                let (rx1, ry1) = rot.rotate(x1 as i64, y1 as i64);
                let p0 = self.gray_sample(((x as i64) + rx0) as usize,
                    ((y as i64) + ry0) as usize);
                let p1 = self.gray_sample(((x as i64) + rx1) as usize,
                    ((y as i64) + ry1) as usize);
                proof {
                    lemma_brief_byte_upto_bound(bs, w, x as int, y as int, i as int, rot,
                        j as int);
                    vstd::arithmetic::power2::lemma2_to64();
                    vstd::arithmetic::power2::lemma_pow2_unfold((j + 1) as nat);
                    assert((p0 < p1) == brief_bit(bs, w, x as int, y as int,
                        8 * (i as int) + j, rot));
                }
                if p0 < p1 {
                    b = b + mul;
                }
                if j < 7 {
                    mul = mul * 2;
                }
                j = j + 1;
            }
            res[i] = b;
            i = i + 1;
        }
        res
    }
}

/// Every descriptor sampling offset lies in -13..=13.
proof fn lemma_brief_off_range(k: int)
    ensures
        -13 <= brief_off(k, 0) <= 13,
        -13 <= brief_off(k, 1) <= 13,
        -13 <= brief_off(k, 2) <= 13,
        -13 <= brief_off(k, 3) <= 13,
{
    vstd::arithmetic::div_mod::lemma_mod_bound(lcg(4 * k + 1) / 16, 27);
    vstd::arithmetic::div_mod::lemma_mod_bound(lcg(4 * k + 2) / 16, 27);
    vstd::arithmetic::div_mod::lemma_mod_bound(lcg(4 * k + 3) / 16, 27);
    vstd::arithmetic::div_mod::lemma_mod_bound(lcg(4 * k + 4) / 16, 27);
}


/// The identity rotation (the zero angle).
pub open spec fn zero_rotation() -> Rotation {
    Rotation { c: 16384, s: 0 }
}

/// The descriptor bytes around (`x`, `y`) under rotation `rot`, as a
/// 64-byte sequence.
pub open spec fn brief_bytes(s: Seq<u8>, w: int, x: int, y: int, rot: Rotation) -> Seq<u8> {
    Seq::new(64, |i: int| brief_byte(s, w, x, y, i, rot) as u8)
}

impl<T: ImageData> Image<T> {
    /// Fills in every keypoint's plain (unrotated) 512-bit BRIEF descriptor,
    /// leaving all other fields alone.
    pub fn brief(&self, keypoints: &mut Vec<KeyPoint>)
        requires
            self.wf(),
            self.channels == 1,
            self.color == ColorSpace::Gray,
            self.width < 0x4000_0000,
            self.height < 0x4000_0000,
            forall|i: int| 0 <= i < old(keypoints)@.len() ==> {
                let kp = #[trigger] old(keypoints)@[i];
                26 <= kp.x && kp.x + 26 < self.width && 26 <= kp.y && kp.y + 26 < self.height
            },
        ensures
            final(keypoints)@.len() == old(keypoints)@.len(),
            forall|i: int| 0 <= i < old(keypoints)@.len() ==> {
                let kp = #[trigger] old(keypoints)@[i];
                final(keypoints)@[i] == KeyPoint {
                    descriptor: Descriptor::BRIEF(final(keypoints)@[i].descriptor->BRIEF_0),
                    ..kp
                } && final(keypoints)@[i].descriptor.bits() == brief_bytes(self.bytes(),
                    self.width as int, kp.x as int, kp.y as int, zero_rotation())
            },
    {
        let ghost bs = self.bytes();
        let ghost w = self.width as int;
        let ghost okps = keypoints@;
        let offs = brief_offsets();
        let n = keypoints.len();
        let mut i: usize = 0;
        while i < n
            invariant
                self.wf(),
                self.channels == 1,
                bs == self.bytes(),
                w == self.width as int,
                self.width < 0x4000_0000,
                self.height < 0x4000_0000,
                okps == old(keypoints)@,
                n == okps.len(),
                i <= n,
                keypoints@.len() == n,
                offs@.len() == 512,
                forall|k: int| 0 <= k < 512 ==> #[trigger] offs@[k] == (
                    brief_off(k, 0) as i32, brief_off(k, 1) as i32, brief_off(k, 2) as i32,
                    brief_off(k, 3) as i32),
                forall|q: int| 0 <= q < okps.len() ==> {
                    let kp = #[trigger] okps[q];
                    26 <= kp.x && kp.x + 26 < self.width && 26 <= kp.y
                        && kp.y + 26 < self.height
                },
                forall|q: int| i <= q < n ==> keypoints@[q] == okps[q],
                forall|q: int| 0 <= q < i ==> {
                    let kp = #[trigger] okps[q];
                    keypoints@[q] == KeyPoint {
                        descriptor: Descriptor::BRIEF(keypoints@[q].descriptor->BRIEF_0),
                        ..kp
                    } && keypoints@[q].descriptor.bits() == brief_bytes(bs, w, kp.x as int,
                        kp.y as int, zero_rotation())
                },
            decreases n - i,
        {
            let mut kp = keypoints[i];
            let bytes = self.descriptor_bytes(kp.x, kp.y, Rotation::identity(), &offs);
            kp.descriptor = Descriptor::BRIEF(bytes);
            proof {
                assert(bytes@ =~= brief_bytes(bs, w, okps[i as int].x as int,
                    okps[i as int].y as int, zero_rotation()));
            }
            keypoints.set(i, kp);
            i = i + 1;
        }
    }

    /// Computes every keypoint's orientation from its patch moments and fills
    /// in its rotated 512-bit BRIEF descriptor, sampled under that
    /// orientation.
    pub fn rotated_brief(&self, keypoints: &mut Vec<KeyPoint>)
        requires
            self.wf(),
            self.channels == 1,
            self.color == ColorSpace::Gray,
            self.width < 0x4000_0000,
            self.height < 0x4000_0000,
            forall|i: int| 0 <= i < old(keypoints)@.len() ==> {
                let kp = #[trigger] old(keypoints)@[i];
                26 <= kp.x && kp.x + 26 < self.width && 26 <= kp.y && kp.y + 26 < self.height
            },
        ensures
            final(keypoints)@.len() == old(keypoints)@.len(),
            forall|i: int| 0 <= i < old(keypoints)@.len() ==> {
                let kp = #[trigger] old(keypoints)@[i];
                let m = patch_moments(self.bytes(), self.width as int, kp.x as int,
                    kp.y as int);
                final(keypoints)@[i] == KeyPoint {
                    descriptor: Descriptor::RBRIEF(final(keypoints)@[i].descriptor->RBRIEF_0),
                    angle: direction_of(m.0, m.1),
                    ..kp
                } && final(keypoints)@[i].descriptor.bits() == brief_bytes(self.bytes(),
                    self.width as int, kp.x as int, kp.y as int, direction_of(m.0, m.1))
            },
    {
        let ghost bs = self.bytes();
        let ghost w = self.width as int;
        let ghost okps = keypoints@;
        let offs = brief_offsets();
        let n = keypoints.len();
        let mut i: usize = 0;
        while i < n
            invariant
                self.wf(),
                self.channels == 1,
                bs == self.bytes(),
                w == self.width as int,
                self.width < 0x4000_0000,
                self.height < 0x4000_0000,
                okps == old(keypoints)@,
                n == okps.len(),
                i <= n,
                keypoints@.len() == n,
                offs@.len() == 512,
                forall|k: int| 0 <= k < 512 ==> #[trigger] offs@[k] == (
                    brief_off(k, 0) as i32, brief_off(k, 1) as i32, brief_off(k, 2) as i32,
                    brief_off(k, 3) as i32),
                forall|q: int| 0 <= q < okps.len() ==> {
                    let kp = #[trigger] okps[q];
                    26 <= kp.x && kp.x + 26 < self.width && 26 <= kp.y
                        && kp.y + 26 < self.height
                },
                forall|q: int| i <= q < n ==> keypoints@[q] == okps[q],
                forall|q: int| 0 <= q < i ==> {
                    let kp = #[trigger] okps[q];
                    let m = patch_moments(bs, w, kp.x as int, kp.y as int);
                    keypoints@[q] == KeyPoint {
                        descriptor: Descriptor::RBRIEF(keypoints@[q].descriptor->RBRIEF_0),
                        angle: direction_of(m.0, m.1),
                        ..kp
                    } && keypoints@[q].descriptor.bits() == brief_bytes(bs, w, kp.x as int,
                        kp.y as int, direction_of(m.0, m.1))
                },
            decreases n - i,
        {
            let mut kp = keypoints[i];
            self.compute_angle(&mut kp);
            let bytes = self.descriptor_bytes(kp.x, kp.y, kp.angle, &offs);
            kp.descriptor = Descriptor::RBRIEF(bytes);
            proof {
                let m = patch_moments(bs, w, okps[i as int].x as int, okps[i as int].y as int);
                assert(bytes@ =~= brief_bytes(bs, w, okps[i as int].x as int,
                    okps[i as int].y as int, direction_of(m.0, m.1)));
            }
            keypoints.set(i, kp);
            i = i + 1;
        }
    }
}


/// The grayscale single-channel byte plane an image normalizes to: gray
/// buffers keep channel 0, RGB buffers take the (requantized) luma, HSL
/// buffers take the lightness channel.
pub open spec fn gray_plane<T: ImageData>(img: Image<T>) -> Seq<u8> {
    match img.color {
        ColorSpace::Gray => Seq::new((img.height * img.width) as nat, |q: int|
            img.data@[q * img.channels].byte()),
        ColorSpace::RGB => Seq::new((img.height * img.width) as nat, |q: int|
            T::requantize(luma_of(rgb3(img.data@, q).0, rgb3(img.data@, q).1,
                rgb3(img.data@, q).2) as u8).byte()),
        ColorSpace::HSL => Seq::new((img.height * img.width) as nat, |q: int|
            img.data@[3 * q + 2].byte()),
    }
}

/// The value a window sees in an integer plane at (`x`, `y`): the stored
/// value inside the plane, the edge-clamped value outside (repeat padding).
pub open spec fn plane_at(p: Seq<i64>, w: int, h: int, x: int, y: int) -> int {
    let cx = crate::algorithm::clampi(x, 0, w - 1);
    let cy = crate::algorithm::clampi(y, 0, h - 1);
    p[w * cy + cx] as int
}

/// The first `k` terms of a kernel-weighted window sum over an integer plane.
pub open spec fn plane_conv_upto(p: Seq<i64>, w: int, h: int, kern: Seq<i64>, hw: int,
    hh: int, x: int, y: int, k: int) -> int
    decreases k,
{
    if k <= 0 {
        0
    } else {
        plane_conv_upto(p, w, h, kern, hw, hh, x, y, k - 1) + kern[k - 1] * plane_at(p, w, h,
            x - hw + (k - 1) % (2 * hw + 1), y - hh + (k - 1) / (2 * hw + 1))
    }
}

/// The rounded, normalized kernel response over an integer plane.
pub open spec fn plane_conv(p: Seq<i64>, w: int, h: int, kern: Seq<i64>, hw: int, hh: int,
    divisor: int, x: int, y: int) -> int {
    crate::arith::div_round(plane_conv_upto(p, w, h, kern, hw, hh, x, y, kern.len() as int),
        divisor)
}

/// The horizontal Harris gradient at (`x`, `y`) of a gray plane.
pub open spec fn harris_gx(gs: Seq<u8>, w: int, h: int, x: int, y: int) -> int {
    conv_sum(gs, w, h, 1, sobel_y_kernel(), 1, 1, x, y, 0, crate::algorithm::Padding::Repeat)
}

/// The vertical Harris gradient at (`x`, `y`) of a gray plane.
pub open spec fn harris_gy(gs: Seq<u8>, w: int, h: int, x: int, y: int) -> int {
    conv_sum(gs, w, h, 1, sobel_x_kernel(), 1, 1, x, y, 0, crate::algorithm::Padding::Repeat)
}

/// The three structure-tensor product planes of a gray plane.
pub open spec fn harris_xx_plane(gs: Seq<u8>, w: int, h: int) -> Seq<i64> {
    Seq::new((h * w) as nat, |p: int| (harris_gx(gs, w, h, p % w, p / w) * harris_gx(gs, w, h,
        p % w, p / w)) as i64)
}

pub open spec fn harris_yy_plane(gs: Seq<u8>, w: int, h: int) -> Seq<i64> {
    Seq::new((h * w) as nat, |p: int| (harris_gy(gs, w, h, p % w, p / w) * harris_gy(gs, w, h,
        p % w, p / w)) as i64)
}

pub open spec fn harris_xy_plane(gs: Seq<u8>, w: int, h: int) -> Seq<i64> {
    Seq::new((h * w) as nat, |p: int| (harris_gx(gs, w, h, p % w, p / w) * harris_gy(gs, w, h,
        p % w, p / w)) as i64)
}

/// The Harris response at (`x`, `y`), scaled by 20: each tensor component is
/// Gaussian-blurred (half-window 1, sigma 1, repeat padding), and the
/// response is `20 * det(M) - trace(M)^2` (the standard response with
/// `k = 0.05`, scaled to stay integral).
pub open spec fn harris_response(gs: Seq<u8>, w: int, h: int, x: int, y: int) -> int {
    let kern = gauss_kernel_spec(1, 1, 1);
    let divisor = gauss_divisor_spec(1, 1, 1);
    let bxx = plane_conv(harris_xx_plane(gs, w, h), w, h, kern, 1, 1, divisor, x, y);
    let byy = plane_conv(harris_yy_plane(gs, w, h), w, h, kern, 1, 1, divisor, x, y);
    let bxy = plane_conv(harris_xy_plane(gs, w, h), w, h, kern, 1, 1, divisor, x, y);
    20 * (bxx * byy - bxy * bxy) - (bxx + byy) * (bxx + byy)
}

/// The largest Harris response among the first `k` pixels.
pub open spec fn harris_max_upto(gs: Seq<u8>, w: int, h: int, k: int) -> int
    decreases k,
{
    if k <= 0 {
        0
    } else {
        let m = harris_max_upto(gs, w, h, k - 1);
        let v = harris_response(gs, w, h, (k - 1) % w, (k - 1) / w);
        if v >= m {
            v
        } else {
            m
        }
    }
}

/// The keypoint Harris emits at (`x`, `y`): the score is the grayscale
/// intensity, used only to rank candidates during suppression.
pub open spec fn harris_keypoint(gs: Seq<u8>, w: int, x: int, y: int) -> KeyPoint {
    KeyPoint {
        x: x as usize,
        y: y as usize,
        descriptor: Descriptor::Empty,
        octave: 0,
        score: gray_at(gs, w, x, y) as i32,
        angle: Rotation { c: 16384, s: 0 },
        color: (0, 255, 0),
        shape: KeyPointShape::Cross,
    }
}

/// Whether Harris reports a corner at (`x`, `y`): the response, normalized by
/// the image's largest response, exceeds the threshold (in 0..=255), compared
/// exactly as `255 * response > threshold * max`.
pub open spec fn is_harris_corner(gs: Seq<u8>, w: int, h: int, x: int, y: int,
    thr: int) -> bool {
    let maxr = harris_max_upto(gs, w, h, h * w);
    maxr > 0 && 255 * harris_response(gs, w, h, x, y) > thr * maxr
}

/// The Harris corners of the first `n` pixels, in row-major order.
pub open spec fn harris_candidates_upto(gs: Seq<u8>, w: int, h: int, thr: int,
    n: int) -> Seq<KeyPoint>
    decreases n,
{
    if n <= 0 || w <= 0 {
        Seq::empty()
    } else {
        let x = (n - 1) % w;
        let y = (n - 1) / w;
        harris_candidates_upto(gs, w, h, thr, n - 1) + (if is_harris_corner(gs, w, h, x, y,
            thr) {
            seq![harris_keypoint(gs, w, x, y)]
        } else {
            Seq::empty()
        })
    }
}

/// All Harris corners, in row-major order.
pub open spec fn harris_candidates(gs: Seq<u8>, w: int, h: int, thr: int) -> Seq<KeyPoint> {
    harris_candidates_upto(gs, w, h, thr, h * w)
}

/// One normalized kernel response over an integer plane, rounded to nearest.
fn plane_conv_exec(p: &Vec<i64>, w: usize, h: usize, kern: &Vec<i64>, hw: usize, hh: usize,
    divisor: i64, x: usize, y: usize, Ghost(bound): Ghost<int>) -> (r: i64)
    requires
        p@.len() == h * w,
        h * w <= usize::MAX,
        w >= 1,
        h >= 1,
        x < w,
        y < h,
        w < 0x4000_0000,
        h < 0x4000_0000,
        hw <= 0x1000,
        hh <= 0x1000,
        kern@.len() == (2 * hh + 1) * (2 * hw + 1),
        1 <= divisor < 0x20_0000,
        0 <= sum_abs_i64(kern@) <= divisor,
        0 < bound <= 0x1_0000_0000,
        forall|i: int| 0 <= i < p@.len() ==> -bound <= #[trigger] p@[i] <= bound,
    ensures
        r == plane_conv(p@, w as int, h as int, kern@, hw as int, hh as int, divisor as int,
            x as int, y as int),
        -bound <= r <= bound,
{
    let ghost ps = p@;
    let klen = kern.len();
    let side_w = 2 * hw + 1;
    let mut acc: i64 = 0;
    let mut k: usize = 0;
    while k < klen
        invariant
            ps == p@,
            ps.len() == h * w,
            h * w <= usize::MAX,
            w >= 1,
            h >= 1,
            x < w,
            y < h,
            w < 0x4000_0000,
            h < 0x4000_0000,
            hw <= 0x1000,
            hh <= 0x1000,
            side_w == 2 * hw + 1,
            klen == kern@.len(),
            kern@.len() == (2 * hh + 1) * (2 * hw + 1),
            0 <= sum_abs_i64(kern@) <= divisor,
            divisor < 0x20_0000,
            0 < bound <= 0x1_0000_0000,
            forall|i: int| 0 <= i < ps.len() ==> -bound <= #[trigger] ps[i] <= bound,
            k <= klen,
            acc == plane_conv_upto(ps, w as int, h as int, kern@, hw as int, hh as int,
                x as int, y as int, k as int),
            -(bound * sum_abs_i64(kern@.take(k as int))) <= acc
                <= bound * sum_abs_i64(kern@.take(k as int)),
        decreases klen - k,
    {
        let weight = kern[k];
        let wx = k % side_w;
        let wy = k / side_w;
        proof {
            vstd::arithmetic::div_mod::lemma_mod_bound(k as int, side_w as int);
            vstd::arithmetic::div_mod::lemma_div_pos_is_pos(k as int, side_w as int);
            assert(k as int / (side_w as int) <= (kern@.len() - 1) as int / (side_w as int))
                by {
                vstd::arithmetic::div_mod::lemma_div_is_ordered(k as int,
                    kern@.len() - 1, side_w as int);
            }
            assert(((2 * hh + 1) * (2 * hw + 1) - 1) as int / (side_w as int) == 2 * hh)
                by {
                assert((2 * hh as int + 1) * (2 * hw as int + 1) - 1 == (side_w as int)
                    * (2 * hh as int) + (2 * hw as int)) by (nonlinear_arith)
                    requires
                        side_w == 2 * hw as int + 1,
                ;
                vstd::arithmetic::div_mod::lemma_div_multiples_vanish_fancy(2 * hh as int,
                    2 * hw as int, side_w as int);
            }
        }
        // The clamped source coordinates.
        let tx = x + wx;
        let ty = y + wy;
        let cx = if tx < hw { 0 } else if tx - hw >= w { w - 1 } else { tx - hw };
        let cy = if ty < hh { 0 } else if ty - hh >= h { h - 1 } else { ty - hh };
        proof {
            assert(cx as int == crate::algorithm::clampi(x - hw + wx, 0, w as int - 1));
            assert(cy as int == crate::algorithm::clampi(y - hh + wy, 0, h as int - 1));
            assert(0 <= (w as int) * cy && (w as int) * cy + cx < h * w) by (nonlinear_arith)
                requires
                    0 <= cx < w,
                    0 <= cy < h,
            ;
        }
        let v = p[w * cy + cx];
        proof {
            crate::algorithm::lemma_sum_abs_prefix(kern@, k as int);
            crate::algorithm::lemma_sum_abs_take_le(kern@, k as int + 1);
            crate::algorithm::lemma_sum_abs_nonneg(kern@.take(k as int));
            let sa = sum_abs_i64(kern@.take(k as int));
            let sa1 = sum_abs_i64(kern@.take(k as int + 1));
            let aw: int = if weight >= 0 { weight as int } else { -(weight as int) };
            assert(sa1 == sa + aw);
            assert(-(bound * aw) <= weight * v <= bound * aw && bound * sa1 == bound * sa
                + bound * aw) by (nonlinear_arith)
                requires
                    -bound <= v <= bound,
                    bound > 0,
                    aw == (if weight >= 0 { weight as int } else { -(weight as int) }),
                    sa1 == sa + aw,
            ;
            assert(bound * sa1 <= bound * divisor && bound * divisor
                <= 0x1_0000_0000 * 0x20_0000 && bound * sa >= 0 && bound * aw >= 0
                && bound * aw <= bound * sa1 && bound * sa <= bound * sa1)
                by (nonlinear_arith)
                requires
                    0 <= sa,
                    aw >= 0,
                    sa1 == sa + aw,
                    sa1 <= divisor,
                    0 < bound <= 0x1_0000_0000,
                    divisor < 0x20_0000,
            ;
        }
        acc = acc + weight * v;
        k = k + 1;
    }
    proof {
        crate::algorithm::lemma_sum_abs_take_le(kern@, klen as int);
        assert(kern@.take(klen as int) =~= kern@);
        assert(bound * sum_abs_i64(kern@) <= bound * divisor && bound * divisor
            <= 0x1_0000_0000 * 0x20_0000) by (nonlinear_arith)
            requires
                0 <= sum_abs_i64(kern@) <= divisor,
                0 < bound <= 0x1_0000_0000,
                divisor < 0x20_0000,
        ;
    }
    let r = crate::arith::div_round_exec(acc, divisor);
    proof {
        // |acc| <= bound * divisor, so the rounded quotient stays in the bound.
        if acc >= 0 {
            assert(acc <= bound * divisor);
            crate::arith::lemma_div_round_nn_upper(acc as int, divisor as int, bound);
        } else {
            assert(-acc <= bound * divisor);
            crate::arith::lemma_div_round_nn_upper(-(acc as int), divisor as int, bound);
        }
    }
    r
}


impl<T: ImageData> Image<T> {
    /// The Harris corner detector: the input is normalized to grayscale, the
    /// structure tensor of its Sobel gradients is Gaussian-smoothed, and a
    /// keypoint is emitted at every pixel whose response, normalized by the
    /// image's largest response, exceeds the threshold. Scores carry the
    /// grayscale intensity, for suppression ranking only; suppression over
    /// the given squared radius is applied when it is non-zero.
    pub fn harris_corners(&self, threshold: u8, non_maximum_suppression_dist_sq: u64)
        -> (r: Vec<KeyPoint>)
        requires
            self.wf(),
            self.width < 0x4000_0000,
            self.height < 0x4000_0000,
            self.color != ColorSpace::Gray ==> self.channels == 3,
            self.color == ColorSpace::Gray ==> self.channels >= 1,
        ensures
            ({
                let cands = harris_candidates(gray_plane(*self), self.width as int,
                    self.height as int, threshold as int);
                r@ == if non_maximum_suppression_dist_sq == 0 { cands } else {
                    nms_filter(cands, non_maximum_suppression_dist_sq as int)
                }
            }),
    {
        let ghost w = self.width as int;
        let ghost h = self.height as int;
        let ghost gp = gray_plane(*self);
        if self.width == 0 || self.height == 0 {
            let cands: Vec<KeyPoint> = Vec::new();
            proof {
                assert(h * w == w * h) by (nonlinear_arith);
                assert(harris_candidates(gp, w, h, threshold as int) =~= Seq::empty());
            }
            if non_maximum_suppression_dist_sq == 0 {
                return cands;
            } else {
                let rr = non_maximum_suppression(&cands, non_maximum_suppression_dist_sq);
                proof {
                    reveal(Seq::filter);
                }
                return rr;
            }
        }
        // Normalize to a single-channel grayscale buffer.
        let mut mid = Image {
            height: self.height,
            width: self.width,
            channels: self.channels,
            color: self.color,
            data: self.snapshot_data(),
        };
        proof {
            assert(mid.bytes() =~= self.bytes());
        }
        mid.grayscale();
        let g = mid.to_single_channel();
        proof {
            assert(g.bytes().len() == gp.len());
            assert forall|q: int| 0 <= q < h * w implies g.bytes()[q] == gp[q] by {
                assert(q * 1 == q) by (nonlinear_arith);
                if self.color == ColorSpace::Gray {
                    assert(g.data@[q] == self.data@[q * self.channels]);
                } else if self.color == ColorSpace::RGB {
                    assert(g.data@[q] == mid.data@[q * 3]);
                    assert(mid.data@[3 * q] == T::requantize(luma_of(rgb3(self.data@, q).0,
                        rgb3(self.data@, q).1, rgb3(self.data@, q).2) as u8));
                    assert(q * 3 == 3 * q) by (nonlinear_arith);
                } else {
                    assert(g.data@[q] == mid.data@[q * 1]);
                    assert(mid.data@[q] == self.data@[3 * q + 2]);
                }
            }
            assert(g.bytes() =~= gp);
        }
        // The three structure-tensor product planes.
        let mut kxk: Vec<i64> = Vec::new();
        push_weight(&mut kxk, 1); push_weight(&mut kxk, 0); push_weight(&mut kxk, -1);
        push_weight(&mut kxk, 2); push_weight(&mut kxk, 0); push_weight(&mut kxk, -2);
        push_weight(&mut kxk, 1); push_weight(&mut kxk, 0); push_weight(&mut kxk, -1);
        let mut kyk: Vec<i64> = Vec::new();
        push_weight(&mut kyk, 1); push_weight(&mut kyk, 2); push_weight(&mut kyk, 1);
        push_weight(&mut kyk, 0); push_weight(&mut kyk, 0); push_weight(&mut kyk, 0);
        push_weight(&mut kyk, -1); push_weight(&mut kyk, -2); push_weight(&mut kyk, -1);
        proof {
            assert(kxk@ =~= sobel_y_kernel());
            assert(kyk@ =~= sobel_x_kernel());
            assert(sum_abs_i64(kxk@) == 8 && sum_abs_i64(kyk@) == 8);
        }
        let mut xx: Vec<i64> = Vec::new();
        let mut yy: Vec<i64> = Vec::new();
        let mut xy: Vec<i64> = Vec::new();
        let mut y: usize = 0;
        while y < self.height
            invariant
                g.wf(),
                g.channels == 1,
                g.color == ColorSpace::Gray,
                g.height == self.height,
                g.width == self.width,
                g.bytes() == gp,
                w == self.width as int,
                h == self.height as int,
                1 <= self.width < 0x4000_0000,
                1 <= self.height < 0x4000_0000,
                kxk@ == sobel_y_kernel(),
                kyk@ == sobel_x_kernel(),
                sum_abs_i64(sobel_y_kernel()) == 8,
                sum_abs_i64(sobel_x_kernel()) == 8,
                y <= self.height,
                xx@.len() == y * self.width,
                yy@.len() == y * self.width,
                xy@.len() == y * self.width,
                y * self.width <= h * w,
                forall|p: int| 0 <= p < xx@.len() ==> #[trigger] xx@[p]
                    == harris_xx_plane(gp, w, h)[p] && -4161600 <= xx@[p] <= 4161600,
                forall|p: int| 0 <= p < yy@.len() ==> #[trigger] yy@[p]
                    == harris_yy_plane(gp, w, h)[p] && -4161600 <= yy@[p] <= 4161600,
                forall|p: int| 0 <= p < xy@.len() ==> #[trigger] xy@[p]
                    == harris_xy_plane(gp, w, h)[p] && -4161600 <= xy@[p] <= 4161600,
            decreases self.height - y,
        {
            proof {
                assert((y + 1) * self.width == y * self.width + self.width)
                    by (nonlinear_arith);
                assert((y + 1) * self.width <= h * w) by (nonlinear_arith)
                    requires
                        y + 1 <= h,
                        w >= 0,
                        h >= 0,
                        w == self.width,
                ;
            }
            let mut x: usize = 0;
            while x < self.width
                invariant
                    g.wf(),
                    g.channels == 1,
                    g.color == ColorSpace::Gray,
                    g.height == self.height,
                    g.width == self.width,
                    g.bytes() == gp,
                    w == self.width as int,
                    h == self.height as int,
                    1 <= self.width < 0x4000_0000,
                    1 <= self.height < 0x4000_0000,
                    kxk@ == sobel_y_kernel(),
                    kyk@ == sobel_x_kernel(),
                    sum_abs_i64(sobel_y_kernel()) == 8,
                    sum_abs_i64(sobel_x_kernel()) == 8,
                    y < self.height,
                    x <= self.width,
                    xx@.len() == y * self.width + x,
                    yy@.len() == y * self.width + x,
                    xy@.len() == y * self.width + x,
                    y * self.width + self.width <= h * w,
                    forall|p: int| 0 <= p < xx@.len() ==> #[trigger] xx@[p]
                        == harris_xx_plane(gp, w, h)[p] && -4161600 <= xx@[p] <= 4161600,
                    forall|p: int| 0 <= p < yy@.len() ==> #[trigger] yy@[p]
                        == harris_yy_plane(gp, w, h)[p] && -4161600 <= yy@[p] <= 4161600,
                    forall|p: int| 0 <= p < xy@.len() ==> #[trigger] xy@[p]
                        == harris_xy_plane(gp, w, h)[p] && -4161600 <= xy@[p] <= 4161600,
                decreases self.width - x,
            {
                let wb = g.sliding_window(x, y, 1, 1, 0, crate::algorithm::Padding::Repeat);
                proof {
                    assert((2usize * 1 + 1) * (2usize * 1 + 1) == 9) by (nonlinear_arith);
                }
                let gx = g.sobel_response(&wb, &kxk, Ghost(sobel_y_kernel()),
                    Ghost(x as int), Ghost(y as int));
                let gy = g.sobel_response(&wb, &kyk, Ghost(sobel_x_kernel()),
                    Ghost(x as int), Ghost(y as int));
                proof {
                    assert(-4161600 <= gx * gx <= 4161600 && -4161600 <= gy * gy <= 4161600
                        && -4161600 <= gx * gy <= 4161600) by (nonlinear_arith)
                        requires
                            -2040 <= gx <= 2040,
                            -2040 <= gy <= 2040,
                    ;
                    crate::arith::lemma_decompose(y * self.width + x, w, y as int, x as int);
                    assert(0 <= y * (w as int) + x < h * w) by (nonlinear_arith)
                        requires
                            0 <= x < w,
                            0 <= y < h,
                    ;
                }
                xx.push(gx * gx);
                yy.push(gy * gy);
                xy.push(gx * gy);
                x = x + 1;
            }
            y = y + 1;
        }
        proof {
            assert(xx@.len() == h * w) by (nonlinear_arith)
                requires
                    xx@.len() == (h as int) * (w as int),
            ;
        }
        proof {
            assert(xx@ =~= harris_xx_plane(gp, w, h));
            assert(yy@ =~= harris_yy_plane(gp, w, h));
            assert(xy@ =~= harris_xy_plane(gp, w, h));
        }
        // Smooth each tensor component and form the response plane.
        let (gk, gdiv) = gaussian_kernel(1, 1, 1);
        let npix = xx.len();
        let mut resp: Vec<i64> = Vec::new();
        let mut p: usize = 0;
        while p < npix
            invariant
                w == self.width as int,
                h == self.height as int,
                1 <= self.width < 0x4000_0000,
                1 <= self.height < 0x4000_0000,
                npix == xx@.len(),
                xx@.len() == h * w,
                yy@.len() == h * w,
                xy@.len() == h * w,
                h * w <= usize::MAX,
                gk@ == gauss_kernel_spec(1, 1, 1),
                gdiv == gauss_divisor_spec(1, 1, 1),
                gk@.len() == 9,
                1 <= gdiv < 0x20_0000,
                sum_abs_i64(gk@) == gdiv,
                xx@ == harris_xx_plane(gp, w, h),
                yy@ == harris_yy_plane(gp, w, h),
                xy@ == harris_xy_plane(gp, w, h),
                forall|q: int| 0 <= q < xx@.len() ==> -4161600 <= #[trigger] xx@[q] <= 4161600,
                forall|q: int| 0 <= q < yy@.len() ==> -4161600 <= #[trigger] yy@[q] <= 4161600,
                forall|q: int| 0 <= q < xy@.len() ==> -4161600 <= #[trigger] xy@[q] <= 4161600,
                p <= npix,
                resp@.len() == p,
                forall|q: int| 0 <= q < p ==> #[trigger] resp@[q] == harris_response(gp, w, h,
                    q % w, q / w) && -770000000000000 <= resp@[q] <= 770000000000000,
            decreases npix - p,
        {
            let x = p % self.width;
            let y = p / self.width;
            proof {
                vstd::arithmetic::div_mod::lemma_mod_bound(p as int, w);
                vstd::arithmetic::div_mod::lemma_div_pos_is_pos(p as int, w);
                assert(p as int / w <= (h * w - 1) as int / w) by {
                    vstd::arithmetic::div_mod::lemma_div_is_ordered(p as int, h * w - 1, w);
                }
                assert((h * w - 1) as int / w == h - 1) by {
                    assert(h * w - 1 == w * (h - 1) + (w - 1)) by (nonlinear_arith);
                    vstd::arithmetic::div_mod::lemma_div_multiples_vanish_fancy(h - 1, w - 1,
                        w);
                }
            }
            let bxx = plane_conv_exec(&xx, self.width, self.height, &gk, 1, 1, gdiv, x, y,
                Ghost(4161600));
            let byy = plane_conv_exec(&yy, self.width, self.height, &gk, 1, 1, gdiv, x, y,
                Ghost(4161600));
            let bxy = plane_conv_exec(&xy, self.width, self.height, &gk, 1, 1, gdiv, x, y,
                Ghost(4161600));
            proof {
                assert(-17318916960000 <= bxx * byy <= 17318916960000 && -17318916960000
                    <= bxy * bxy <= 17318916960000 && -69275667840000 <= (bxx + byy)
                    * (bxx + byy) <= 69275667840000) by (nonlinear_arith)
                    requires
                        -4161600 <= bxx <= 4161600,
                        -4161600 <= byy <= 4161600,
                        -4161600 <= bxy <= 4161600,
                ;
            }
            let rv: i64 = 20 * (bxx * byy - bxy * bxy) - (bxx + byy) * (bxx + byy);
            resp.push(rv);
            p = p + 1;
        }
        // The largest response.
        let mut maxr: i64 = 0;
        let mut k: usize = 0;
        while k < npix
            invariant
                w == self.width as int,
                h == self.height as int,
                npix == resp@.len(),
                resp@.len() == h * w,
                forall|q: int| 0 <= q < resp@.len() ==> #[trigger] resp@[q]
                    == harris_response(gp, w, h, q % w, q / w)
                    && -770000000000000 <= resp@[q] <= 770000000000000,
                k <= npix,
                maxr == harris_max_upto(gp, w, h, k as int),
                0 <= maxr <= 770000000000000,
            decreases npix - k,
        {
            let v = resp[k];
            if v > maxr {
                maxr = v;
            }
            k = k + 1;
        }
        // Emit a keypoint wherever the normalized response clears the
        // threshold.
        let mut cands: Vec<KeyPoint> = Vec::new();
        let mut y: usize = 0;
        while y < self.height
            invariant
                g.wf(),
                g.channels == 1,
                g.height == self.height,
                g.width == self.width,
                g.bytes() == gp,
                w == self.width as int,
                h == self.height as int,
                1 <= self.width < 0x4000_0000,
                1 <= self.height < 0x4000_0000,
                npix == resp@.len(),
                resp@.len() == h * w,
                forall|q: int| 0 <= q < resp@.len() ==> #[trigger] resp@[q]
                    == harris_response(gp, w, h, q % w, q / w)
                    && -770000000000000 <= resp@[q] <= 770000000000000,
                maxr == harris_max_upto(gp, w, h, h * w),
                0 <= maxr <= 770000000000000,
                y <= self.height,
                cands@ == harris_candidates_upto(gp, w, h, threshold as int,
                    y * self.width),
                y * self.width <= h * w,
                forall|i: int| 0 <= i < cands@.len()
                    ==> (#[trigger] cands@[i].x) < 0x4000_0000 && cands@[i].y < 0x4000_0000,
            decreases self.height - y,
        {
            proof {
                assert((y + 1) * self.width == y * self.width + self.width)
                    by (nonlinear_arith);
                assert((y + 1) * self.width <= h * w) by (nonlinear_arith)
                    requires
                        y + 1 <= h,
                        w >= 0,
                        h >= 0,
                        w == self.width,
                ;
            }
            let mut x: usize = 0;
            while x < self.width
                invariant
                    g.wf(),
                    g.channels == 1,
                    g.height == self.height,
                    g.width == self.width,
                    g.bytes() == gp,
                    w == self.width as int,
                    h == self.height as int,
                    1 <= self.width < 0x4000_0000,
                    1 <= self.height < 0x4000_0000,
                    npix == resp@.len(),
                    resp@.len() == h * w,
                    forall|q: int| 0 <= q < resp@.len() ==> #[trigger] resp@[q]
                        == harris_response(gp, w, h, q % w, q / w)
                        && -770000000000000 <= resp@[q] <= 770000000000000,
                    maxr == harris_max_upto(gp, w, h, h * w),
                    0 <= maxr <= 770000000000000,
                    y < self.height,
                    x <= self.width,
                    cands@ == harris_candidates_upto(gp, w, h, threshold as int,
                        y * self.width + x),
                    y * self.width + self.width <= h * w,
                    forall|i: int| 0 <= i < cands@.len()
                        ==> (#[trigger] cands@[i].x) < 0x4000_0000
                            && cands@[i].y < 0x4000_0000,
                decreases self.width - x,
            {
                let p = y * self.width + x;
                proof {
                    crate::arith::lemma_decompose(p as int, w, y as int, x as int);
                    assert(0 <= y * (w as int) + x < h * w) by (nonlinear_arith)
                        requires
                            0 <= x < w,
                            0 <= y < h,
                    ;
                }
                let rv = resp[p];
                proof {
                    assert(0 <= (threshold as int) * maxr <= 255 * 770000000000000)
                        by (nonlinear_arith)
                        requires
                            0 <= threshold <= 255,
                            0 <= maxr <= 770000000000000,
                    ;
                }
                let accept = maxr > 0 && 255 * rv > (threshold as i64) * maxr;
                proof {
                    assert(accept == is_harris_corner(gp, w, h, x as int, y as int,
                        threshold as int));
                }
                if accept {
                    let score = g.gray_sample(x, y) as i32;
                    let mut kp = KeyPoint::new(x, y, (0, 255, 0), KeyPointShape::Cross);
                    kp.score = score;
                    proof {
                        assert(kp == harris_keypoint(gp, w, x as int, y as int));
                    }
                    cands.push(kp);
                }
                x = x + 1;
            }
            y = y + 1;
        }
        proof {
            assert(cands@ == harris_candidates(gp, w, h, threshold as int));
        }
        if non_maximum_suppression_dist_sq == 0 {
            cands
        } else {
            non_maximum_suppression(&cands, non_maximum_suppression_dist_sq)
        }
    }
}


/// A gray plane Gaussian-smoothed in the given sample encoding: each output
/// byte is the stored (requantized) smoothed sample.
pub open spec fn blur_plane<T: ImageData>(s: Seq<u8>, w: int, h: int) -> Seq<u8> {
    Seq::new((h * w) as nat, |p: int| T::requantize(crate::algorithm::conv_value(s, w, h, 1,
        gauss_kernel_spec(1, 1, 1), 1, 1, gauss_divisor_spec(1, 1, 1), p % w, p / w, 0,
        crate::algorithm::Padding::Repeat) as u8).byte())
}

/// A gray plane downsampled by half in each dimension, nearest-neighbor.
pub open spec fn downsample_plane(s: Seq<u8>, w: int, h: int) -> Seq<u8> {
    Seq::new(((h / 2) * (w / 2)) as nat, |p: int| s[w * (2 * (p / (w / 2)))
        + 2 * (p % (w / 2))])
}

/// Pyramid level `lvl` of the ORB pipeline: the smoothed base at level 0,
/// then half-resolution downsampling and smoothing per level; the plane's
/// bytes, width and height.
pub open spec fn orb_level_plane<T: ImageData>(base: Seq<u8>, w0: int, h0: int,
    lvl: int) -> (Seq<u8>, int, int)
    decreases lvl,
{
    if lvl <= 0 {
        (blur_plane::<T>(base, w0, h0), w0, h0)
    } else {
        let prev = orb_level_plane::<T>(base, w0, h0, lvl - 1);
        (blur_plane::<T>(downsample_plane(prev.0, prev.1, prev.2), prev.1 / 2, prev.2 / 2),
            prev.1 / 2, prev.2 / 2)
    }
}

/// A level coordinate carried back to base resolution: scaled by the exact
/// dimension ratio, truncated, clamped into the base range.
pub open spec fn rescale_coord(c: int, from: int, to: int) -> int {
    if c * to / from >= to {
        to - 1
    } else {
        c * to / from
    }
}

/// The keypoints pyramid level `lvl` contributes before suppression and
/// before descriptors: FAST corners with margin 46, each carried to base
/// coordinates, tagged with its octave and its moment orientation. Levels
/// too small for the margin contribute nothing.
pub open spec fn orb_level_candidates<T: ImageData>(base: Seq<u8>, w0: int, h0: int, t: int,
    lvl: int) -> Seq<KeyPoint> {
    let lp = orb_level_plane::<T>(base, w0, h0, lvl);
    if lp.1 <= 92 || lp.2 <= 92 {
        Seq::empty()
    } else {
        fast_candidates(lp.0, lp.1, lp.2, t, 46).map_values(|kp: KeyPoint| KeyPoint {
            x: rescale_coord(kp.x as int, lp.1, w0) as usize,
            y: rescale_coord(kp.y as int, lp.2, h0) as usize,
            octave: lvl as usize,
            angle: direction_of(patch_moments(lp.0, lp.1, kp.x as int, kp.y as int).0,
                patch_moments(lp.0, lp.1, kp.x as int, kp.y as int).1),
            ..kp
        })
    }
}

/// The concatenation of the first `n` levels' candidates.
pub open spec fn orb_candidates_upto<T: ImageData>(base: Seq<u8>, w0: int, h0: int, t: int,
    n: int) -> Seq<KeyPoint>
    decreases n,
{
    if n <= 0 {
        Seq::empty()
    } else {
        orb_candidates_upto::<T>(base, w0, h0, t, n - 1) + orb_level_candidates::<T>(base,
            w0, h0, t, n - 1)
    }
}

/// All four pyramid levels' candidates, in level order.
pub open spec fn orb_candidates<T: ImageData>(base: Seq<u8>, w0: int, h0: int,
    t: int) -> Seq<KeyPoint> {
    orb_candidates_upto::<T>(base, w0, h0, t, 4)
}

/// A keypoint with its descriptor removed.
pub open spec fn strip_desc_one(kp: KeyPoint) -> KeyPoint {
    KeyPoint { descriptor: Descriptor::Empty, ..kp }
}

/// A keypoint sequence with all descriptors removed.
pub open spec fn strip_desc(s: Seq<KeyPoint>) -> Seq<KeyPoint> {
    s.map_values(|kp: KeyPoint| strip_desc_one(kp))
}

/// Whether `kp` is what ORB computes from some level coordinates of some
/// pyramid level.
pub open spec fn orb_sourced<T: ImageData>(base: Seq<u8>, w0: int, h0: int,
    kp: KeyPoint) -> bool {
    exists|lvl: int, lx: int, ly: int| #[trigger] orb_source_ok::<T>(base, w0, h0, kp, lvl,
        lx, ly)
}

/// Whether `kp` is what ORB computes from level coordinates (`lx`, `ly`) of
/// pyramid level `lvl`: position rescaled to base resolution, octave `lvl`,
/// the moment orientation at the level coordinates, and the rotated BRIEF
/// descriptor sampled there under that orientation.
pub open spec fn orb_source_ok<T: ImageData>(base: Seq<u8>, w0: int, h0: int, kp: KeyPoint,
    lvl: int, lx: int, ly: int) -> bool {
    let lp = orb_level_plane::<T>(base, w0, h0, lvl);
    &&& 0 <= lvl < 4
    &&& lp.1 > 92 && lp.2 > 92
    &&& 0 <= lx < lp.1 && 0 <= ly < lp.2
    &&& kp.octave == lvl
    &&& kp.x == rescale_coord(lx, lp.1, w0)
    &&& kp.y == rescale_coord(ly, lp.2, h0)
    &&& kp.angle == direction_of(patch_moments(lp.0, lp.1, lx, ly).0,
        patch_moments(lp.0, lp.1, lx, ly).1)
    &&& kp.descriptor is RBRIEF
    &&& kp.descriptor.bits() == brief_bytes(lp.0, lp.1, lx, ly, kp.angle)
}

/// Suppression ignores descriptors: stripping them commutes with the filter.
proof fn lemma_nms_keep_strip(s: Seq<KeyPoint>, p: KeyPoint, d: int)
    ensures
        nms_keep(strip_desc(s), strip_desc_one(p), d) == nms_keep(s, p, d),
{
    if nms_keep(s, p, d) {
        assert forall|j: int| 0 <= j < strip_desc(s).len()
            && #[trigger] strip_desc(s)[j].dist_sq(strip_desc_one(p)) <= d
            implies strip_desc(s)[j].score <= strip_desc_one(p).score by {
            assert(strip_desc(s)[j] == strip_desc_one(s[j]));
            assert(s[j].dist_sq(p) <= d);
        }
    }
    if nms_keep(strip_desc(s), strip_desc_one(p), d) {
        assert forall|j: int| 0 <= j < s.len() && #[trigger] s[j].dist_sq(p) <= d
            implies s[j].score <= p.score by {
            assert(strip_desc(s)[j] == strip_desc_one(s[j]));
            assert(strip_desc(s)[j].dist_sq(strip_desc_one(p)) <= d);
        }
    }
}

/// Stripping descriptors commutes with filtering by a descriptor-blind
/// predicate.
proof fn lemma_filter_strip(sub: Seq<KeyPoint>, pred: spec_fn(KeyPoint) -> bool,
    pred2: spec_fn(KeyPoint) -> bool)
    requires
        forall|x: KeyPoint| #[trigger] pred2(strip_desc_one(x)) == pred(x),
    ensures
        strip_desc(sub.filter(pred)) == strip_desc(sub).filter(pred2),
    decreases sub.len(),
{
    reveal(Seq::filter);
    if sub.len() == 0 {
        assert(strip_desc(sub.filter(pred)) =~= strip_desc(sub).filter(pred2));
    } else {
        lemma_filter_strip(sub.drop_last(), pred, pred2);
        assert(strip_desc(sub).drop_last() =~= strip_desc(sub.drop_last()));
        assert(strip_desc(sub).last() == strip_desc_one(sub.last()));
        if pred(sub.last()) {
            assert(strip_desc(sub.drop_last().filter(pred).push(sub.last()))
                =~= strip_desc(sub.drop_last().filter(pred)).push(strip_desc_one(sub.last())));
            assert(strip_desc(sub.filter(pred)) =~= strip_desc(sub).filter(pred2));
        } else {
            assert(strip_desc(sub.filter(pred)) =~= strip_desc(sub).filter(pred2));
        }
    }
}

/// Stripping descriptors commutes with non-maximum suppression.
proof fn lemma_nms_filter_strip(s: Seq<KeyPoint>, d: int)
    ensures
        strip_desc(nms_filter(s, d)) == nms_filter(strip_desc(s), d),
{
    let pred = |p: KeyPoint| nms_keep(s, p, d);
    let pred2 = |p: KeyPoint| nms_keep(strip_desc(s), p, d);
    assert forall|x: KeyPoint| #[trigger] pred2(strip_desc_one(x)) == pred(x) by {
        lemma_nms_keep_strip(s, x, d);
    }
    lemma_filter_strip(s, pred, pred2);
}

/// Every FAST candidate lies at least the margin away from every border.
proof fn lemma_fast_candidates_bounds(s: Seq<u8>, w: int, h: int, t: int, m: int, n: int)
    requires
        m >= 0,
        w <= usize::MAX,
        h <= usize::MAX,
        w > 2 * m && h > 2 * m ==> n <= (h - 2 * m) * (w - 2 * m),
    ensures
        forall|i: int| 0 <= i < fast_candidates_upto(s, w, h, t, m, n).len() ==> {
            let kp = #[trigger] fast_candidates_upto(s, w, h, t, m, n)[i];
            m <= kp.x && kp.x + m < w && m <= kp.y && kp.y + m < h
                && kp.descriptor is Empty && kp.octave == 0
        },
    decreases n,
{
    if n > 0 && w > 2 * m && h > 2 * m {
        lemma_fast_candidates_bounds(s, w, h, t, m, n - 1);
        let cw = w - 2 * m;
        vstd::arithmetic::div_mod::lemma_mod_bound(n - 1, cw);
        vstd::arithmetic::div_mod::lemma_div_pos_is_pos(n - 1, cw);
        vstd::arithmetic::div_mod::lemma_div_is_ordered(n - 1, (h - 2 * m) * cw - 1, cw);
        assert(((h - 2 * m) * cw - 1) / cw == h - 2 * m - 1) by {
            assert((h - 2 * m) * cw - 1 == cw * (h - 2 * m - 1) + (cw - 1))
                by (nonlinear_arith);
            vstd::arithmetic::div_mod::lemma_div_multiples_vanish_fancy(h - 2 * m - 1,
                cw - 1, cw);
        }
    }
}

/// A filtered sequence only holds elements of the original.
proof fn lemma_filter_subset(s: Seq<KeyPoint>, pred: spec_fn(KeyPoint) -> bool)
    ensures
        forall|i: int| 0 <= i < s.filter(pred).len()
            ==> s.contains(#[trigger] s.filter(pred)[i]),
    decreases s.len(),
{
    reveal(Seq::filter);
    if s.len() > 0 {
        lemma_filter_subset(s.drop_last(), pred);
        assert forall|i: int| 0 <= i < s.filter(pred).len()
            implies s.contains(#[trigger] s.filter(pred)[i]) by {
            let f = s.filter(pred);
            let fd = s.drop_last().filter(pred);
            if i < fd.len() {
                assert(fd[i] == f[i]);
                let j = choose|j: int| 0 <= j < s.drop_last().len() && s.drop_last()[j]
                    == fd[i];
                assert(s[j] == f[i]);
            } else {
                assert(f[i] == s.last());
                assert(s[s.len() - 1] == s.last());
            }
        }
    }
}

impl<T: ImageData> Image<T> {
    /// Downsamples a single-channel buffer by exactly half in each dimension,
    /// nearest-neighbor: every output pixel copies the input pixel at twice
    /// its coordinates.
    pub fn half_downsample(&self) -> (r: Image<T>)
        requires
            self.wf(),
            self.channels == 1,
            self.width < 0x4000_0000,
            self.height < 0x4000_0000,
        ensures
            r.wf(),
            r.height == self.height / 2,
            r.width == self.width / 2,
            r.channels == 1,
            r.color == self.color,
            r.data@.len() == (self.height / 2) * (self.width / 2),
            forall|xx: int, yy: int|
                #![trigger r.data@[(self.width / 2) * yy + xx]]
                0 <= xx < r.width && 0 <= yy < r.height
                ==> r.data@[(self.width / 2) * yy + xx]
                    == self.data@[self.width * (2 * yy) + 2 * xx],
    {
        let nw = self.width / 2;
        let nh = self.height / 2;
        proof {
            assert(nh * nw <= self.height * self.width) by (nonlinear_arith)
                requires
                    0 <= nh <= self.height,
                    0 <= nw <= self.width,
            ;
        }
        let mut data: Vec<T> = Vec::new();
        let mut y: usize = 0;
        while y < nh
            invariant
                self.wf(),
                self.channels == 1,
                nw == self.width / 2,
                nh == self.height / 2,
                self.width < 0x4000_0000,
                self.height < 0x4000_0000,
                y <= nh,
                data@.len() == y * nw,
                y * nw <= nh * nw,
                forall|xx: int, yy: int|
                    #![trigger data@[nw * yy + xx]]
                    0 <= xx < nw && 0 <= yy < y
                    ==> data@[nw * yy + xx] == self.data@[self.width * (2 * yy) + 2 * xx],
            decreases nh - y,
        {
            proof {
                assert((y + 1) * nw == y * nw + nw) by (nonlinear_arith);
                assert((y + 1) * nw <= nh * nw) by (nonlinear_arith)
                    requires
                        y + 1 <= nh,
                        nw >= 0,
                ;
            }
            let mut x: usize = 0;
            while x < nw
                invariant
                    self.wf(),
                    self.channels == 1,
                    nw == self.width / 2,
                    nh == self.height / 2,
                    self.width < 0x4000_0000,
                    self.height < 0x4000_0000,
                    y < nh,
                    x <= nw,
                    data@.len() == y * nw + x,
                    y * nw + nw <= nh * nw,
                    forall|xx: int, yy: int|
                        #![trigger data@[nw * yy + xx]]
                        0 <= xx < nw && 0 <= yy < y
                        ==> data@[nw * yy + xx] == self.data@[self.width * (2 * yy) + 2 * xx],
                    forall|xx: int|
                        #![trigger data@[nw * (y as int) + xx]]
                        0 <= xx < x
                        ==> data@[nw * (y as int) + xx] == self.data@[self.width
                            * (2 * (y as int)) + 2 * xx],
                decreases nw - x,
            {
                proof {
                    assert(2 * y < self.height && 2 * x < self.width) by (nonlinear_arith)
                        requires
                            y < nh,
                            x < nw,
                            nh == self.height as int / 2,
                            nw == self.width as int / 2,
                    ;
                    self.lemma_index_in_range(2 * x as int, 2 * y as int, 0);
                    assert((self.width * (2 * y) + 2 * x) * 1 + 0
                        == self.width * (2 * y) + 2 * x) by (nonlinear_arith);
                    crate::arith::lemma_decompose(y * nw + x, nw as int, y as int, x as int);
                }
                let idx = (self.width * (2 * y) + 2 * x) * self.channels;
                let ghost pre = data@;
                data.push(self.data[idx]);
                proof {
                    assert forall|xx: int, yy: int|
                        #![trigger data@[nw * yy + xx]]
                        0 <= xx < nw && 0 <= yy < y
                        implies data@[nw * yy + xx] == self.data@[self.width * (2 * yy)
                            + 2 * xx] by {
                        assert(nw * yy + xx < nw * y && nw * y == y * (nw as int)
                            && 0 <= nw * yy + xx) by (nonlinear_arith)
                            requires
                                0 <= xx < nw,
                                0 <= yy,
                                yy < y,
                        ;
                        assert(data@[nw * yy + xx] == pre[nw * yy + xx]);
                    }
                    assert forall|xx: int|
                        #![trigger data@[nw * (y as int) + xx]]
                        0 <= xx < x + 1
                        implies data@[nw * (y as int) + xx] == self.data@[self.width
                            * (2 * (y as int)) + 2 * xx] by {
                        assert(nw * (y as int) == (y as int) * nw) by (nonlinear_arith);
                        if xx < x {
                            assert(data@[nw * (y as int) + xx] == pre[nw * (y as int) + xx]);
                        } else {
                            assert(data@[(y as int) * nw + x] == self.data@[(self.width
                                * (2 * (y as int)) + 2 * (x as int)) as int]);
                        }
                    }
                }
                x = x + 1;
            }
            proof {
                assert forall|xx: int, yy: int|
                    #![trigger data@[nw * yy + xx]]
                    0 <= xx < nw && 0 <= yy < y + 1
                    implies data@[nw * yy + xx] == self.data@[self.width * (2 * yy) + 2 * xx]
                    by {
                    if yy == y {
                        assert(data@[nw * (y as int) + xx] == self.data@[self.width
                            * (2 * (y as int)) + 2 * xx]);
                    }
                }
            }
            y = y + 1;
        }
        proof {
            assert(data@.len() == (self.height / 2) * (self.width / 2) * 1)
                by (nonlinear_arith)
                requires
                    data@.len() == nh * nw,
                    nh == self.height as int / 2,
                    nw == self.width as int / 2,
            ;
            assert((self.height / 2) * (self.width / 2) <= usize::MAX);
        }
        Image {
            height: nh,
            width: nw,
            channels: 1,
            color: self.color,
            data,
        }
    }

    /// Smooths a single-channel buffer with the standard Gaussian
    /// (half-window 1, sigma 1, repeat padding), relating the stored bytes to
    /// the smoothed plane.
    fn smooth_level(&mut self)
        requires
            old(self).wf(),
            old(self).channels == 1,
            old(self).width < 0x4000_0000,
            old(self).height < 0x4000_0000,
        ensures
            final(self).wf(),
            final(self).height == old(self).height,
            final(self).width == old(self).width,
            final(self).channels == 1,
            final(self).color == old(self).color,
            final(self).bytes() == blur_plane::<T>(old(self).bytes(), old(self).width as int,
                old(self).height as int),
    {
        let ghost obytes = self.bytes();
        let ghost w = self.width as int;
        let ghost h = self.height as int;
        self.gaussian_blur(1, 1, 1, crate::algorithm::Padding::Repeat);
        proof {
            assert(self.bytes().len() == blur_plane::<T>(obytes, w, h).len())
                by (nonlinear_arith)
                requires
                    self.bytes().len() == h * w * 1,
                    blur_plane::<T>(obytes, w, h).len() == h * w,
            ;
            assert forall|p: int| 0 <= p < self.bytes().len()
                implies self.bytes()[p] == blur_plane::<T>(obytes, w, h)[p] by {
                vstd::arithmetic::div_mod::lemma_mod_bound(p, w);
                vstd::arithmetic::div_mod::lemma_div_pos_is_pos(p, w);
                assert(p / w <= (h * w - 1) as int / w) by {
                    vstd::arithmetic::div_mod::lemma_div_is_ordered(p, h * w - 1, w);
                }
                assert((h * w - 1) as int / w == h - 1) by {
                    assert(h * w - 1 == w * (h - 1) + (w - 1)) by (nonlinear_arith);
                    vstd::arithmetic::div_mod::lemma_div_multiples_vanish_fancy(h - 1, w - 1,
                        w);
                }
                let xx = p % w;
                let yy = p / w;
                vstd::arithmetic::div_mod::lemma_fundamental_div_mod(p, w);
                assert((w * yy + xx) * 1 + 0 == w * yy + xx) by (nonlinear_arith);
                assert(self.data@[(w * yy + xx) * 1 + 0] == T::requantize(
                    crate::algorithm::conv_value(obytes, w, h, 1, gauss_kernel_spec(1, 1, 1),
                        1, 1, gauss_divisor_spec(1, 1, 1), xx, yy, 0,
                        crate::algorithm::Padding::Repeat) as u8));
            }
            assert(self.bytes() =~= blur_plane::<T>(obytes, w, h));
        }
    }

    /// The ORB pipeline: the buffer is normalized to single-channel
    /// grayscale, smoothed, and a 4-level half-resolution pyramid is built;
    /// FAST (margin 46) runs per level, every keypoint gets its moment
    /// orientation and rotated BRIEF descriptor, is rescaled into base
    /// coordinates and tagged with its octave; the merged set is suppressed
    /// over the given squared radius. Levels too small for the margin
    /// contribute no keypoints. Up to descriptors, the result is exactly the
    /// suppressed candidate set; every returned keypoint carries the rotated
    /// BRIEF descriptor of its source level coordinates.
    pub fn orb(&self, t: i16, non_maximum_suppression_dist_sq: u64) -> (r: Vec<KeyPoint>)
        requires
            self.wf(),
            self.width < 0x4000_0000,
            self.height < 0x4000_0000,
            self.color != ColorSpace::Gray ==> self.channels == 3,
            self.color == ColorSpace::Gray ==> self.channels >= 1,
        ensures
            strip_desc(r@) == nms_filter(orb_candidates::<T>(gray_plane(*self),
                self.width as int, self.height as int, t as int),
                non_maximum_suppression_dist_sq as int),
            forall|i: int| 0 <= i < r@.len() ==> #[trigger] orb_sourced::<T>(
                gray_plane(*self), self.width as int, self.height as int, r@[i]),
            forall|i: int| 0 <= i < r@.len() ==> {
                let kp = #[trigger] r@[i];
                kp.descriptor is RBRIEF && kp.octave <= 3 && kp.x < self.width
                    && kp.y < self.height
            },
    {
        let ghost gp = gray_plane(*self);
        let ghost w0 = self.width as int;
        let ghost h0 = self.height as int;
        // Normalize to single-channel grayscale and pre-smooth.
        let mut mid = Image {
            height: self.height,
            width: self.width,
            channels: self.channels,
            color: self.color,
            data: self.snapshot_data(),
        };
        proof {
            assert(mid.bytes() =~= self.bytes());
        }
        mid.grayscale();
        let mut level = mid.to_single_channel();
        proof {
            assert(level.bytes().len() == gp.len());
            assert forall|q: int| 0 <= q < h0 * w0 implies level.bytes()[q] == gp[q] by {
                assert(q * 1 == q) by (nonlinear_arith);
                if self.color == ColorSpace::Gray {
                    assert(level.data@[q] == self.data@[q * self.channels]);
                } else if self.color == ColorSpace::RGB {
                    assert(level.data@[q] == mid.data@[q * 3]);
                    assert(mid.data@[3 * q] == T::requantize(luma_of(rgb3(self.data@, q).0,
                        rgb3(self.data@, q).1, rgb3(self.data@, q).2) as u8));
                    assert(q * 3 == 3 * q) by (nonlinear_arith);
                } else {
                    assert(level.data@[q] == mid.data@[q * 1]);
                    assert(mid.data@[q] == self.data@[3 * q + 2]);
                }
            }
            assert(level.bytes() =~= gp);
        }
        level.smooth_level();
        proof {
            assert(level.bytes() == orb_level_plane::<T>(gp, w0, h0, 0).0);
        }
        let mut merged: Vec<KeyPoint> = Vec::new();
        let ghost mut srcs: Seq<(int, int, int)> = Seq::empty();
        let mut octave: usize = 0;
        while octave < 4
            invariant
                self.width < 0x4000_0000,
                self.height < 0x4000_0000,
                w0 == self.width as int,
                h0 == self.height as int,
                level.wf(),
                level.channels == 1,
                level.color == ColorSpace::Gray,
                level.width <= self.width,
                level.height <= self.height,
                octave <= 4,
                octave < 4 ==> level.bytes() == orb_level_plane::<T>(gp, w0, h0,
                    octave as int).0
                    && level.width == orb_level_plane::<T>(gp, w0, h0, octave as int).1
                    && level.height == orb_level_plane::<T>(gp, w0, h0, octave as int).2,
                strip_desc(merged@) == orb_candidates_upto::<T>(gp, w0, h0, t as int,
                    octave as int),
                srcs.len() == merged@.len(),
                forall|q: int| 0 <= q < merged@.len() ==> orb_source_ok::<T>(gp, w0, h0,
                    #[trigger] merged@[q], srcs[q].0, srcs[q].1, srcs[q].2),
                forall|q: int| 0 <= q < merged@.len() ==> {
                    let kp = #[trigger] merged@[q];
                    kp.descriptor is RBRIEF && kp.octave <= 3 && kp.x < self.width
                        && kp.y < self.height
                },
            decreases 4 - octave,
        {
            let ghost lvl = octave as int;
            let ghost lp = orb_level_plane::<T>(gp, w0, h0, lvl);
            if level.width > 2 * 46 && level.height > 2 * 46 {
                let mut kps = level.fast(t, 0, 46);
                let ghost fc = fast_candidates(lp.0, lp.1, lp.2, t as int, 46);
                proof {
                    assert(kps@ == fc);
                    lemma_fast_candidates_bounds(lp.0, lp.1, lp.2, t as int, 46,
                        (lp.2 - 2 * 46) * (lp.1 - 2 * 46));
                    assert forall|q: int| 0 <= q < kps@.len() implies {
                        let kp = #[trigger] kps@[q];
                        26 <= kp.x && kp.x + 26 < level.width && 26 <= kp.y
                            && kp.y + 26 < level.height
                    } by {}
                }
                level.rotated_brief(&mut kps);
                // Rescale into base coordinates and tag the octave.
                let nk = kps.len();
                let mut i: usize = 0;
                while i < nk
                    invariant
                        self.width < 0x4000_0000,
                        self.height < 0x4000_0000,
                        w0 == self.width as int,
                        h0 == self.height as int,
                        1 <= level.width <= self.width,
                        1 <= level.height <= self.height,
                        level.bytes() == lp.0,
                        level.width == lp.1,
                        level.height == lp.2,
                        level.width > 92,
                        level.height > 92,
                        lp == orb_level_plane::<T>(gp, w0, h0, lvl),
                        lvl == octave as int,
                        octave < 4,
                        fc == fast_candidates(lp.0, lp.1, lp.2, t as int, 46),
                        nk == kps@.len(),
                        fc.len() == nk,
                        i <= nk,
                        forall|q: int| i <= q < nk ==> #[trigger] kps@[q] == (KeyPoint {
                            descriptor: Descriptor::RBRIEF(kps@[q].descriptor->RBRIEF_0),
                            angle: direction_of(patch_moments(lp.0, lp.1, fc[q].x as int,
                                fc[q].y as int).0, patch_moments(lp.0, lp.1, fc[q].x as int,
                                fc[q].y as int).1),
                            ..fc[q]
                        }) && kps@[q].descriptor.bits() == brief_bytes(lp.0, lp.1,
                            fc[q].x as int, fc[q].y as int, kps@[q].angle)
                            && 46 <= fc[q].x && fc[q].x + 46 < lp.1 && 46 <= fc[q].y
                            && fc[q].y + 46 < lp.2,
                        forall|q: int| 0 <= q < i ==> strip_desc_one(#[trigger] kps@[q])
                            == orb_level_candidates::<T>(gp, w0, h0, t as int, lvl)[q]
                            && orb_source_ok::<T>(gp, w0, h0, kps@[q], lvl, fc[q].x as int,
                                fc[q].y as int)
                            && kps@[q].octave <= 3 && kps@[q].x < self.width
                            && kps@[q].y < self.height,
                    decreases nk - i,
                {
                    let mut kp = kps[i];
                    proof {
                        lemma_fast_candidates_bounds(lp.0, lp.1, lp.2, t as int, 46,
                            (lp.2 - 2 * 46) * (lp.1 - 2 * 46));
                        assert(0 <= (kp.x as int) * (self.width as int)
                            <= 0x4000_0000 * 0x4000_0000 && 0 <= (kp.y as int)
                            * (self.height as int) <= 0x4000_0000 * 0x4000_0000)
                            by (nonlinear_arith)
                            requires
                                0 <= kp.x < 0x4000_0000,
                                0 <= kp.y < 0x4000_0000,
                                0 <= self.width < 0x4000_0000,
                                0 <= self.height < 0x4000_0000,
                        ;
                    }
                    let sx = ((kp.x as u64) * (self.width as u64)) / (level.width as u64);
                    let sy = ((kp.y as u64) * (self.height as u64)) / (level.height as u64);
                    kp.x = if sx >= (self.width as u64) { self.width - 1 } else {
                        sx as usize
                    };
                    kp.y = if sy >= (self.height as u64) { self.height - 1 } else {
                        sy as usize
                    };
                    kp.octave = octave;
                    proof {
                        assert(kp.x as int == rescale_coord(fc[i as int].x as int, lp.1, w0));
                        assert(kp.y as int == rescale_coord(fc[i as int].y as int, lp.2, h0));
                        if self.width >= 1 {
                            vstd::arithmetic::div_mod::lemma_div_pos_is_pos(
                                (fc[i as int].x as int) * w0, lp.1);
                            vstd::arithmetic::div_mod::lemma_div_pos_is_pos(
                                (fc[i as int].y as int) * h0, lp.2);
                        }
                        assert(fc[i as int].descriptor is Empty);
                        assert(strip_desc_one(kp) == orb_level_candidates::<T>(gp, w0, h0,
                            t as int, lvl)[i as int]);
                        assert(orb_source_ok::<T>(gp, w0, h0, kp, lvl, fc[i as int].x as int,
                            fc[i as int].y as int));
                    }
                    kps.set(i, kp);
                    i = i + 1;
                }
                // Merge this level's keypoints.
                proof {
                    assert(strip_desc(kps@) =~= orb_level_candidates::<T>(gp, w0, h0,
                        t as int, lvl));
                }
                let mut j: usize = 0;
                while j < nk
                    invariant
                        self.width < 0x4000_0000,
                        self.height < 0x4000_0000,
                        w0 == self.width as int,
                        h0 == self.height as int,
                        lvl == octave as int,
                        octave < 4,
                        nk == kps@.len(),
                        fc.len() == nk,
                        j <= nk,
                        strip_desc(kps@) == orb_level_candidates::<T>(gp, w0, h0, t as int,
                            lvl),
                        forall|q: int| 0 <= q < nk ==> orb_source_ok::<T>(gp, w0, h0,
                            #[trigger] kps@[q], lvl, fc[q].x as int, fc[q].y as int)
                            && kps@[q].octave <= 3 && kps@[q].x < self.width
                            && kps@[q].y < self.height && kps@[q].descriptor is RBRIEF,
                        strip_desc(merged@) == orb_candidates_upto::<T>(gp, w0, h0, t as int,
                            lvl) + strip_desc(kps@).take(j as int),
                        srcs.len() == merged@.len(),
                        forall|q: int| 0 <= q < merged@.len() ==> orb_source_ok::<T>(gp, w0,
                            h0, #[trigger] merged@[q], srcs[q].0, srcs[q].1, srcs[q].2),
                        forall|q: int| 0 <= q < merged@.len() ==> {
                            let kp = #[trigger] merged@[q];
                            kp.descriptor is RBRIEF && kp.octave <= 3 && kp.x < self.width
                                && kp.y < self.height
                        },
                    decreases nk - j,
                {
                    let ghost merged_before = merged@;
                    merged.push(kps[j]);
                    proof {
                        srcs = srcs.push((lvl, fc[j as int].x as int, fc[j as int].y as int));
                        assert(strip_desc(merged@) =~= strip_desc(merged_before).push(
                            strip_desc_one(kps@[j as int])));
                        assert(strip_desc(kps@).take(j + 1) =~= strip_desc(kps@).take(
                            j as int).push(strip_desc_one(kps@[j as int])));
                        assert(strip_desc(merged@) =~= orb_candidates_upto::<T>(gp, w0, h0,
                            t as int, lvl) + strip_desc(kps@).take(j + 1));
                    }
                    j = j + 1;
                }
                proof {
                    assert(strip_desc(kps@).take(nk as int) =~= strip_desc(kps@));
                    assert(strip_desc(merged@) =~= orb_candidates_upto::<T>(gp, w0, h0,
                        t as int, lvl + 1));
                }
            } else {
                proof {
                    assert(orb_level_candidates::<T>(gp, w0, h0, t as int, lvl)
                        =~= Seq::<KeyPoint>::empty());
                    assert(strip_desc(merged@) =~= orb_candidates_upto::<T>(gp, w0, h0,
                        t as int, lvl + 1));
                }
            }
            if octave < 3 {
                let ghost prev_bytes = level.bytes();
                let ghost pw = level.width as int;
                let ghost ph = level.height as int;
                let mut next = level.half_downsample();
                proof {
                    assert(next.bytes().len() == downsample_plane(prev_bytes, pw, ph).len());
                    assert forall|p: int| 0 <= p < next.bytes().len()
                        implies next.bytes()[p] == downsample_plane(prev_bytes, pw, ph)[p] by {
                        let nw = pw / 2;
                        let nh = ph / 2;
                        vstd::arithmetic::div_mod::lemma_div_pos_is_pos(pw, 2);
                        vstd::arithmetic::div_mod::lemma_div_pos_is_pos(ph, 2);
                        assert(nh * nw >= 0) by (nonlinear_arith)
                            requires
                                nh >= 0,
                                nw >= 0,
                        ;
                        assert(0 <= p < nh * nw);
                        assert(nw >= 1 && nh >= 1) by (nonlinear_arith)
                            requires
                                0 <= p < nh * nw,
                                nh >= 0,
                                nw >= 0,
                        ;
                        vstd::arithmetic::div_mod::lemma_mod_bound(p, nw);
                        vstd::arithmetic::div_mod::lemma_div_pos_is_pos(p, nw);
                        assert(p / nw <= (nh * nw - 1) as int / nw) by {
                            vstd::arithmetic::div_mod::lemma_div_is_ordered(p, nh * nw - 1,
                                nw);
                        }
                        assert((nh * nw - 1) as int / nw == nh - 1) by {
                            assert(nh * nw - 1 == nw * (nh - 1) + (nw - 1))
                                by (nonlinear_arith);
                            vstd::arithmetic::div_mod::lemma_div_multiples_vanish_fancy(
                                nh - 1, nw - 1, nw);
                        }
                        vstd::arithmetic::div_mod::lemma_fundamental_div_mod(p, nw);
                        assert(next.data@[nw * (p / nw) + p % nw]
                            == level.data@[pw * (2 * (p / nw)) + 2 * (p % nw)]);
                        vstd::arithmetic::div_mod::lemma_fundamental_div_mod(ph, 2);
                        vstd::arithmetic::div_mod::lemma_fundamental_div_mod(pw, 2);
                        assert(2 * (p / nw) < ph && 2 * (p % nw) < pw);
                        assert(0 <= pw * (2 * (p / nw)) + 2 * (p % nw) && pw * (2 * (p / nw))
                            + 2 * (p % nw) < ph * pw) by (nonlinear_arith)
                            requires
                                0 <= 2 * (p / nw) < ph,
                                0 <= 2 * (p % nw) < pw,
                        ;
                        assert(level.data@.len() == ph * pw) by (nonlinear_arith)
                            requires
                                level.data@.len() == ph * pw * 1,
                        ;
                        assert(prev_bytes[pw * (2 * (p / nw)) + 2 * (p % nw)]
                            == level.data@[pw * (2 * (p / nw)) + 2 * (p % nw)].byte());
                        assert(next.bytes()[p] == next.data@[nw * (p / nw) + p % nw].byte());
                        assert(downsample_plane(prev_bytes, pw, ph)[p]
                            == prev_bytes[pw * (2 * (p / (pw / 2))) + 2 * (p % (pw / 2))]);
                    }
                    assert(next.bytes() =~= downsample_plane(prev_bytes, pw, ph));
                }
                next.smooth_level();
                level = next;
                proof {
                    assert(level.bytes() == orb_level_plane::<T>(gp, w0, h0, lvl + 1).0);
                    assert(level.width == orb_level_plane::<T>(gp, w0, h0, lvl + 1).1);
                    assert(level.height == orb_level_plane::<T>(gp, w0, h0, lvl + 1).2);
                }
            }
            octave = octave + 1;
        }
        let r = non_maximum_suppression(&merged, non_maximum_suppression_dist_sq);
        proof {
            lemma_nms_filter_strip(merged@, non_maximum_suppression_dist_sq as int);
            assert(strip_desc(r@) == nms_filter(orb_candidates::<T>(gp, w0, h0, t as int),
                non_maximum_suppression_dist_sq as int));
            lemma_filter_subset(merged@, |p: KeyPoint| nms_keep(merged@, p,
                non_maximum_suppression_dist_sq as int));
            assert forall|i: int| 0 <= i < r@.len() implies #[trigger] orb_sourced::<T>(
                gray_plane(*self), self.width as int, self.height as int, r@[i]) by {
                assert(merged@.contains(r@[i]));
                let q = choose|q: int| 0 <= q < merged@.len() && merged@[q] == r@[i];
                assert(orb_source_ok::<T>(gray_plane(*self), self.width as int,
                    self.height as int, r@[i], srcs[q].0, srcs[q].1, srcs[q].2));
            }
            assert forall|i: int| 0 <= i < r@.len() implies {
                let kp = #[trigger] r@[i];
                kp.descriptor is RBRIEF && kp.octave <= 3 && kp.x < self.width
                    && kp.y < self.height
            } by {
                assert(merged@.contains(r@[i]));
                let q = choose|q: int| 0 <= q < merged@.len() && merged@[q] == r@[i];
            }
        }
        r
    }
}

} // verus!
