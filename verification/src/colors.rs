//! Color gradients: ordered control points mapping a normalized scalar to an
//! interpolated RGB color (pseudo-coloring).

use vstd::prelude::*;

verus! {

/// An ordered sequence of (RGB color, position) control points, sorted by
/// position ascending, with the positions' range cached.
pub struct Gradient {
    colors: Vec<((u8, u8, u8), u32)>,
    min_pos: u32,
    max_pos: u32,
}

/// The first index at or after `k` whose position, scaled by `fden`, lies
/// strictly above `posn`; the last index when there is none.
pub open spec fn first_above(pts: Seq<((u8, u8, u8), u32)>, posn: int, fden: int, k: int) -> int
    decreases pts.len() - k,
{
    if k < 0 || k >= pts.len() {
        pts.len() - 1
    } else if pts[k].1 * fden > posn {
        k
    } else {
        first_above(pts, posn, fden, k + 1)
    }
}

/// The interpolated color of a gradient at the fraction `fnum / fden`:
/// the fraction is mapped into the position range, the bracketing control
/// points are found, and each channel is interpolated linearly between them
/// (all arithmetic exact over the common denominator, truncated at the end).
pub open spec fn gradient_color(pts: Seq<((u8, u8, u8), u32)>, fnum: int, fden: int)
    -> (int, int, int) {
    let minp = pts.first().1 as int;
    let maxp = pts.last().1 as int;
    let posn = minp * fden + fnum * (maxp - minp);
    let idx0 = first_above(pts, posn, fden, 0);
    let idx = if idx0 < 1 { 1int } else { idx0 };
    let c1 = pts[idx - 1];
    let c2 = pts[idx];
    let dnum = posn - c1.1 * fden;
    let dden = (c2.1 - c1.1) * fden;
    (
        (c1.0.0 * (dden - dnum) + c2.0.0 * dnum) / dden,
        (c1.0.1 * (dden - dnum) + c2.0.1 * dnum) / dden,
        (c1.0.2 * (dden - dnum) + c2.0.2 * dnum) / dden,
    )
}

impl Gradient {
    /// The gradient's control points in order.
    pub closed spec fn points(self) -> Seq<((u8, u8, u8), u32)> {
        self.colors@
    }

    /// Sorted by position, with the cached range matching the end points.
    pub closed spec fn wf(self) -> bool {
        &&& forall|i: int, j: int| 0 <= i <= j < self.colors@.len()
            ==> self.colors@[i].1 <= self.colors@[j].1
        &&& self.colors@.len() > 0 ==> self.min_pos == self.colors@.first().1
            && self.max_pos == self.colors@.last().1
    }

    /// Positions strictly increase (what interpolation needs).
    pub closed spec fn strict(self) -> bool {
        forall|i: int, j: int| 0 <= i < j < self.colors@.len()
            ==> self.colors@[i].1 < self.colors@[j].1
    }

    /// An empty gradient.
    pub fn new() -> (r: Gradient)
        ensures
            r.wf(),
            r.points().len() == 0,
    {
        Gradient { colors: Vec::new(), min_pos: 0, max_pos: 0 }
    }

    /// Adds a control point, keeping the points sorted by position (a point
    /// with an existing position goes after its equals). Adding a position at
    /// or past the current maximum appends.
    pub fn add(&mut self, color: (u8, u8, u8), position: u32)
        requires
            old(self).wf(),
            old(self).points().len() < usize::MAX,
        ensures
            final(self).wf(),
            final(self).points().len() == old(self).points().len() + 1,
            exists|i: int|
                #![trigger old(self).points().insert(i, (color, position))]
                0 <= i <= old(self).points().len()
                    && final(self).points() == old(self).points().insert(i, (color, position))
                    && (forall|j: int| 0 <= j < i ==> old(self).points()[j].1 <= position)
                    && (i < old(self).points().len() ==> old(self).points()[i].1 > position),
            (forall|i: int| 0 <= i < old(self).points().len()
                ==> old(self).points()[i].1 <= position)
                ==> final(self).points() == old(self).points().push((color, position)),
    {
        let ghost before = self.colors@;
        let n = self.colors.len();
        let mut idx: usize = 0;
        while idx < n && self.colors[idx].1 <= position
            invariant
                self.colors@ == before,
                n == before.len(),
                idx <= n,
                forall|i: int| 0 <= i < idx ==> before[i].1 <= position,
            decreases n - idx,
        {
            idx = idx + 1;
        }
        self.colors.insert(idx, (color, position));
        proof {
            assert(self.colors@ =~= before.insert(idx as int, (color, position)));
            before.insert_ensures(idx as int, (color, position));
            if forall|i: int| 0 <= i < before.len() ==> before[i].1 <= position {
                assert(idx == n);
                assert(self.colors@ =~= before.push((color, position)));
            }
            assert forall|i: int, j: int| 0 <= i <= j < self.colors@.len()
                implies self.colors@[i].1 <= self.colors@[j].1 by {
                if idx < n {
                    assert(before[idx as int].1 > position);
                }
                if i < idx && idx < j {
                    assert(self.colors@[i] == before[i]);
                    assert(self.colors@[j] == before[j - 1]);
                }
            }
        }
        let first = self.colors[0];
        self.min_pos = first.1;
        let last = self.colors[self.colors.len() - 1];
        self.max_pos = last.1;
    }

    /// A gradient from a list of colors at positions 0, 1, 2, ...
    pub fn simple(colors: Vec<(u8, u8, u8)>) -> (r: Gradient)
        requires
            colors@.len() < 0x1_0000_0000,
        ensures
            r.wf(),
            r.strict(),
            r.points().len() == colors@.len(),
            forall|i: int| 0 <= i < colors@.len()
                ==> r.points()[i] == (colors@[i], i as u32),
    {
        let mut r = Gradient::new();
        let n = colors.len();
        let mut i: usize = 0;
        while i < n
            invariant
                n == colors@.len(),
                n < 0x1_0000_0000,
                i <= n,
                r.wf(),
                r.points().len() == i,
                forall|k: int| 0 <= k < i ==> r.points()[k] == (colors@[k], k as u32),
            decreases n - i,
        {
            let ghost before = r.points();
            r.add(colors[i], i as u32);
            proof {
                assert forall|k: int| 0 <= k < before.len()
                    implies before[k].1 <= i as u32 by {}
                assert(r.points() =~= before.push((colors@[i as int], i as u32)));
            }
            i = i + 1;
        }
        r
    }

    /// The interpolated color at the fraction `fnum / fden` of the gradient's
    /// position range.
    pub fn get_color(&self, fnum: u32, fden: u32) -> (r: (u8, u8, u8))
        requires
            self.wf(),
            self.strict(),
            self.points().len() >= 2,
            1 <= fden,
            fnum <= fden,
        ensures
            (r.0 as int, r.1 as int, r.2 as int) == gradient_color(self.points(), fnum as int,
                fden as int),
    {
        let ghost pts = self.points();
        let n = self.colors.len();
        let minp = self.colors[0].1 as u128;
        let maxp = self.colors[n - 1].1 as u128;
        proof {
            assert(pts[0].1 <= pts[n - 1].1);
        }
        proof {
            assert(minp * fden <= 0xffff_ffff * 0xffff_ffff
                && fnum * (maxp - minp) <= 0xffff_ffff * 0xffff_ffff) by (nonlinear_arith)
                requires
                    0 <= minp <= 0xffff_ffff,
                    minp <= maxp <= 0xffff_ffff,
                    0 <= fnum <= 0xffff_ffff,
                    0 <= fden <= 0xffff_ffff,
            ;
        }
        let posn: u128 = minp * (fden as u128) + (fnum as u128) * (maxp - minp);
        // Find the first control point strictly above the target position.
        let mut k: usize = 0;
        let mut found: usize = n - 1;
        let mut done: bool = false;
        while k < n && !done
            invariant
                pts == self.points(),
                self.wf(),
                self.strict(),
                fnum <= fden,
                1 <= fden,
                n == pts.len(),
                n == self.colors@.len(),
                n >= 2,
                k <= n,
                minp == pts[0].1,
                maxp == pts[n - 1].1,
                posn == minp * fden + fnum * (maxp - minp),
                !done ==> found == n - 1 && forall|j: int| 0 <= j < k
                    ==> pts[j].1 * fden <= posn,
                !done ==> first_above(pts, posn as int, fden as int, 0)
                    == first_above(pts, posn as int, fden as int, k as int),
                done ==> found < n && found == first_above(pts, posn as int, fden as int, 0)
                    && pts[found as int].1 * fden > posn
                    && forall|j: int| 0 <= j < found ==> pts[j].1 * fden <= posn,
            decreases n - k + (if done { 0int } else { 1int }),
        {
            proof {
                assert((self.colors@[k as int].1 as int) * (fden as int)
                    <= 0xffff_ffff * 0x1_0000_0000) by (nonlinear_arith)
                    requires
                        0 <= self.colors@[k as int].1 <= 0xffff_ffff,
                        0 <= fden <= 0xffff_ffff,
                ;
            }
            let scaled = (self.colors[k].1 as u128) * (fden as u128);
            if scaled > posn {
                found = k;
                done = true;
            } else {
                k = k + 1;
            }
        }
        proof {
            if !done {
                assert(first_above(pts, posn as int, fden as int, n as int) == n - 1);
            }
            assert(found == first_above(pts, posn as int, fden as int, 0) || (!done && found
                == n - 1 && first_above(pts, posn as int, fden as int, 0) == n - 1));
            assert(forall|j: int| 0 <= j < found ==> pts[j].1 * fden <= posn);
        }
        let idx = if found < 1 { 1 } else { found };
        proof {
            // The first control point never lies above the target position.
            assert(pts[0].1 * fden <= posn) by (nonlinear_arith)
                requires
                    posn == pts[0].1 * fden + fnum * (maxp - minp),
                    maxp == pts[n - 1].1,
                    minp == pts[0].1,
                    minp <= maxp,
                    fnum >= 0,
            ;
            if found == 0 {
                assert(pts[0].1 * fden > posn);
            }
            assert(idx >= 1 && idx < n);
            assert(pts[idx - 1].1 * fden <= posn);
            // The bracketing interval is non-degenerate and contains posn.
            assert(pts[idx - 1].1 < pts[idx as int].1);
            if done {
                assert(pts[idx as int].1 * fden > posn);
            } else {
                assert(posn <= maxp * fden) by (nonlinear_arith)
                    requires
                        posn == minp * fden + fnum * (maxp - minp),
                        minp <= maxp,
                        0 <= fnum <= fden,
                ;
            }
        }
        let c1 = self.colors[idx - 1];
        let c2 = self.colors[idx];
        proof {
            assert((c1.1 as int) * (fden as int) <= 0xffff_ffff * 0x1_0000_0000
                && (c2.1 as int) * (fden as int) <= 0xffff_ffff * 0x1_0000_0000
                && ((c2.1 - c1.1) as int) * (fden as int) <= 0xffff_ffff * 0x1_0000_0000)
                by (nonlinear_arith)
                requires
                    0 <= c1.1 <= 0xffff_ffff,
                    c1.1 <= c2.1 <= 0xffff_ffff,
                    0 <= fden <= 0xffff_ffff,
            ;
            assert(posn <= maxp * fden && maxp * fden <= 0xffff_ffff * 0x1_0000_0000)
                by (nonlinear_arith)
                requires
                    posn == minp * fden + fnum * (maxp - minp),
                    minp <= maxp <= 0xffff_ffff,
                    0 <= fnum <= fden <= 0xffff_ffff,
            ;
        }
        let dnum: u128 = posn - (c1.1 as u128) * (fden as u128);
        let dden: u128 = ((c2.1 - c1.1) as u128) * (fden as u128);
        proof {
            assert(dden > 0) by (nonlinear_arith)
                requires
                    dden == ((c2.1 - c1.1) as int) * (fden as int),
                    c2.1 > c1.1,
                    fden >= 1,
            ;
            if done {
                assert(dnum < dden) by (nonlinear_arith)
                    requires
                        dnum == posn - c1.1 * fden,
                        dden == ((c2.1 - c1.1) as int) * (fden as int),
                        posn < c2.1 * fden,
                ;
            } else {
                assert(dnum <= dden) by (nonlinear_arith)
                    requires
                        dnum == posn - c1.1 * fden,
                        dden == ((c2.1 - c1.1) as int) * (fden as int),
                        posn <= c2.1 * fden,
                ;
            }
        }
        let r0 = Self::lerp_channel(c1.0.0, c2.0.0, dnum, dden);
        let r1 = Self::lerp_channel(c1.0.1, c2.0.1, dnum, dden);
        let r2 = Self::lerp_channel(c1.0.2, c2.0.2, dnum, dden);
        (r0, r1, r2)
    }

    /// One linearly interpolated channel, truncated to a byte.
    fn lerp_channel(a: u8, b: u8, dnum: u128, dden: u128) -> (r: u8)
        requires
            0 < dden <= 0xffff_ffff * 0x1_0000_0000,
            dnum <= dden,
        ensures
            r == (a * (dden - dnum) + b * dnum) / (dden as int),
    {
        proof {
            assert(a * ((dden - dnum) as int) + b * (dnum as int) <= 255 * (dden as int)
                && 0 <= a * ((dden - dnum) as int) && 0 <= b * (dnum as int))
                by (nonlinear_arith)
                requires
                    0 <= a <= 255,
                    0 <= b <= 255,
                    0 <= dnum <= dden,
            ;
            assert(255 * (dden as int) <= 255 * (0xffff_ffff * 0x1_0000_0000))
                by (nonlinear_arith)
                requires
                    dden <= 0xffff_ffff * 0x1_0000_0000,
            ;
            vstd::arithmetic::div_mod::lemma_div_is_ordered(
                a * ((dden - dnum) as int) + b * (dnum as int), 255 * (dden as int),
                dden as int);
            vstd::arithmetic::div_mod::lemma_div_by_multiple(255, dden as int);
            vstd::arithmetic::div_mod::lemma_div_pos_is_pos(
                a * ((dden - dnum) as int) + b * (dnum as int), dden as int);
        }
        let v: u128 = (a as u128) * (dden - dnum) + (b as u128) * dnum;
        (v / dden) as u8
    }
}

} // verus!
