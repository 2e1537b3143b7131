//! Keypoints and their binary descriptors.

use vstd::prelude::*;

use crate::arith::{popcount8, popcount8_exec, lemma_popcount8_bound};
use crate::model::Image;
use crate::typing::ImageData;

verus! {

/// The marker drawn for a keypoint (visualization only).
#[derive(Clone, Copy, PartialEq, Eq, Structural)]
pub enum KeyPointShape {
    Dot,
    BigDot,
    Cross,
    Square,
}

/// A 512-bit binary descriptor, stored as 64 bytes of 8 comparisons each, or
/// the absence of one. Plain and rotated BRIEF descriptors are distinct
/// variants: their distances are only defined within a variant.
#[derive(Clone, Copy)]
pub enum Descriptor {
    Empty,
    BRIEF([u8; 64]),
    RBRIEF([u8; 64]),
}

/// The Hamming distance of the first `k` byte pairs.
pub open spec fn hamming_upto(a: Seq<u8>, b: Seq<u8>, k: int) -> int
    decreases k,
{
    if k <= 0 {
        0
    } else {
        hamming_upto(a, b, k - 1) + popcount8(a[k - 1] ^ b[k - 1])
    }
}

/// The Hamming distance of two 64-byte descriptors: the number of bits that
/// differ.
pub open spec fn hamming(a: Seq<u8>, b: Seq<u8>) -> int {
    hamming_upto(a, b, 64)
}

/// A Hamming prefix distance is bounded by 8 bits per byte.
pub proof fn lemma_hamming_upto_bound(a: Seq<u8>, b: Seq<u8>, k: int)
    requires
        k >= 0,
    ensures
        0 <= hamming_upto(a, b, k) <= 8 * k,
    decreases k,
{
    if k > 0 {
        lemma_hamming_upto_bound(a, b, k - 1);
        lemma_popcount8_bound(a[k - 1] ^ b[k - 1]);
    }
}

impl Default for Descriptor {
    /// A keypoint starts with no descriptor.
    fn default() -> (r: Self)
        ensures
            r is Empty,
    {
        Descriptor::Empty
    }
}

impl Descriptor {
    /// The descriptor's bytes; empty when there is none.
    pub open spec fn bits(self) -> Seq<u8> {
        match self {
            Descriptor::Empty => Seq::empty(),
            Descriptor::BRIEF(a) => a@,
            Descriptor::RBRIEF(a) => a@,
        }
    }

    /// Whether two descriptors are of the same present variant, so that their
    /// distance is defined.
    pub open spec fn compatible(self, b: Descriptor) -> bool {
        ||| (self is BRIEF && b is BRIEF)
        ||| (self is RBRIEF && b is RBRIEF)
    }

    /// The Hamming distance to another descriptor of the same variant.
    pub fn distance(&self, b: &Descriptor) -> (r: u32)
        requires
            self.compatible(*b),
        ensures
            r == hamming(self.bits(), b.bits()),
            r <= 512,
    {
        match (self, b) {
            (Descriptor::BRIEF(x), Descriptor::BRIEF(y)) => Self::hamming_exec(x, y),
            (Descriptor::RBRIEF(x), Descriptor::RBRIEF(y)) => Self::hamming_exec(x, y),
            _ => {
                proof {
                    assert(false);
                }
                0
            },
        }
    }

    fn hamming_exec(a: &[u8; 64], b: &[u8; 64]) -> (r: u32)
        ensures
            r == hamming(a@, b@),
            r <= 512,
    {
        let mut r: u32 = 0;
        let mut k: usize = 0;
        proof {
            lemma_hamming_upto_bound(a@, b@, 64);
        }
        while k < 64
            invariant
                k <= 64,
                a@.len() == 64,
                b@.len() == 64,
                r == hamming_upto(a@, b@, k as int),
                r <= 8 * k,
            decreases 64 - k,
        {
            proof {
                lemma_hamming_upto_bound(a@, b@, k as int);
                lemma_popcount8_bound(a@[k as int] ^ b@[k as int]);
            }
            r = r + popcount8_exec(a[k] ^ b[k]);
            k = k + 1;
        }
        r
    }

    /// The 64 descriptor bytes of a present descriptor.
    pub fn inner_array(&self) -> (r: &[u8; 64])
        requires
            !(*self is Empty),
        ensures
            r@ == self.bits(),
    {
        match self {
            Descriptor::BRIEF(a) => a,
            Descriptor::RBRIEF(a) => a,
            Descriptor::Empty => {
                proof {
                    assert(false);
                }
                &[0u8; 64]
            },
        }
    }
}

/// A patch orientation as an exact unit direction in Q14 fixed point:
/// `c` and `s` stand for the cosine and sine scaled by 16384.
#[derive(Clone, Copy, Debug, PartialEq, Eq, Structural)]
pub struct Rotation {
    pub c: i32,
    pub s: i32,
}

impl Rotation {
    /// Both components stay within the Q14 unit.
    pub open spec fn wf(self) -> bool {
        -16384 <= self.c <= 16384 && -16384 <= self.s <= 16384
    }

    /// The zero angle.
    pub fn identity() -> (r: Rotation)
        ensures
            r.wf(),
            r.c == 16384,
            r.s == 0,
    {
        Rotation { c: 16384, s: 0 }
    }

    /// Rotates the offset (`x`, `y`) by this direction, truncating toward
    /// zero: both outputs use the original, unrotated inputs.
    pub fn rotate(&self, x: i64, y: i64) -> (r: (i64, i64))
        requires
            self.wf(),
            -0x1000_0000 <= x <= 0x1000_0000,
            -0x1000_0000 <= y <= 0x1000_0000,
        ensures
            r.0 == crate::arith::div_trunc(x * self.c - y * self.s, 16384),
            r.1 == crate::arith::div_trunc(y * self.c + x * self.s, 16384),
            crate::arith::absi(r.0 as int) <= crate::arith::absi(x as int)
                + crate::arith::absi(y as int),
            crate::arith::absi(r.1 as int) <= crate::arith::absi(x as int)
                + crate::arith::absi(y as int),
    {
        proof {
            assert(-0x4000_0000_0000 <= x * self.c <= 0x4000_0000_0000
                && -0x4000_0000_0000 <= y * self.s <= 0x4000_0000_0000
                && -0x4000_0000_0000 <= y * self.c <= 0x4000_0000_0000
                && -0x4000_0000_0000 <= x * self.s <= 0x4000_0000_0000) by (nonlinear_arith)
                requires
                    -0x1000_0000 <= x <= 0x1000_0000,
                    -0x1000_0000 <= y <= 0x1000_0000,
                    -16384 <= self.c <= 16384,
                    -16384 <= self.s <= 16384,
            ;
        }
        let nx = x * (self.c as i64) - y * (self.s as i64);
        let ny = y * (self.c as i64) + x * (self.s as i64);
        proof {
            let bound = 16384 * (crate::arith::absi(x as int) + crate::arith::absi(y as int));
            assert(crate::arith::absi(nx as int) <= bound
                && crate::arith::absi(ny as int) <= bound) by (nonlinear_arith)
                requires
                    nx == x * self.c - y * self.s,
                    ny == y * self.c + x * self.s,
                    -16384 <= self.c <= 16384,
                    -16384 <= self.s <= 16384,
                    bound == 16384 * (crate::arith::absi(x as int)
                        + crate::arith::absi(y as int)),
                    crate::arith::absi(x as int) == (if x >= 0 { x as int } else {
                        -(x as int)
                    }),
                    crate::arith::absi(y as int) == (if y >= 0 { y as int } else {
                        -(y as int)
                    }),
            ;
            vstd::arithmetic::div_mod::lemma_div_is_ordered(
                crate::arith::absi(nx as int), bound, 16384);
            vstd::arithmetic::div_mod::lemma_div_is_ordered(
                crate::arith::absi(ny as int), bound, 16384);
            assert(bound == (crate::arith::absi(x as int) + crate::arith::absi(y as int))
                * 16384) by (nonlinear_arith)
                requires
                    bound == 16384 * (crate::arith::absi(x as int)
                        + crate::arith::absi(y as int)),
            ;
            vstd::arithmetic::div_mod::lemma_div_by_multiple(
                crate::arith::absi(x as int) + crate::arith::absi(y as int), 16384);
            vstd::arithmetic::div_mod::lemma_div_pos_is_pos(crate::arith::absi(nx as int),
                16384);
            vstd::arithmetic::div_mod::lemma_div_pos_is_pos(crate::arith::absi(ny as int),
                16384);
        }
        let xr = if nx >= 0 { nx / 16384 } else { -((-nx) / 16384) };
        let yr = if ny >= 0 { ny / 16384 } else { -((-ny) / 16384) };
        (xr, yr)
    }
}

/// A detected image feature: integer pixel position, detector score, pyramid
/// octave, patch orientation, optional descriptor, and a display color and
/// shape used only for visualization.
#[derive(Clone, Copy)]
pub struct KeyPoint {
    pub x: usize,
    pub y: usize,
    pub descriptor: Descriptor,
    pub octave: usize,
    pub score: i32,
    pub angle: Rotation,
    pub color: (u8, u8, u8),
    pub shape: KeyPointShape,
}

impl KeyPoint {
    /// A fresh keypoint at (`x`, `y`): no descriptor, zero score and angle,
    /// octave 0 (base resolution).
    pub fn new(x: usize, y: usize, color: (u8, u8, u8), shape: KeyPointShape) -> (r: KeyPoint)
        ensures
            r.x == x,
            r.y == y,
            r.color == color,
            r.shape == shape,
            r.octave == 0,
            r.score == 0,
            r.angle == (Rotation { c: 16384, s: 0 }),
            r.descriptor is Empty,
    {
        KeyPoint {
            x,
            y,
            color,
            shape,
            octave: 0,
            score: 0,
            angle: Rotation::identity(),
            descriptor: Descriptor::Empty,
        }
    }

    /// The squared Euclidean distance to another keypoint.
    pub open spec fn dist_sq(self, b: KeyPoint) -> int {
        (self.x - b.x) * (self.x - b.x) + (self.y - b.y) * (self.y - b.y)
    }

    /// The Manhattan distance to another keypoint.
    pub fn manhattan_distance(&self, b: &KeyPoint) -> (r: u64)
        requires
            self.x < 0x4000_0000_0000_0000,
            self.y < 0x4000_0000_0000_0000,
            b.x < 0x4000_0000_0000_0000,
            b.y < 0x4000_0000_0000_0000,
        ensures
            r == (if self.x >= b.x { self.x - b.x } else { b.x - self.x })
                + (if self.y >= b.y { self.y - b.y } else { b.y - self.y }),
    {
        let dx = if self.x >= b.x { self.x - b.x } else { b.x - self.x };
        let dy = if self.y >= b.y { self.y - b.y } else { b.y - self.y };
        (dx as u64) + (dy as u64)
    }

    /// The pixel offsets the keypoint's shape covers, relative to nothing:
    /// absolute coordinates, possibly outside the image.
    pub open spec fn shape_points_spec(self) -> Seq<(i64, i64)> {
        let xi = self.x as i64;
        let yi = self.y as i64;
        match self.shape {
            KeyPointShape::Dot => seq![(xi, yi)],
            KeyPointShape::BigDot => seq![
                ((xi - 1) as i64, (yi - 1) as i64), ((xi - 1) as i64, yi),
                ((xi - 1) as i64, (yi + 1) as i64), (xi, (yi - 1) as i64), (xi, yi),
                (xi, (yi + 1) as i64), ((xi + 1) as i64, (yi - 1) as i64),
                ((xi + 1) as i64, yi), ((xi + 1) as i64, (yi + 1) as i64),
            ],
            KeyPointShape::Cross => seq![
                (xi, yi), ((xi - 1) as i64, (yi - 1) as i64), ((xi + 1) as i64, (yi + 1) as i64),
                ((xi - 1) as i64, (yi + 1) as i64), ((xi + 1) as i64, (yi - 1) as i64),
                ((xi - 2) as i64, (yi - 2) as i64), ((xi + 2) as i64, (yi + 2) as i64),
                ((xi - 2) as i64, (yi + 2) as i64), ((xi + 2) as i64, (yi - 2) as i64),
            ],
            KeyPointShape::Square => seq![
                ((xi - 2) as i64, (yi - 2) as i64), ((xi - 2) as i64, (yi - 1) as i64),
                ((xi - 2) as i64, yi), ((xi - 2) as i64, (yi + 1) as i64),
                ((xi - 2) as i64, (yi + 2) as i64), ((xi + 2) as i64, (yi - 2) as i64),
                ((xi + 2) as i64, (yi - 1) as i64), ((xi + 2) as i64, yi),
                ((xi + 2) as i64, (yi + 1) as i64), ((xi + 2) as i64, (yi + 2) as i64),
                ((xi - 1) as i64, (yi + 2) as i64), (xi, (yi + 2) as i64),
                ((xi + 1) as i64, (yi + 2) as i64), ((xi - 1) as i64, (yi - 2) as i64),
                (xi, (yi - 2) as i64), ((xi + 1) as i64, (yi - 2) as i64),
            ],
        }
    }

    /// The absolute pixel coordinates of the keypoint's display shape.
    pub fn get_shape_points(&self) -> (r: Vec<(i64, i64)>)
        requires
            self.x < 0x1000_0000_0000_0000,
            self.y < 0x1000_0000_0000_0000,
        ensures
            r@ == self.shape_points_spec(),
    {
        let xi = self.x as i64;
        let yi = self.y as i64;
        let mut r: Vec<(i64, i64)> = Vec::new();
        match self.shape {
            KeyPointShape::Dot => {
                r.push((xi, yi));
            },
            KeyPointShape::BigDot => {
                r.push((xi - 1, yi - 1));
                r.push((xi - 1, yi));
                r.push((xi - 1, yi + 1));
                r.push((xi, yi - 1));
                r.push((xi, yi));
                r.push((xi, yi + 1));
                r.push((xi + 1, yi - 1));
                r.push((xi + 1, yi));
                r.push((xi + 1, yi + 1));
            },
            KeyPointShape::Cross => {
                r.push((xi, yi));
                r.push((xi - 1, yi - 1));
                r.push((xi + 1, yi + 1));
                r.push((xi - 1, yi + 1));
                r.push((xi + 1, yi - 1));
                r.push((xi - 2, yi - 2));
                r.push((xi + 2, yi + 2));
                r.push((xi - 2, yi + 2));
                r.push((xi + 2, yi - 2));
            },
            KeyPointShape::Square => {
                r.push((xi - 2, yi - 2));
                r.push((xi - 2, yi - 1));
                r.push((xi - 2, yi));
                r.push((xi - 2, yi + 1));
                r.push((xi - 2, yi + 2));
                r.push((xi + 2, yi - 2));
                r.push((xi + 2, yi - 1));
                r.push((xi + 2, yi));
                r.push((xi + 2, yi + 1));
                r.push((xi + 2, yi + 2));
                r.push((xi - 1, yi + 2));
                r.push((xi, yi + 2));
                r.push((xi + 1, yi + 2));
                r.push((xi - 1, yi - 2));
                r.push((xi, yi - 2));
                r.push((xi + 1, yi - 2));
            },
        }
        proof {
            assert(r@ =~= self.shape_points_spec());
        }
        r
    }

    /// No two points of a keypoint's shape coincide.
    pub proof fn lemma_shape_points_distinct(self)
        requires
            self.x < 0x1000_0000_0000_0000,
            self.y < 0x1000_0000_0000_0000,
        ensures
            forall|i: int, j: int|
                0 <= i < j < self.shape_points_spec().len()
                    ==> self.shape_points_spec()[i] != self.shape_points_spec()[j],
    {
        let pts = self.shape_points_spec();
        assert forall|i: int, j: int| 0 <= i < j < pts.len()
            implies pts[i] != pts[j] by {
            match self.shape {
                KeyPointShape::Dot => {},
                KeyPointShape::BigDot => {},
                KeyPointShape::Cross => {},
                KeyPointShape::Square => {},
            }
        }
    }

    /// Whether a shape point lies inside the buffer.
    pub open spec fn point_in_bounds<T: ImageData>(p: (i64, i64), image: Image<T>) -> bool {
        0 <= p.0 < image.width && 0 <= p.1 < image.height
    }

    /// Paints the keypoint's shape into a three-channel buffer in its display
    /// color. Every shape point inside the buffer gets all three of its
    /// channels set to the color; every other sample is left untouched.
    pub fn draw<T: ImageData>(&self, image: &mut Image<T>)
        requires
            old(image).wf(),
            old(image).channels == 3,
            self.x < 0x1000_0000_0000_0000,
            self.y < 0x1000_0000_0000_0000,
        ensures
            final(image).wf(),
            final(image).height == old(image).height,
            final(image).width == old(image).width,
            final(image).channels == old(image).channels,
            final(image).color == old(image).color,
            final(image).data@.len() == old(image).data@.len(),
            forall|j: int|
                #![trigger self.shape_points_spec()[j]]
                0 <= j < self.shape_points_spec().len()
                    && Self::point_in_bounds(self.shape_points_spec()[j], *old(image))
                    ==> {
                    let p = self.shape_points_spec()[j];
                    final(image).data@[old(image).index_of(p.0 as int, p.1 as int, 0)]
                        == T::requantize(self.color.0)
                        && final(image).data@[old(image).index_of(p.0 as int, p.1 as int, 1)]
                            == T::requantize(self.color.1)
                        && final(image).data@[old(image).index_of(p.0 as int, p.1 as int, 2)]
                            == T::requantize(self.color.2)
                },
            forall|k: int| 0 <= k < final(image).data@.len()
                && (forall|j: int| 0 <= j < self.shape_points_spec().len()
                    ==> !(Self::point_in_bounds(#[trigger] self.shape_points_spec()[j],
                        *old(image))
                        && (k == old(image).index_of(self.shape_points_spec()[j].0 as int,
                            self.shape_points_spec()[j].1 as int, 0)
                            || k == old(image).index_of(self.shape_points_spec()[j].0 as int,
                                self.shape_points_spec()[j].1 as int, 1)
                            || k == old(image).index_of(self.shape_points_spec()[j].0 as int,
                                self.shape_points_spec()[j].1 as int, 2))))
                ==> #[trigger] final(image).data@[k] == old(image).data@[k],
    {
        let ghost pts_spec = self.shape_points_spec();
        proof {
            self.lemma_shape_points_distinct();
        }
        let pts = self.get_shape_points();
        let n = pts.len();
        let mut i: usize = 0;
        while i < n
            invariant
                pts@ == pts_spec,
                n == pts@.len(),
                image.wf(),
                image.height == old(image).height,
                image.width == old(image).width,
                image.channels == old(image).channels,
                image.color == old(image).color,
                image.data@.len() == old(image).data@.len(),
                image.channels == 3,
                i <= n,
                forall|i1: int, j1: int| 0 <= i1 < j1 < pts_spec.len()
                    ==> pts_spec[i1] != pts_spec[j1],
                forall|j: int|
                    #![trigger pts_spec[j]]
                    0 <= j < i && Self::point_in_bounds(pts_spec[j], *old(image)) ==> {
                        let p = pts_spec[j];
                        image.data@[old(image).index_of(p.0 as int, p.1 as int, 0)]
                            == T::requantize(self.color.0)
                            && image.data@[old(image).index_of(p.0 as int, p.1 as int, 1)]
                                == T::requantize(self.color.1)
                            && image.data@[old(image).index_of(p.0 as int, p.1 as int, 2)]
                                == T::requantize(self.color.2)
                    },
                forall|k: int| 0 <= k < image.data@.len()
                    && (forall|j: int| 0 <= j < i
                        ==> !(Self::point_in_bounds(#[trigger] pts_spec[j], *old(image))
                            && (k == old(image).index_of(pts_spec[j].0 as int,
                                pts_spec[j].1 as int, 0)
                                || k == old(image).index_of(pts_spec[j].0 as int,
                                    pts_spec[j].1 as int, 1)
                                || k == old(image).index_of(pts_spec[j].0 as int,
                                    pts_spec[j].1 as int, 2))))
                    ==> #[trigger] image.data@[k] == old(image).data@[k],
            decreases n - i,
        {
            let (px, py) = pts[i];
            if px >= 0 && py >= 0 && (px as u64) < (image.width as u64)
                && (py as u64) < (image.height as u64) {
                let ux = px as usize;
                let uy = py as usize;
                proof {
                    image.lemma_index_in_range(ux as int, uy as int, 0);
                    image.lemma_index_in_range(ux as int, uy as int, 1);
                    image.lemma_index_in_range(ux as int, uy as int, 2);
                    // Writing this pixel leaves every other in-bounds shape
                    // point's samples alone.
                    assert forall|j: int| 0 <= j < pts_spec.len() && j != i
                        && Self::point_in_bounds(#[trigger] pts_spec[j], *old(image))
                        implies forall|c1: int, c2: int| 0 <= c1 < 3 && 0 <= c2 < 3
                            ==> #[trigger] old(image).index_of(pts_spec[j].0 as int,
                                pts_spec[j].1 as int, c1) != #[trigger] old(image).index_of(
                                ux as int, uy as int, c2) by {
                        assert(pts_spec[j] != pts_spec[i as int]);
                        let imv = *image;
                        assert(imv.index_of(pts_spec[j].0 as int, pts_spec[j].1 as int, 0)
                            == old(image).index_of(pts_spec[j].0 as int,
                                pts_spec[j].1 as int, 0));
                        image.lemma_pixel_indices_disjoint(pts_spec[j].0 as int,
                            pts_spec[j].1 as int, ux as int, uy as int);
                    }
                }
                let ghost pre = image.data@;
                image.set_sample(ux, uy, 0, T::from_u8(self.color.0));
                image.set_sample(ux, uy, 1, T::from_u8(self.color.1));
                image.set_sample(ux, uy, 2, T::from_u8(self.color.2));
                proof {
                    assert(image.data@[old(image).index_of(ux as int, uy as int, 0)]
                        == T::requantize(self.color.0));
                    assert(image.data@[old(image).index_of(ux as int, uy as int, 1)]
                        == T::requantize(self.color.1));
                    assert(image.data@[old(image).index_of(ux as int, uy as int, 2)]
                        == T::requantize(self.color.2));
                    assert forall|j: int|
                        #![trigger pts_spec[j]]
                        0 <= j < i + 1 && Self::point_in_bounds(pts_spec[j], *old(image))
                        implies {
                        let p = pts_spec[j];
                        image.data@[old(image).index_of(p.0 as int, p.1 as int, 0)]
                            == T::requantize(self.color.0)
                            && image.data@[old(image).index_of(p.0 as int, p.1 as int, 1)]
                                == T::requantize(self.color.1)
                            && image.data@[old(image).index_of(p.0 as int, p.1 as int, 2)]
                                == T::requantize(self.color.2)
                    } by {
                        if j < i {
                            let p = pts_spec[j];
                            old(image).lemma_index_in_range(p.0 as int, p.1 as int, 0);
                            old(image).lemma_index_in_range(p.0 as int, p.1 as int, 1);
                            old(image).lemma_index_in_range(p.0 as int, p.1 as int, 2);
                            assert(image.data@[old(image).index_of(p.0 as int, p.1 as int, 0)]
                                == pre[old(image).index_of(p.0 as int, p.1 as int, 0)]);
                            assert(image.data@[old(image).index_of(p.0 as int, p.1 as int, 1)]
                                == pre[old(image).index_of(p.0 as int, p.1 as int, 1)]);
                            assert(image.data@[old(image).index_of(p.0 as int, p.1 as int, 2)]
                                == pre[old(image).index_of(p.0 as int, p.1 as int, 2)]);
                        } else {
                            assert(pts_spec[j] == (px, py));
                        }
                    }
                }
            }
            i = i + 1;
        }
    }
}

} // verus!
