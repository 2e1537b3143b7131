//! The pixel buffer: a flat sample vector with height, width, channel count
//! and a color-space tag.

use vstd::prelude::*;

use crate::typing::ImageData;

verus! {

/// The color space an image's samples are expressed in.
#[derive(Copy, Clone, Debug, PartialEq, Eq, Structural)]
pub enum ColorSpace {
    RGB,
    Gray,
    HSL,
}

/// A height x width x channels pixel buffer over samples of type `T`,
/// stored row-major, pixel samples contiguous.
#[derive(Clone)]
pub struct Image<T: ImageData> {
    pub height: usize,
    pub width: usize,
    pub channels: usize,
    pub color: ColorSpace,
    pub data: Vec<T>,
}

impl<T: ImageData> Image<T> {
    /// The buffer's shape invariant: the flat vector holds exactly one sample
    /// per channel of every pixel, and the sample count fits the machine.
    pub open spec fn wf(self) -> bool {
        &&& self.data@.len() == self.height * self.width * self.channels
        &&& self.height * self.width <= usize::MAX
        &&& self.height * self.width * self.channels <= usize::MAX
    }

    /// The samples seen in the byte domain.
    pub open spec fn bytes(self) -> Seq<u8> {
        self.data@.map_values(|t: T| t.byte())
    }

    /// The flat index of channel `c` of the pixel at column `x`, row `y`.
    pub open spec fn index_of(self, x: int, y: int, c: int) -> int {
        (self.width * y + x) * self.channels + c
    }

    /// The byte value of channel `c` of the pixel at column `x`, row `y`.
    pub open spec fn sample_byte(self, x: int, y: int, c: int) -> u8 {
        self.bytes()[self.index_of(x, y, c)]
    }

    /// Flat indices of pixels inside the buffer stay inside the data vector.
    pub proof fn lemma_index_in_range(self, x: int, y: int, c: int)
        requires
            self.wf(),
            0 <= x < self.width,
            0 <= y < self.height,
            0 <= c < self.channels,
        ensures
            0 <= self.index_of(x, y, c) < self.data@.len(),
            self.index_of(x, y, c) < self.height * self.width * self.channels,
            0 <= self.width * y + x < self.height * self.width,
            self.width * y + x <= self.index_of(x, y, c),
            0 <= self.width * y,
    {
        let w = self.width as int;
        let h = self.height as int;
        let ch = self.channels as int;
        assert((w * y + x) * ch + c < h * w * ch) by (nonlinear_arith)
            requires
                0 <= x < w,
                0 <= y < h,
                0 <= c < ch,
        ;
        assert(0 <= w * y && w * y + x < h * w) by (nonlinear_arith)
            requires
                0 <= x < w,
                0 <= y < h,
        ;
        assert(w * y + x <= (w * y + x) * ch + c && (w * y + x) * ch + c >= 0) by (nonlinear_arith)
            requires
                0 <= x,
                0 <= y,
                0 <= c,
                ch > 0,
                w >= 0,
        ;
    }

    /// Distinct (x, y, c) triples inside the buffer give distinct flat indices.
    pub proof fn lemma_index_injective(self, x1: int, y1: int, c1: int, x2: int, y2: int, c2: int)
        requires
            self.wf(),
            0 <= x1 < self.width,
            0 <= y1 < self.height,
            0 <= c1 < self.channels,
            0 <= x2 < self.width,
            0 <= y2 < self.height,
            0 <= c2 < self.channels,
            self.index_of(x1, y1, c1) == self.index_of(x2, y2, c2),
        ensures
            x1 == x2 && y1 == y2 && c1 == c2,
    {
        let w = self.width as int;
        let ch = self.channels as int;
        assert(x1 == x2 && y1 == y2 && c1 == c2) by (nonlinear_arith)
            requires
                0 <= x1 < w,
                0 <= y1,
                0 <= c1 < ch,
                0 <= x2 < w,
                0 <= y2,
                0 <= c2 < ch,
                (w * y1 + x1) * ch + c1 == (w * y2 + x2) * ch + c2,
        ;
    }

    /// Samples of distinct pixels occupy disjoint flat indices, whatever
    /// their channels.
    pub proof fn lemma_pixel_indices_disjoint(self, x1: int, y1: int, x2: int, y2: int)
        requires
            self.wf(),
            0 <= x1 < self.width,
            0 <= y1 < self.height,
            0 <= x2 < self.width,
            0 <= y2 < self.height,
            x1 != x2 || y1 != y2,
        ensures
            forall|c1: int, c2: int| 0 <= c1 < self.channels && 0 <= c2 < self.channels
                ==> #[trigger] self.index_of(x1, y1, c1) != #[trigger] self.index_of(x2, y2,
                    c2),
    {
        assert forall|c1: int, c2: int| 0 <= c1 < self.channels && 0 <= c2 < self.channels
            implies #[trigger] self.index_of(x1, y1, c1) != #[trigger] self.index_of(x2, y2,
                c2) by {
            if self.index_of(x1, y1, c1) == self.index_of(x2, y2, c2) {
                self.lemma_index_injective(x1, y1, c1, x2, y2, c2);
            }
        }
    }

    /// A fresh buffer filled with the encoding's minimum sample, tagged RGB.
    pub fn zeros(height: usize, width: usize, channels: usize) -> (r: Image<T>)
        requires
            height * width <= usize::MAX,
            height * width * channels <= usize::MAX,
        ensures
            r.wf(),
            r.height == height,
            r.width == width,
            r.channels == channels,
            r.color == ColorSpace::RGB,
            forall|k: int| 0 <= k < r.data@.len() ==> r.data@[k] == T::min_val(),
    {
        Image { height, width, channels, color: ColorSpace::RGB, data: Self::filled(height, width, channels, T::min()) }
    }

    /// A fresh buffer filled with the encoding's maximum sample, tagged RGB.
    pub fn ones(height: usize, width: usize, channels: usize) -> (r: Image<T>)
        requires
            height * width <= usize::MAX,
            height * width * channels <= usize::MAX,
        ensures
            r.wf(),
            r.height == height,
            r.width == width,
            r.channels == channels,
            r.color == ColorSpace::RGB,
            forall|k: int| 0 <= k < r.data@.len() ==> r.data@[k] == T::max_val(),
    {
        Image { height, width, channels, color: ColorSpace::RGB, data: Self::filled(height, width, channels, T::max()) }
    }

    fn filled(height: usize, width: usize, channels: usize, v: T) -> (r: Vec<T>)
        requires
            height * width <= usize::MAX,
            height * width * channels <= usize::MAX,
        ensures
            r@.len() == height * width * channels,
            forall|k: int| 0 <= k < r@.len() ==> r@[k] == v,
    {
        let n = height * width * channels;
        let mut data: Vec<T> = Vec::new();
        let mut k: usize = 0;
        while k < n
            invariant
                k <= n,
                n == height * width * channels,
                data@.len() == k,
                forall|i: int| 0 <= i < k ==> data@[i] == v,
            decreases n - k,
        {
            data.push(v);
            k = k + 1;
        }
        data
    }

    /// Reads channel `c` of the pixel at column `x`, row `y`.
    pub fn get_sample(&self, x: usize, y: usize, c: usize) -> (r: T)
        requires
            self.wf(),
            x < self.width,
            y < self.height,
            c < self.channels,
        ensures
            r == self.data@[self.index_of(x as int, y as int, c as int)],
            r.byte() == self.sample_byte(x as int, y as int, c as int),
    {
        proof {
            self.lemma_index_in_range(x as int, y as int, c as int);
        }
        let idx = (self.width * y + x) * self.channels + c;
        self.data[idx]
    }

    /// Writes channel `c` of the pixel at column `x`, row `y`.
    pub fn set_sample(&mut self, x: usize, y: usize, c: usize, v: T)
        requires
            old(self).wf(),
            x < old(self).width,
            y < old(self).height,
            c < old(self).channels,
        ensures
            final(self).wf(),
            final(self).height == old(self).height,
            final(self).width == old(self).width,
            final(self).channels == old(self).channels,
            final(self).color == old(self).color,
            final(self).data@ == old(self).data@.update(
                old(self).index_of(x as int, y as int, c as int), v),
    {
        proof {
            self.lemma_index_in_range(x as int, y as int, c as int);
        }
        let idx = (self.width * y + x) * self.channels + c;
        self.data.set(idx, v);
    }

    /// A copy of the pixel at column `x`, row `y`: one sample per channel.
    pub fn get_pixel(&self, x: usize, y: usize) -> (r: Vec<T>)
        requires
            self.wf(),
            x < self.width,
            y < self.height,
        ensures
            r@.len() == self.channels,
            forall|c: int| 0 <= c < self.channels ==>
                r@[c] == self.data@[self.index_of(x as int, y as int, c)],
    {
        let mut r: Vec<T> = Vec::new();
        let mut c: usize = 0;
        while c < self.channels
            invariant
                self.wf(),
                x < self.width,
                y < self.height,
                c <= self.channels,
                r@.len() == c,
                forall|k: int| 0 <= k < c ==>
                    r@[k] == self.data@[self.index_of(x as int, y as int, k)],
            decreases self.channels - c,
        {
            r.push(self.get_sample(x, y, c));
            c = c + 1;
        }
        r
    }

    /// An identical copy of the sample vector (a read-only snapshot for
    /// filters that read the old buffer while writing the new one).
    pub fn snapshot_data(&self) -> (r: Vec<T>)
        ensures
            r@ == self.data@,
    {
        let mut r: Vec<T> = Vec::new();
        let mut k: usize = 0;
        let n = self.data.len();
        while k < n
            invariant
                k <= n,
                n == self.data@.len(),
                r@.len() == k,
                forall|i: int| 0 <= i < k ==> r@[i] == self.data@[i],
            decreases n - k,
        {
            r.push(self.data[k]);
            k = k + 1;
        }
        proof {
            assert(r@ =~= self.data@);
        }
        r
    }
}

} // verus!
