//! Color-space conversions, windowed filtering, and buffer-wide operations.
//!
//! Samples are specified in their 8-bit byte domain; color formulas are exact
//! integer rationals rounded to the nearest byte.

use vstd::prelude::*;

use crate::arith::{div_round_nn, div_round_nn_exec, lemma_div_round_nn_upper};
use crate::colors::{Gradient, gradient_color};
use crate::model::{ColorSpace, Image};
use crate::typing::ImageData;
use vstd::multiset::Multiset;

verus! {

/// The boundary policy of a sliding window: fabricate minimum-valued samples,
/// or clamp coordinates to the buffer edges.
#[derive(Copy, Clone, PartialEq, Eq, Structural)]
pub enum Padding {
    Zeros,
    Repeat,
}

/// The bytes of the three channels of pixel `q` in a flat sample sequence.
pub open spec fn rgb3<T: ImageData>(s: Seq<T>, q: int) -> (int, int, int) {
    (s[3 * q].byte() as int, s[3 * q + 1].byte() as int, s[3 * q + 2].byte() as int)
}

/// The rec. 601 luma of an RGB byte triple, rounded down.
pub open spec fn luma_of(r: int, g: int, b: int) -> int {
    (299 * r + 587 * g + 114 * b) / 1000
}

/// The HSL byte triple of an RGB byte triple. Hue is the circle position
/// scaled to 0..=255 (wrapping negatives), saturation and lightness are the
/// standard formulas rounded to the nearest byte; saturation is defined as 0
/// at zero chroma and at lightness 0 or 1.
pub open spec fn hsl_of(r: int, g: int, b: int) -> (int, int, int) {
    let maxv = if r >= g && r >= b { r } else if g >= b { g } else { b };
    let minv = if r <= g && r <= b { r } else if g <= b { g } else { b };
    let c = maxv - minv;
    let l2 = maxv + minv;
    let l = div_round_nn(l2, 2);
    let s = if c == 0 || l2 == 0 || l2 == 510 {
        0
    } else {
        div_round_nn(255 * c, if l2 <= 510 - l2 { l2 } else { 510 - l2 })
    };
    let h = if c == 0 {
        0
    } else {
        let h6c = if maxv == r {
            if g >= b { g - b } else { g - b + 6 * c }
        } else if maxv == g {
            2 * c + b - r
        } else {
            4 * c + r - g
        };
        div_round_nn(255 * h6c, 6 * c)
    };
    (h, s, l)
}

/// The RGB byte triple of an HSL byte triple: the standard six-sector
/// inversion, evaluated exactly over the common denominator 2 * 255^3 and
/// rounded to the nearest byte.
pub open spec fn rgb_of_hsl(h: int, s: int, l: int) -> (int, int, int) {
    let hh = 6 * h;
    let a2l = if 2 * l >= 255 { 2 * l - 255 } else { 255 - 2 * l };
    let c_num = (255 - a2l) * s;
    let hmod = hh % 510;
    let ax = if hmod >= 255 { hmod - 255 } else { 255 - hmod };
    let x_num = c_num * (255 - ax);
    let c_d = 510 * c_num;
    let x_d = 2 * x_num;
    let m_d = 130050 * l - 255 * c_num;
    let base = if hh <= 255 {
        (c_d, x_d, 0)
    } else if hh <= 510 {
        (x_d, c_d, 0)
    } else if hh <= 765 {
        (0, c_d, x_d)
    } else if hh <= 1020 {
        (0, x_d, c_d)
    } else if hh <= 1275 {
        (x_d, 0, c_d)
    } else {
        (c_d, 0, x_d)
    };
    (
        div_round_nn(base.0 + m_d, 130050),
        div_round_nn(base.1 + m_d, 130050),
        div_round_nn(base.2 + m_d, 130050),
    )
}

/// Computes the luma byte of an RGB byte triple.
pub fn luma_exec(r: u8, g: u8, b: u8) -> (v: u8)
    ensures
        v == luma_of(r as int, g as int, b as int),
{
    let sum: u32 = 299 * (r as u32) + 587 * (g as u32) + 114 * (b as u32);
    proof {
        vstd::arithmetic::div_mod::lemma_div_pos_is_pos(sum as int, 1000);
        vstd::arithmetic::div_mod::lemma_div_is_ordered(sum as int, 255000, 1000);
    }
    (sum / 1000) as u8
}

/// Computes the HSL bytes of an RGB byte triple.
pub fn hsl_exec(r: u8, g: u8, b: u8) -> (v: (u8, u8, u8))
    ensures
        (v.0 as int, v.1 as int, v.2 as int) == hsl_of(r as int, g as int, b as int),
{
    let maxv: u32 = if r >= g && r >= b { r as u32 } else if g >= b { g as u32 } else { b as u32 };
    let minv: u32 = if r <= g && r <= b { r as u32 } else if g <= b { g as u32 } else { b as u32 };
    let c: u32 = maxv - minv;
    let l2: u32 = maxv + minv;
    let l: u64 = div_round_nn_exec(l2 as u64, 2);
    proof {
        lemma_div_round_nn_upper(l2 as int, 2, 255);
    }
    let s: u64 = if c == 0 || l2 == 0 || l2 == 510 {
        0
    } else {
        let m: u32 = if l2 <= 510 - l2 { l2 } else { 510 - l2 };
        proof {
            lemma_div_round_nn_upper(255 * c as int, m as int, 255);
        }
        div_round_nn_exec(255 * (c as u64), m as u64)
    };
    let h: u64 = if c == 0 {
        0
    } else {
        let h6c: u32 = if maxv == r as u32 {
            if g >= b { (g - b) as u32 } else { 6 * c - ((b - g) as u32) }
        } else if maxv == g as u32 {
            2 * c + (b as u32) - (r as u32)
        } else {
            4 * c + (r as u32) - (g as u32)
        };
        proof {
            lemma_div_round_nn_upper(255 * h6c as int, 6 * c as int, 255);
        }
        div_round_nn_exec(255 * (h6c as u64), 6 * (c as u64))
    };
    (h as u8, s as u8, l as u8)
}

/// Computes the RGB bytes of an HSL byte triple.
pub fn rgb_exec(h: u8, s: u8, l: u8) -> (v: (u8, u8, u8))
    ensures
        (v.0 as int, v.1 as int, v.2 as int) == rgb_of_hsl(h as int, s as int, l as int),
{
    let hh: u32 = 6 * (h as u32);
    let a2l: u32 = if 2 * (l as u32) >= 255 { 2 * (l as u32) - 255 } else { 255 - 2 * (l as u32) };
    proof {
        assert((255 - a2l as int) * (s as int) <= 65025) by (nonlinear_arith)
            requires
                a2l <= 255,
                s <= 255,
        ;
    }
    let c_num: u32 = (255 - a2l) * (s as u32);
    let hmod: u32 = hh % 510;
    let ax: u32 = if hmod >= 255 { hmod - 255 } else { 255 - hmod };
    proof {
        assert((c_num as int) * (255 - ax as int) <= 16581375) by (nonlinear_arith)
            requires
                c_num <= 65025,
                ax <= 255,
        ;
    }
    let x_num: u32 = c_num * (255 - ax);
    proof {
        assert(c_num <= (255 - a2l) * 255 && x_num <= c_num * 255) by (nonlinear_arith)
            requires
                c_num == (255 - a2l as int) * s,
                x_num == c_num * (255 - ax as int),
                a2l <= 255,
                s <= 255,
                ax <= 255,
        ;
    }
    let c_d: u64 = 510 * (c_num as u64);
    let x_d: u64 = 2 * (x_num as u64);
    // c <= 2 * l and c <= 2 * (1 - l), so m >= 0 and every channel value is at most 1.
    proof {
        assert(255 - a2l <= 2 * (l as int) && 255 - a2l <= 510 - 2 * (l as int));
        assert((255 - a2l as int) * 255 <= 2 * (l as int) * 255 && (255 - a2l as int) * 255
            <= (510 - 2 * (l as int)) * 255) by (nonlinear_arith)
            requires
                255 - a2l as int <= 2 * (l as int),
                255 - a2l as int <= 510 - 2 * (l as int),
        ;
    }
    let m_d: u64 = 130050 * (l as u64) - 255 * (c_num as u64);
    let hi: u64 = 33162750;
    proof {
        assert(c_d + m_d <= hi && x_d <= c_d);
        lemma_div_round_nn_upper((c_d + m_d) as int, 130050, 255);
        lemma_div_round_nn_upper((x_d + m_d) as int, 130050, 255);
        lemma_div_round_nn_upper(m_d as int, 130050, 255);
    }
    let rv: u64;
    let gv: u64;
    let bv: u64;
    if hh <= 255 {
        rv = div_round_nn_exec(c_d + m_d, 130050);
        gv = div_round_nn_exec(x_d + m_d, 130050);
        bv = div_round_nn_exec(m_d, 130050);
    } else if hh <= 510 {
        rv = div_round_nn_exec(x_d + m_d, 130050);
        gv = div_round_nn_exec(c_d + m_d, 130050);
        bv = div_round_nn_exec(m_d, 130050);
    } else if hh <= 765 {
        rv = div_round_nn_exec(m_d, 130050);
        gv = div_round_nn_exec(c_d + m_d, 130050);
        bv = div_round_nn_exec(x_d + m_d, 130050);
    } else if hh <= 1020 {
        rv = div_round_nn_exec(m_d, 130050);
        gv = div_round_nn_exec(x_d + m_d, 130050);
        bv = div_round_nn_exec(c_d + m_d, 130050);
    } else if hh <= 1275 {
        rv = div_round_nn_exec(x_d + m_d, 130050);
        gv = div_round_nn_exec(m_d, 130050);
        bv = div_round_nn_exec(c_d + m_d, 130050);
    } else {
        rv = div_round_nn_exec(c_d + m_d, 130050);
        gv = div_round_nn_exec(m_d, 130050);
        bv = div_round_nn_exec(x_d + m_d, 130050);
    }
    (rv as u8, gv as u8, bv as u8)
}

impl<T: ImageData> Image<T> {
    /// Keeps channel 0 of every pixel of a gray-tagged buffer, producing a
    /// single-channel gray buffer.
    pub fn to_single_channel(&self) -> (r: Image<T>)
        requires
            self.wf(),
            self.color == ColorSpace::Gray,
            self.channels >= 1,
        ensures
            r.wf(),
            r.height == self.height,
            r.width == self.width,
            r.channels == 1,
            r.color == ColorSpace::Gray,
            r.data@.len() == self.height * self.width,
            forall|q: int| 0 <= q < r.data@.len() ==>
                r.data@[q] == self.data@[q * self.channels],
    {
        let npix = self.height * self.width;
        proof {
            vstd::arithmetic::mul::lemma_mul_inequality(1, self.channels as int,
                (self.height * self.width) as int);
            assert((self.height * self.width) as int * self.channels as int
                == self.height * self.width * self.channels) by (nonlinear_arith);
        }
        let mut data: Vec<T> = Vec::new();
        let mut q: usize = 0;
        while q < npix
            invariant
                self.wf(),
                self.channels >= 1,
                q <= npix,
                npix == self.height * self.width,
                npix * self.channels == self.data@.len(),
                data@.len() == q,
                forall|k: int| 0 <= k < q ==> data@[k] == self.data@[k * self.channels],
            decreases npix - q,
        {
            proof {
                assert(q * self.channels < npix * self.channels
                    && (q + 1) * self.channels <= npix * self.channels
                    && q * self.channels + self.channels == (q + 1) * self.channels)
                    by (nonlinear_arith)
                    requires
                        q < npix,
                        self.channels >= 1,
                ;
            }
            data.push(self.data[q * self.channels]);
            q = q + 1;
        }
        Image {
            height: self.height,
            width: self.width,
            channels: 1,
            color: ColorSpace::Gray,
            data,
        }
    }

    /// Replicates the single channel of a buffer into three channels.
    pub fn to_three_channels(&self) -> (r: Image<T>)
        requires
            self.wf(),
            self.channels == 1,
            self.height * self.width * 3 <= usize::MAX,
        ensures
            r.wf(),
            r.height == self.height,
            r.width == self.width,
            r.channels == 3,
            r.color == ColorSpace::RGB,
            r.data@.len() == self.height * self.width * 3,
            forall|q: int| 0 <= q < self.height * self.width ==>
                r.data@[3 * q] == self.data@[q]
                && r.data@[3 * q + 1] == self.data@[q]
                && r.data@[3 * q + 2] == self.data@[q],
    {
        let npix = self.height * self.width;
        let mut data: Vec<T> = Vec::new();
        let mut q: usize = 0;
        while q < npix
            invariant
                self.wf(),
                self.channels == 1,
                q <= npix,
                npix == self.height * self.width,
                npix == self.data@.len(),
                npix * 3 <= usize::MAX,
                data@.len() == 3 * q,
                forall|k: int| 0 <= k < q ==>
                    data@[3 * k] == self.data@[k]
                    && data@[3 * k + 1] == self.data@[k]
                    && data@[3 * k + 2] == self.data@[k],
            decreases npix - q,
        {
            proof {
                assert(3 * q + 3 <= 3 * npix && 3 * npix == npix * 3);
            }
            let v = self.data[q];
            data.push(v);
            data.push(v);
            data.push(v);
            q = q + 1;
        }
        proof {
            assert(data@.len() == self.height * self.width * 3) by (nonlinear_arith)
                requires
                    data@.len() == 3 * npix,
                    npix == self.height * self.width,
            ;
            assert((self.height * self.width) as int <= self.height * self.width * 3);
        }
        Image {
            height: self.height,
            width: self.width,
            channels: 3,
            color: ColorSpace::RGB,
            data,
        }
    }

    fn rgb_to_grayscale(&mut self)
        requires
            old(self).wf(),
            old(self).channels == 3,
            old(self).color == ColorSpace::RGB,
        ensures
            final(self).wf(),
            final(self).height == old(self).height,
            final(self).width == old(self).width,
            final(self).channels == 3,
            final(self).color == ColorSpace::Gray,
            final(self).data@.len() == old(self).data@.len(),
            forall|q: int| #![trigger rgb3(old(self).data@, q)] 0 <= q < old(self).height * old(self).width ==> {
                let y = luma_of(rgb3(old(self).data@, q).0, rgb3(old(self).data@, q).1,
                    rgb3(old(self).data@, q).2);
                final(self).data@[3 * q] == T::requantize(y as u8)
                    && final(self).data@[3 * q + 1] == T::requantize(y as u8)
                    && final(self).data@[3 * q + 2] == T::requantize(y as u8)
            },
    {
        let ghost odata = self.data@;
        let npix = self.height * self.width;
        proof {
            lemma_pixels3(self.height as int, self.width as int, self.data@.len() as int);
        }
        let mut q: usize = 0;
        while q < npix
            invariant
                self.wf(),
                self.height == old(self).height,
                self.width == old(self).width,
                self.channels == 3,
                self.color == old(self).color,
                q <= npix,
                npix == self.height * self.width,
                self.data@.len() == odata.len(),
                3 * npix == odata.len(),
                forall|k: int| 3 * q <= k < odata.len() ==> self.data@[k] == odata[k],
                forall|k: int| #![trigger rgb3(odata, k)] 0 <= k < q ==> {
                    let y = luma_of(rgb3(odata, k).0, rgb3(odata, k).1, rgb3(odata, k).2);
                    self.data@[3 * k] == T::requantize(y as u8)
                        && self.data@[3 * k + 1] == T::requantize(y as u8)
                        && self.data@[3 * k + 2] == T::requantize(y as u8)
                },
            decreases npix - q,
        {
            let base = 3 * q;
            let r = self.data[base].to_u8();
            let g = self.data[base + 1].to_u8();
            let b = self.data[base + 2].to_u8();
            let y = luma_exec(r, g, b);
            let t = T::from_u8(y);
            self.data.set(base, t);
            self.data.set(base + 1, t);
            self.data.set(base + 2, t);
            q = q + 1;
        }
        self.color = ColorSpace::Gray;
    }

    fn rgb_to_hsl(&mut self)
        requires
            old(self).wf(),
            old(self).channels == 3,
            old(self).color == ColorSpace::RGB,
        ensures
            final(self).wf(),
            final(self).height == old(self).height,
            final(self).width == old(self).width,
            final(self).channels == 3,
            final(self).color == ColorSpace::HSL,
            final(self).data@.len() == old(self).data@.len(),
            forall|q: int| #![trigger rgb3(old(self).data@, q)] 0 <= q < old(self).height * old(self).width ==> {
                let v = hsl_of(rgb3(old(self).data@, q).0, rgb3(old(self).data@, q).1,
                    rgb3(old(self).data@, q).2);
                final(self).data@[3 * q] == T::requantize(v.0 as u8)
                    && final(self).data@[3 * q + 1] == T::requantize(v.1 as u8)
                    && final(self).data@[3 * q + 2] == T::requantize(v.2 as u8)
            },
    {
        let ghost odata = self.data@;
        let npix = self.height * self.width;
        proof {
            lemma_pixels3(self.height as int, self.width as int, self.data@.len() as int);
        }
        let mut q: usize = 0;
        while q < npix
            invariant
                self.wf(),
                self.height == old(self).height,
                self.width == old(self).width,
                self.channels == 3,
                self.color == old(self).color,
                q <= npix,
                npix == self.height * self.width,
                self.data@.len() == odata.len(),
                3 * npix == odata.len(),
                forall|k: int| 3 * q <= k < odata.len() ==> self.data@[k] == odata[k],
                forall|k: int| #![trigger rgb3(odata, k)] 0 <= k < q ==> {
                    let v = hsl_of(rgb3(odata, k).0, rgb3(odata, k).1, rgb3(odata, k).2);
                    self.data@[3 * k] == T::requantize(v.0 as u8)
                        && self.data@[3 * k + 1] == T::requantize(v.1 as u8)
                        && self.data@[3 * k + 2] == T::requantize(v.2 as u8)
                },
            decreases npix - q,
        {
            let base = 3 * q;
            let r = self.data[base].to_u8();
            let g = self.data[base + 1].to_u8();
            let b = self.data[base + 2].to_u8();
            let v = hsl_exec(r, g, b);
            self.data.set(base, T::from_u8(v.0));
            self.data.set(base + 1, T::from_u8(v.1));
            self.data.set(base + 2, T::from_u8(v.2));
            q = q + 1;
        }
        self.color = ColorSpace::HSL;
    }

    fn hsl_to_rgb(&mut self)
        requires
            old(self).wf(),
            old(self).channels == 3,
            old(self).color == ColorSpace::HSL,
        ensures
            final(self).wf(),
            final(self).height == old(self).height,
            final(self).width == old(self).width,
            final(self).channels == 3,
            final(self).color == ColorSpace::RGB,
            final(self).data@.len() == old(self).data@.len(),
            forall|q: int| #![trigger rgb3(old(self).data@, q)] 0 <= q < old(self).height * old(self).width ==> {
                let v = rgb_of_hsl(rgb3(old(self).data@, q).0, rgb3(old(self).data@, q).1,
                    rgb3(old(self).data@, q).2);
                final(self).data@[3 * q] == T::requantize(v.0 as u8)
                    && final(self).data@[3 * q + 1] == T::requantize(v.1 as u8)
                    && final(self).data@[3 * q + 2] == T::requantize(v.2 as u8)
            },
    {
        let ghost odata = self.data@;
        let npix = self.height * self.width;
        proof {
            lemma_pixels3(self.height as int, self.width as int, self.data@.len() as int);
        }
        let mut q: usize = 0;
        while q < npix
            invariant
                self.wf(),
                self.height == old(self).height,
                self.width == old(self).width,
                self.channels == 3,
                self.color == old(self).color,
                q <= npix,
                npix == self.height * self.width,
                self.data@.len() == odata.len(),
                3 * npix == odata.len(),
                forall|k: int| 3 * q <= k < odata.len() ==> self.data@[k] == odata[k],
                forall|k: int| #![trigger rgb3(odata, k)] 0 <= k < q ==> {
                    let v = rgb_of_hsl(rgb3(odata, k).0, rgb3(odata, k).1, rgb3(odata, k).2);
                    self.data@[3 * k] == T::requantize(v.0 as u8)
                        && self.data@[3 * k + 1] == T::requantize(v.1 as u8)
                        && self.data@[3 * k + 2] == T::requantize(v.2 as u8)
                },
            decreases npix - q,
        {
            let base = 3 * q;
            let h = self.data[base].to_u8();
            let s = self.data[base + 1].to_u8();
            let l = self.data[base + 2].to_u8();
            let v = rgb_exec(h, s, l);
            self.data.set(base, T::from_u8(v.0));
            self.data.set(base + 1, T::from_u8(v.1));
            self.data.set(base + 2, T::from_u8(v.2));
            q = q + 1;
        }
        self.color = ColorSpace::RGB;
    }

    fn hsl_to_gray(&mut self)
        requires
            old(self).wf(),
            old(self).channels == 3,
            old(self).color == ColorSpace::HSL,
        ensures
            final(self).wf(),
            final(self).height == old(self).height,
            final(self).width == old(self).width,
            final(self).channels == 1,
            final(self).color == ColorSpace::Gray,
            final(self).data@.len() == old(self).height * old(self).width,
            forall|q: int| 0 <= q < final(self).data@.len() ==>
                final(self).data@[q] == old(self).data@[3 * q + 2],
    {
        let npix = self.height * self.width;
        proof {
            lemma_pixels3(self.height as int, self.width as int, self.data@.len() as int);
        }
        let mut data: Vec<T> = Vec::new();
        let mut q: usize = 0;
        while q < npix
            invariant
                self.wf(),
                self.channels == 3,
                q <= npix,
                npix == self.height * self.width,
                3 * npix == self.data@.len(),
                data@.len() == q,
                forall|k: int| 0 <= k < q ==> data@[k] == self.data@[3 * k + 2],
            decreases npix - q,
        {
            data.push(self.data[3 * q + 2]);
            q = q + 1;
        }
        proof {
            vstd::arithmetic::mul::lemma_mul_inequality(
                (self.height * self.width) as int,
                3 * (self.height * self.width) as int, 1);
            assert((self.height * self.width) as int * 1 == self.height * self.width)
                by (nonlinear_arith);
        }
        let r = Image {
            height: self.height,
            width: self.width,
            channels: 1,
            color: ColorSpace::Gray,
            data,
        };
        *self = r;
    }

    /// Converts the buffer to grayscale in place and tags it Gray. A gray
    /// buffer is left untouched; an RGB buffer keeps three (equal) channels;
    /// an HSL buffer collapses to its single lightness channel.
    pub fn grayscale(&mut self)
        requires
            old(self).wf(),
            old(self).color != ColorSpace::Gray ==> old(self).channels == 3,
        ensures
            final(self).wf(),
            final(self).height == old(self).height,
            final(self).width == old(self).width,
            final(self).color == ColorSpace::Gray,
            old(self).color == ColorSpace::Gray ==> *final(self) == *old(self),
            old(self).color == ColorSpace::RGB ==> {
                &&& final(self).channels == 3
                &&& final(self).data@.len() == old(self).data@.len()
                &&& forall|q: int| #![trigger rgb3(old(self).data@, q)] 0 <= q < old(self).height * old(self).width ==> {
                    let y = luma_of(rgb3(old(self).data@, q).0, rgb3(old(self).data@, q).1,
                        rgb3(old(self).data@, q).2);
                    final(self).data@[3 * q] == T::requantize(y as u8)
                        && final(self).data@[3 * q + 1] == T::requantize(y as u8)
                        && final(self).data@[3 * q + 2] == T::requantize(y as u8)
                }
            },
            old(self).color == ColorSpace::HSL ==> {
                &&& final(self).channels == 1
                &&& final(self).data@.len() == old(self).height * old(self).width
                &&& forall|q: int| 0 <= q < final(self).data@.len() ==>
                    final(self).data@[q] == old(self).data@[3 * q + 2]
            },
    {
        match self.color {
            ColorSpace::Gray => {},
            ColorSpace::RGB => self.rgb_to_grayscale(),
            ColorSpace::HSL => self.hsl_to_gray(),
        }
    }

    /// Converts the buffer to HSL in place and tags it HSL. An HSL buffer is
    /// left untouched; a single-channel gray buffer is replicated to three
    /// channels first, and a three-channel gray buffer (equal channels, as
    /// `grayscale` leaves them) converts by the RGB formulas directly.
    pub fn hsl(&mut self)
        requires
            old(self).wf(),
            old(self).color == ColorSpace::RGB ==> old(self).channels == 3,
            old(self).color == ColorSpace::Gray ==> old(self).channels == 3
                || (old(self).channels == 1
                    && old(self).height * old(self).width * 3 <= usize::MAX),
        ensures
            final(self).wf(),
            final(self).height == old(self).height,
            final(self).width == old(self).width,
            final(self).color == ColorSpace::HSL,
            old(self).color == ColorSpace::HSL ==> *final(self) == *old(self),
            old(self).color == ColorSpace::RGB ==> {
                &&& final(self).channels == 3
                &&& final(self).data@.len() == old(self).data@.len()
                &&& forall|q: int| #![trigger rgb3(old(self).data@, q)] 0 <= q < old(self).height * old(self).width ==> {
                    let v = hsl_of(rgb3(old(self).data@, q).0, rgb3(old(self).data@, q).1,
                        rgb3(old(self).data@, q).2);
                    final(self).data@[3 * q] == T::requantize(v.0 as u8)
                        && final(self).data@[3 * q + 1] == T::requantize(v.1 as u8)
                        && final(self).data@[3 * q + 2] == T::requantize(v.2 as u8)
                }
            },
            old(self).color == ColorSpace::Gray && old(self).channels == 1 ==> {
                &&& final(self).channels == 3
                &&& final(self).data@.len() == old(self).height * old(self).width * 3
                &&& forall|q: int| #![trigger old(self).data@[q]] 0 <= q < old(self).height * old(self).width ==> {
                    let w = old(self).data@[q].byte() as int;
                    let v = hsl_of(w, w, w);
                    final(self).data@[3 * q] == T::requantize(v.0 as u8)
                        && final(self).data@[3 * q + 1] == T::requantize(v.1 as u8)
                        && final(self).data@[3 * q + 2] == T::requantize(v.2 as u8)
                }
            },
            old(self).color == ColorSpace::Gray && old(self).channels == 3 ==> {
                &&& final(self).channels == 3
                &&& final(self).data@.len() == old(self).data@.len()
                &&& forall|q: int| #![trigger rgb3(old(self).data@, q)] 0 <= q < old(self).height * old(self).width ==> {
                    let v = hsl_of(rgb3(old(self).data@, q).0, rgb3(old(self).data@, q).1,
                        rgb3(old(self).data@, q).2);
                    final(self).data@[3 * q] == T::requantize(v.0 as u8)
                        && final(self).data@[3 * q + 1] == T::requantize(v.1 as u8)
                        && final(self).data@[3 * q + 2] == T::requantize(v.2 as u8)
                }
            },
    {
        match self.color {
            ColorSpace::Gray => {
                if self.channels == 1 {
                    let ghost orig_data = self.data@;
                    let expanded = self.to_three_channels();
                    let ghost edata = expanded.data@;
                    *self = expanded;
                    self.rgb_to_hsl();
                    proof {
                        assert forall|q: int| #![trigger orig_data[q]]
                            0 <= q < old(self).height * old(self).width implies {
                            let w = orig_data[q].byte() as int;
                            let v = hsl_of(w, w, w);
                            self.data@[3 * q] == T::requantize(v.0 as u8)
                                && self.data@[3 * q + 1] == T::requantize(v.1 as u8)
                                && self.data@[3 * q + 2] == T::requantize(v.2 as u8)
                        } by {
                            let w = orig_data[q].byte() as int;
                            assert(edata[3 * q] == orig_data[q]);
                            assert(edata[3 * q + 1] == orig_data[q]);
                            assert(edata[3 * q + 2] == orig_data[q]);
                            assert(rgb3(edata, q) == (w, w, w));
                        }
                    }
                } else {
                    self.color = ColorSpace::RGB;
                    self.rgb_to_hsl();
                }
            },
            ColorSpace::RGB => self.rgb_to_hsl(),
            ColorSpace::HSL => {},
        }
    }

    /// Converts the buffer to RGB in place and tags it RGB. An RGB buffer is
    /// left untouched. A gray buffer is refused: there is no color to recover;
    /// use `to_three_channels` or `fake_color` instead.
    pub fn rgb(&mut self)
        requires
            old(self).wf(),
            old(self).color != ColorSpace::Gray,
            old(self).color == ColorSpace::HSL ==> old(self).channels == 3,
        ensures
            final(self).wf(),
            final(self).height == old(self).height,
            final(self).width == old(self).width,
            final(self).color == ColorSpace::RGB,
            old(self).color == ColorSpace::RGB ==> *final(self) == *old(self),
            old(self).color == ColorSpace::HSL ==> {
                &&& final(self).channels == 3
                &&& final(self).data@.len() == old(self).data@.len()
                &&& forall|q: int| #![trigger rgb3(old(self).data@, q)] 0 <= q < old(self).height * old(self).width ==> {
                    let v = rgb_of_hsl(rgb3(old(self).data@, q).0, rgb3(old(self).data@, q).1,
                        rgb3(old(self).data@, q).2);
                    final(self).data@[3 * q] == T::requantize(v.0 as u8)
                        && final(self).data@[3 * q + 1] == T::requantize(v.1 as u8)
                        && final(self).data@[3 * q + 2] == T::requantize(v.2 as u8)
                }
            },
    {
        match self.color {
            ColorSpace::Gray => {},
            ColorSpace::RGB => {},
            ColorSpace::HSL => self.hsl_to_rgb(),
        }
    }

    /// Marks every sample strictly above the threshold, as a single-channel
    /// boolean gray buffer.
    pub fn threshold(&self, thres: T) -> (r: Image<bool>)
        requires
            self.wf(),
            self.channels == 1,
        ensures
            r.wf(),
            r.height == self.height,
            r.width == self.width,
            r.channels == 1,
            r.color == ColorSpace::Gray,
            r.data@.len() == self.data@.len(),
            forall|k: int| 0 <= k < r.data@.len() ==>
                r.data@[k] == (self.data@[k].byte() > thres.byte()),
    {
        let n = self.data.len();
        let mut data: Vec<bool> = Vec::new();
        let mut k: usize = 0;
        while k < n
            invariant
                k <= n,
                n == self.data@.len(),
                data@.len() == k,
                forall|i: int| 0 <= i < k ==> data@[i] == (self.data@[i].byte() > thres.byte()),
            decreases n - k,
        {
            data.push(!self.data[k].le(thres));
            k = k + 1;
        }
        Image {
            height: self.height,
            width: self.width,
            channels: 1,
            color: ColorSpace::Gray,
            data,
        }
    }
}

/// The largest byte value of a sample sequence (0 when empty).
pub open spec fn max_byte_of<T: ImageData>(s: Seq<T>) -> int
    decreases s.len(),
{
    if s.len() == 0 {
        0
    } else {
        let m = max_byte_of(s.drop_last());
        if s.last().byte() >= m {
            s.last().byte() as int
        } else {
            m
        }
    }
}

/// Every sample's byte is at most the sequence's maximum byte, which is at
/// most 255.
pub proof fn lemma_max_byte_of<T: ImageData>(s: Seq<T>)
    ensures
        0 <= max_byte_of(s) <= 255,
        forall|i: int| 0 <= i < s.len() ==> s[i].byte() <= max_byte_of(s),
    decreases s.len(),
{
    if s.len() > 0 {
        lemma_max_byte_of(s.drop_last());
        assert(forall|i: int| 0 <= i < s.len() - 1 ==> s[i] == s.drop_last()[i]);
    }
}

/// In a well-formed three-channel buffer the sample vector splits into
/// height * width contiguous pixel triples.
proof fn lemma_pixels3(h: int, w: int, len: int)
    requires
        h >= 0,
        w >= 0,
        len == h * w * 3,
    ensures
        len == 3 * (h * w),
        h * w <= len,
{
    assert(h * w * 3 == 3 * (h * w) && h * w <= h * w * 3) by (nonlinear_arith)
        requires
            h >= 0,
            w >= 0,
    ;
}

impl<T: ImageData> Image<T> {
    /// Rescales every sample so that the largest byte becomes 255. A buffer
    /// whose samples are all zero is left unchanged.
    pub fn normalize(&mut self)
        requires
            old(self).wf(),
        ensures
            final(self).wf(),
            final(self).height == old(self).height,
            final(self).width == old(self).width,
            final(self).channels == old(self).channels,
            final(self).color == old(self).color,
            max_byte_of(old(self).data@) == 0 ==> *final(self) == *old(self),
            max_byte_of(old(self).data@) > 0 ==> {
                &&& final(self).data@.len() == old(self).data@.len()
                &&& forall|k: int| 0 <= k < old(self).data@.len() ==>
                    final(self).data@[k] == T::requantize(
                        div_round_nn(255 * old(self).data@[k].byte(),
                            max_byte_of(old(self).data@)) as u8)
            },
    {
        let ghost odata = self.data@;
        let n = self.data.len();
        let mut m: u8 = 0;
        let mut k: usize = 0;
        while k < n
            invariant
                k <= n,
                n == self.data@.len(),
                self.data@ == odata,
                m == max_byte_of(odata.subrange(0, k as int)),
            decreases n - k,
        {
            let v = self.data[k].to_u8();
            proof {
                assert(odata.subrange(0, k + 1).drop_last() =~= odata.subrange(0, k as int));
                assert(odata.subrange(0, k + 1).last() == odata[k as int]);
            }
            if v > m {
                m = v;
            }
            k = k + 1;
        }
        proof {
            assert(odata.subrange(0, n as int) =~= odata);
            lemma_max_byte_of(odata);
        }
        if m == 0 {
            return ;
        }
        let mut k: usize = 0;
        while k < n
            invariant
                k <= n,
                n == odata.len(),
                self.wf(),
                self.height == old(self).height,
                self.width == old(self).width,
                self.channels == old(self).channels,
                self.color == old(self).color,
                self.data@.len() == odata.len(),
                m == max_byte_of(odata),
                m > 0,
                forall|i: int| k <= i < n ==> self.data@[i] == odata[i],
                forall|i: int| 0 <= i < k ==> self.data@[i] == T::requantize(
                    div_round_nn(255 * odata[i].byte(), m as int) as u8),
            decreases n - k,
        {
            let v = self.data[k].to_u8();
            proof {
                lemma_max_byte_of(odata);
                assert(self.data@[k as int] == odata[k as int]);
                assert(odata[k as int].byte() <= max_byte_of(odata));
                assert(v <= m);
                lemma_div_round_nn_upper(255 * v as int, m as int, 255);
            }
            let scaled = div_round_nn_exec(255 * (v as u64), m as u64);
            self.data.set(k, T::from_u8(scaled as u8));
            k = k + 1;
        }
    }
}


/// `v` clamped into `lo..=hi`.
pub open spec fn clampi(v: int, lo: int, hi: int) -> int {
    if v < lo {
        lo
    } else if v > hi {
        hi
    } else {
        v
    }
}

/// `v` clamped into the byte range.
pub open spec fn clamp_byte(v: int) -> int {
    clampi(v, 0, 255)
}

/// The byte of channel `c` of pixel (`x`, `y`) in a flat byte sequence of
/// width `w` and `ch` channels.
pub open spec fn at_byte(s: Seq<u8>, w: int, ch: int, x: int, y: int, c: int) -> int {
    s[(w * y + x) * ch + c] as int
}

/// The byte a sliding window sees at (`x`, `y`, `c`): the stored sample when
/// the coordinates are inside the buffer, otherwise what the padding policy
/// fabricates (zero, or the sample at the clamped coordinates).
pub open spec fn padded_byte(
    s: Seq<u8>, w: int, h: int, ch: int, x: int, y: int, c: int, padding: Padding,
) -> int {
    if 0 <= x < w && 0 <= y < h {
        at_byte(s, w, ch, x, y, c)
    } else {
        match padding {
            Padding::Zeros => 0,
            Padding::Repeat => at_byte(s, w, ch, clampi(x, 0, w - 1), clampi(y, 0, h - 1), c),
        }
    }
}

/// The window samples of channel `c` around (`x`, `y`), in row-major order,
/// for half-width `hw` and half-height `hh`.
pub open spec fn window_seq(
    s: Seq<u8>, w: int, h: int, ch: int, hw: int, hh: int, x: int, y: int, c: int,
    padding: Padding,
) -> Seq<u8> {
    Seq::new(((2 * hh + 1) * (2 * hw + 1)) as nat, |k: int|
        padded_byte(s, w, h, ch, x - hw + k % (2 * hw + 1), y - hh + k / (2 * hw + 1), c,
            padding) as u8)
}

/// The first `k` terms of the kernel-weighted sum of the window around
/// (`x`, `y`, `c`): kernel entries pair with window offsets in row-major order.
pub open spec fn conv_sum_upto(
    s: Seq<u8>, w: int, h: int, ch: int, win: Seq<i64>, hw: int, hh: int, x: int, y: int,
    c: int, padding: Padding, k: int,
) -> int
    decreases k,
{
    if k <= 0 {
        0
    } else {
        conv_sum_upto(s, w, h, ch, win, hw, hh, x, y, c, padding, k - 1) + win[k - 1]
            * padded_byte(s, w, h, ch, x - hw + (k - 1) % (2 * hw + 1),
                y - hh + (k - 1) / (2 * hw + 1), c, padding)
    }
}

/// The full kernel-weighted sum of the window around (`x`, `y`, `c`).
pub open spec fn conv_sum(
    s: Seq<u8>, w: int, h: int, ch: int, win: Seq<i64>, hw: int, hh: int, x: int, y: int,
    c: int, padding: Padding,
) -> int {
    conv_sum_upto(s, w, h, ch, win, hw, hh, x, y, c, padding, win.len() as int)
}

/// The byte a convolution stores: the weighted sum divided by the kernel
/// divisor, rounded to nearest, clamped into the byte range.
pub open spec fn conv_value(
    s: Seq<u8>, w: int, h: int, ch: int, win: Seq<i64>, hw: int, hh: int, divisor: int,
    x: int, y: int, c: int, padding: Padding,
) -> int {
    clamp_byte(crate::arith::div_round(
        conv_sum(s, w, h, ch, win, hw, hh, x, y, c, padding), divisor))
}

/// The sum of absolute values of a kernel.
pub open spec fn sum_abs_i64(s: Seq<i64>) -> int
    decreases s.len(),
{
    if s.len() == 0 {
        0
    } else {
        sum_abs_i64(s.drop_last()) + (if s.last() >= 0 { s.last() as int } else {
            -(s.last() as int)
        })
    }
}

/// The sum of a kernel's entries.
pub open spec fn sum_i64(s: Seq<i64>) -> int
    decreases s.len(),
{
    if s.len() == 0 {
        0
    } else {
        sum_i64(s.drop_last()) + s.last()
    }
}

/// A sum of absolute values grows by `|s[k]|` with each prefix step.
pub proof fn lemma_sum_abs_prefix(s: Seq<i64>, k: int)
    requires
        0 <= k < s.len(),
    ensures
        sum_abs_i64(s.take(k + 1)) == sum_abs_i64(s.take(k)) + (if s[k] >= 0 { s[k] as int } else {
            -(s[k] as int)
        }),
{
    assert(s.take(k + 1).drop_last() =~= s.take(k));
    assert(s.take(k + 1).last() == s[k]);
}

/// A prefix's sum of absolute values is at most the whole kernel's.
pub proof fn lemma_sum_abs_take_le(s: Seq<i64>, k: int)
    requires
        0 <= k <= s.len(),
    ensures
        sum_abs_i64(s.take(k)) <= sum_abs_i64(s),
    decreases s.len() - k,
{
    if k == s.len() {
        assert(s.take(k) =~= s);
    } else {
        lemma_sum_abs_take_le(s, k + 1);
        lemma_sum_abs_prefix(s, k);
    }
}

/// A sum of absolute values is non-negative.
pub proof fn lemma_sum_abs_nonneg(s: Seq<i64>)
    ensures
        sum_abs_i64(s) >= 0,
    decreases s.len(),
{
    if s.len() > 0 {
        lemma_sum_abs_nonneg(s.drop_last());
    }
}

impl<T: ImageData> Image<T> {
    /// The core windowed-iteration primitive: the bytes channel `c` shows
    /// under a window of half-width `hw` and half-height `hh` centred at
    /// (`x`, `y`), in row-major order, padded by the given policy.
    pub fn sliding_window(&self, x: usize, y: usize, hw: usize, hh: usize, c: usize,
        padding: Padding) -> (r: Vec<u8>)
        requires
            self.wf(),
            x < self.width,
            y < self.height,
            c < self.channels,
            self.width < 0x4000_0000,
            self.height < 0x4000_0000,
            hw <= 0x1000,
            hh <= 0x1000,
        ensures
            r@.len() == (2 * hh + 1) * (2 * hw + 1),
            forall|k: int| 0 <= k < r@.len() ==> r@[k] == padded_byte(self.bytes(),
                self.width as int, self.height as int, self.channels as int,
                x - hw + k % (2 * hw as int + 1), y - hh + k / (2 * hw as int + 1), c as int,
                padding),
    {
        let side_w: usize = 2 * hw + 1;
        let side_h: usize = 2 * hh + 1;
        let mut r: Vec<u8> = Vec::new();
        let mut wy: usize = 0;
        while wy < side_h
            invariant
                self.wf(),
                x < self.width,
                y < self.height,
                c < self.channels,
                self.width < 0x4000_0000,
                self.height < 0x4000_0000,
                hw <= 0x1000,
                hh <= 0x1000,
                side_w == 2 * hw + 1,
                side_h == 2 * hh + 1,
                wy <= side_h,
                r@.len() == wy * side_w,
                forall|k: int| 0 <= k < r@.len() ==> r@[k] == padded_byte(self.bytes(),
                    self.width as int, self.height as int, self.channels as int,
                    x - hw + k % (side_w as int), y - hh + k / (side_w as int), c as int,
                    padding),
            decreases side_h - wy,
        {
            let mut wx: usize = 0;
            proof {
                assert((wy + 1) * side_w == wy * side_w + side_w) by (nonlinear_arith);
                assert(wy * side_w + side_w <= side_h * side_w) by (nonlinear_arith)
                    requires
                        wy + 1 <= side_h,
                        side_w >= 1,
                        wy >= 0,
                        (wy + 1) * side_w == wy * side_w + side_w,
                ;
                assert(side_h * side_w <= 0x2001 * 0x2001) by (nonlinear_arith)
                    requires
                        side_h <= 0x2001,
                        side_w <= 0x2001,
                        side_h >= 0,
                        side_w >= 0,
                ;
            }
            while wx < side_w
                invariant
                    self.wf(),
                    x < self.width,
                    y < self.height,
                    c < self.channels,
                    self.width < 0x4000_0000,
                    self.height < 0x4000_0000,
                    hw <= 0x1000,
                    hh <= 0x1000,
                    side_w == 2 * hw + 1,
                    side_h == 2 * hh + 1,
                    wy < side_h,
                    wx <= side_w,
                    wy * side_w + side_w <= side_h * side_w,
                    side_h * side_w <= 0x2001 * 0x2001,
                    r@.len() == wy * side_w + wx,
                    forall|k: int| 0 <= k < r@.len() ==> r@[k] == padded_byte(self.bytes(),
                        self.width as int, self.height as int, self.channels as int,
                        x - hw + k % (side_w as int), y - hh + k / (side_w as int), c as int,
                        padding),
                decreases side_w - wx,
            {
                let ux = x + wx;
                let uy = y + wy;
                let ghost tx: int = x - hw + wx;
                let ghost ty: int = y - hh + wy;
                let inside = ux >= hw && ux - hw < self.width && uy >= hh
                    && uy - hh < self.height;
                let v: u8;
                if inside {
                    v = self.get_sample(ux - hw, uy - hh, c).to_u8();
                } else {
                    match padding {
                        Padding::Zeros => {
                            v = 0;
                        },
                        Padding::Repeat => {
                            let cx = if ux < hw { 0 } else if ux - hw >= self.width {
                                self.width - 1
                            } else {
                                ux - hw
                            };
                            let cy = if uy < hh { 0 } else if uy - hh >= self.height {
                                self.height - 1
                            } else {
                                uy - hh
                            };
                            proof {
                                assert(cx as int == clampi(tx, 0, self.width as int - 1));
                                assert(cy as int == clampi(ty, 0, self.height as int - 1));
                            }
                            v = self.get_sample(cx, cy, c).to_u8();
                        },
                    }
                }
                proof {
                    assert(v == padded_byte(self.bytes(), self.width as int,
                        self.height as int, self.channels as int, tx, ty, c as int, padding));
                    let k = wy * side_w + wx;
                    crate::arith::lemma_decompose(k as int, side_w as int, wy as int,
                        wx as int);
                }
                r.push(v);
                wx = wx + 1;
            }
            wy = wy + 1;
        }
        proof {
            assert(side_h * side_w == (2 * hh + 1) * (2 * hw + 1));
        }
        r
    }
}

/// Pixels strictly before (`y`, `x`, `c`) in row-major (y, x, c) order have
/// strictly smaller flat indices.
proof fn lemma_index_lex_lt(w: int, ch: int, y1: int, x1: int, c1: int, y2: int, x2: int,
    c2: int)
    requires
        0 <= x1 < w,
        0 <= c1 < ch,
        0 <= x2 < w,
        0 <= c2 < ch,
        0 <= y1,
        0 <= y2,
        y1 < y2 || (y1 == y2 && x1 < x2) || (y1 == y2 && x1 == x2 && c1 < c2),
    ensures
        (w * y1 + x1) * ch + c1 < (w * y2 + x2) * ch + c2,
{
    assert((w * y1 + x1) * ch + c1 < (w * y2 + x2) * ch + c2) by (nonlinear_arith)
        requires
            0 <= x1 < w,
            0 <= c1 < ch,
            0 <= x2 < w,
            0 <= c2 < ch,
            0 <= y1,
            0 <= y2,
            y1 < y2 || (y1 == y2 && x1 < x2) || (y1 == y2 && x1 == x2 && c1 < c2),
    ;
}

impl<T: ImageData> Image<T> {
    /// Convolution with an integer kernel and divisor: every output sample is
    /// the kernel-weighted sum of the window around it in a snapshot of the
    /// input, divided by `divisor` (rounded to nearest) and clamped to the
    /// byte range. The kernel has `(2 * height + 1) * (2 * width + 1)` weights
    /// in row-major order.
    pub fn convolution(&mut self, height: usize, width: usize, window: &Vec<i64>,
        divisor: i64, padding: Padding)
        requires
            old(self).wf(),
            window@.len() == (2 * height + 1) * (2 * width + 1),
            1 <= divisor < 0x2000_0000_0000_0000,
            sum_abs_i64(window@) <= 0x20_0000_0000_0000,
            old(self).width < 0x4000_0000,
            old(self).height < 0x4000_0000,
            width <= 0x1000,
            height <= 0x1000,
        ensures
            final(self).wf(),
            final(self).height == old(self).height,
            final(self).width == old(self).width,
            final(self).channels == old(self).channels,
            final(self).color == old(self).color,
            final(self).data@.len() == old(self).data@.len(),
            forall|xx: int, yy: int, cc: int|
                0 <= xx < old(self).width && 0 <= yy < old(self).height
                    && 0 <= cc < old(self).channels
                    ==> final(self).data@[(old(self).width * yy + xx) * old(self).channels
                        + cc] == T::requantize(conv_value(old(self).bytes(),
                            old(self).width as int, old(self).height as int,
                            old(self).channels as int, window@, width as int, height as int,
                            divisor as int, xx, yy, cc, padding) as u8),
    {
        let ghost obytes = self.bytes();
        let ghost w = self.width as int;
        let ghost h = self.height as int;
        let ghost chn = self.channels as int;
        let cpy = Image {
            height: self.height,
            width: self.width,
            channels: self.channels,
            color: self.color,
            data: self.snapshot_data(),
        };
        proof {
            assert(cpy.bytes() =~= obytes);
        }
        let wlen = window.len();
        let mut y: usize = 0;
        while y < self.height
            invariant
                self.wf(),
                self.height == old(self).height,
                self.width == old(self).width,
                self.channels == old(self).channels,
                self.color == old(self).color,
                self.data@.len() == old(self).data@.len(),
                obytes == old(self).bytes(),
                obytes.len() == self.data@.len(),
                w == self.width as int,
                h == self.height as int,
                chn == self.channels as int,
                cpy.wf(),
                cpy.height == self.height,
                cpy.width == self.width,
                cpy.channels == self.channels,
                cpy.bytes() == obytes,
                y <= self.height,
                wlen == window@.len(),
                window@.len() == (2 * height + 1) * (2 * width + 1),
                1 <= divisor < 0x2000_0000_0000_0000,
                sum_abs_i64(window@) <= 0x20_0000_0000_0000,
                self.width < 0x4000_0000,
                self.height < 0x4000_0000,
                width <= 0x1000,
                height <= 0x1000,
                forall|i: int| (w * y) * chn <= i < self.data@.len()
                    ==> self.data@[i] == old(self).data@[i],
                forall|xx: int, yy: int, cc: int|
                    0 <= xx < w && 0 <= yy < y && 0 <= cc < chn
                        ==> self.data@[(w * yy + xx) * chn + cc] == T::requantize(conv_value(
                            obytes, w, h, chn, window@, width as int, height as int,
                            divisor as int, xx, yy, cc, padding) as u8),
            decreases self.height - y,
        {
            let mut x: usize = 0;
            while x < self.width
                invariant
                    self.wf(),
                    self.height == old(self).height,
                    self.width == old(self).width,
                    self.channels == old(self).channels,
                    self.color == old(self).color,
                    self.data@.len() == old(self).data@.len(),
                    obytes == old(self).bytes(),
                    obytes.len() == self.data@.len(),
                    w == self.width as int,
                    h == self.height as int,
                    chn == self.channels as int,
                    cpy.wf(),
                    cpy.height == self.height,
                    cpy.width == self.width,
                    cpy.channels == self.channels,
                    cpy.bytes() == obytes,
                    y < self.height,
                    x <= self.width,
                    wlen == window@.len(),
                    window@.len() == (2 * height + 1) * (2 * width + 1),
                    1 <= divisor < 0x2000_0000_0000_0000,
                    sum_abs_i64(window@) <= 0x20_0000_0000_0000,
                    self.width < 0x4000_0000,
                    self.height < 0x4000_0000,
                    width <= 0x1000,
                    height <= 0x1000,
                    forall|i: int| (w * y + x) * chn <= i < self.data@.len()
                        ==> self.data@[i] == old(self).data@[i],
                    forall|xx: int, yy: int, cc: int|
                        0 <= xx < w && 0 <= yy < y && 0 <= cc < chn
                            ==> self.data@[(w * yy + xx) * chn + cc] == T::requantize(
                                conv_value(obytes, w, h, chn, window@, width as int,
                                    height as int, divisor as int, xx, yy, cc, padding) as u8),
                    forall|xx: int, cc: int|
                        0 <= xx < x && 0 <= cc < chn
                            ==> self.data@[(w * y + xx) * chn + cc] == T::requantize(
                                conv_value(obytes, w, h, chn, window@, width as int,
                                    height as int, divisor as int, xx, y as int, cc, padding)
                                    as u8),
                decreases self.width - x,
            {
                let mut c: usize = 0;
                while c < self.channels
                    invariant
                        self.wf(),
                        self.height == old(self).height,
                        self.width == old(self).width,
                        self.channels == old(self).channels,
                        self.color == old(self).color,
                        self.data@.len() == old(self).data@.len(),
                        obytes == old(self).bytes(),
                        obytes.len() == self.data@.len(),
                        w == self.width as int,
                        h == self.height as int,
                        chn == self.channels as int,
                        cpy.wf(),
                        cpy.height == self.height,
                        cpy.width == self.width,
                        cpy.channels == self.channels,
                        cpy.bytes() == obytes,
                        y < self.height,
                        x < self.width,
                        c <= self.channels,
                        wlen == window@.len(),
                        window@.len() == (2 * height + 1) * (2 * width + 1),
                        1 <= divisor < 0x2000_0000_0000_0000,
                        sum_abs_i64(window@) <= 0x20_0000_0000_0000,
                        self.width < 0x4000_0000,
                        self.height < 0x4000_0000,
                        width <= 0x1000,
                        height <= 0x1000,
                        forall|i: int| (w * y + x) * chn + c <= i < self.data@.len()
                            ==> self.data@[i] == old(self).data@[i],
                        forall|xx: int, yy: int, cc: int|
                            0 <= xx < w && 0 <= yy < y && 0 <= cc < chn
                                ==> self.data@[(w * yy + xx) * chn + cc] == T::requantize(
                                    conv_value(obytes, w, h, chn, window@, width as int,
                                        height as int, divisor as int, xx, yy, cc, padding)
                                        as u8),
                        forall|xx: int, cc: int|
                            0 <= xx < x && 0 <= cc < chn
                                ==> self.data@[(w * y + xx) * chn + cc] == T::requantize(
                                    conv_value(obytes, w, h, chn, window@, width as int,
                                        height as int, divisor as int, xx, y as int, cc,
                                        padding) as u8),
                        forall|cc: int|
                            0 <= cc < c
                                ==> self.data@[(w * y + x) * chn + cc] == T::requantize(
                                    conv_value(obytes, w, h, chn, window@, width as int,
                                        height as int, divisor as int, x as int, y as int, cc,
                                        padding) as u8),
                    decreases self.channels - c,
                {
                    let wb = cpy.sliding_window(x, y, width, height, c, padding);
                    let mut acc: i64 = 0;
                    let mut k: usize = 0;
                    while k < wlen
                        invariant
                            wlen == window@.len(),
                            k <= wlen,
                            wb@.len() == window@.len(),
                            sum_abs_i64(window@) <= 0x20_0000_0000_0000,
                            x < 0x4000_0000,
                            y < 0x4000_0000,
                            width <= 0x1000,
                            height <= 0x1000,
                            forall|j: int| 0 <= j < wb@.len() ==> wb@[j] == padded_byte(
                                obytes, w, h, chn, x - width + j % (2 * width as int + 1),
                                y - height + j / (2 * width as int + 1), c as int, padding),
                            acc == conv_sum_upto(obytes, w, h, chn, window@, width as int,
                                height as int, x as int, y as int, c as int, padding,
                                k as int),
                            -255 * sum_abs_i64(window@.take(k as int)) <= acc
                                <= 255 * sum_abs_i64(window@.take(k as int)),
                        decreases wlen - k,
                    {
                        let weight = window[k];
                        let sample = wb[k] as i64;
                        proof {
                            lemma_sum_abs_prefix(window@, k as int);
                            lemma_sum_abs_take_le(window@, k as int + 1);
                            lemma_sum_abs_nonneg(window@.take(k as int));
                            let aw: int = if weight >= 0 { weight as int } else {
                                -(weight as int)
                            };
                            assert(-(aw * 255) <= weight * sample <= aw * 255)
                                by (nonlinear_arith)
                                requires
                                    0 <= sample <= 255,
                                    aw == (if weight >= 0 { weight as int } else {
                                        -(weight as int)
                                    }),
                            ;
                        }
                        acc = acc + weight * sample;
                        k = k + 1;
                    }
                    proof {
                        lemma_sum_abs_take_le(window@, wlen as int);
                        assert(window@.take(wlen as int) =~= window@);
                    }
                    let rr = crate::arith::div_round_exec(acc, divisor);
                    let clamped: u8 = if rr < 0 { 0 } else if rr > 255 { 255 } else { rr as u8 };
                    self.set_sample(x, y, c, T::from_u8(clamped));
                    proof {
                        assert(clamped as int == conv_value(obytes, w, h, chn, window@,
                            width as int, height as int, divisor as int, x as int, y as int,
                            c as int, padding));
                        self.lemma_index_in_range(x as int, y as int, c as int);
                        assert forall|xx: int, yy: int, cc: int|
                            #![trigger (w * yy + xx) * chn + cc]
                            0 <= xx < w && 0 <= cc < chn && 0 <= yy && (yy < y || (yy == y
                                && xx < x) || (yy == y && xx == x && cc < c))
                            implies (w * yy + xx) * chn + cc < (w * y + x) * chn + c by {
                            lemma_index_lex_lt(w, chn, yy, xx, cc, y as int, x as int,
                                c as int);
                        }
                    }
                    c = c + 1;
                }
                proof {
                    assert((w * y + x + 1) * chn == (w * y + x) * chn + chn)
                        by (nonlinear_arith);
                }
                x = x + 1;
            }
            proof {
                assert((w * (y + 1)) * chn == (w * y + w) * chn) by (nonlinear_arith);
            }
            y = y + 1;
        }
    }
}


/// The byte ordering a median filter sorts by.
pub open spec fn byte_le_ord() -> spec_fn(u8, u8) -> bool {
    |a: u8, b: u8| a <= b
}

/// The median of a byte sequence: the middle element of its sorted
/// arrangement.
pub open spec fn median_byte(s: Seq<u8>) -> int {
    s.sort_by(byte_le_ord())[s.len() as int / 2] as int
}

/// The byte ordering is a total ordering.
pub proof fn lemma_byte_le_total()
    ensures
        vstd::relations::total_ordering(byte_le_ord()),
{
    let leq = byte_le_ord();
    assert forall|a: u8| #[trigger] leq(a, a) by {}
    assert forall|a: u8, b: u8| #[trigger] leq(a, b) && #[trigger] leq(b, a) implies a == b by {}
    assert forall|a: u8, b: u8, c: u8| #[trigger] leq(a, b) && #[trigger] leq(b, c)
        implies leq(a, c) by {}
    assert forall|a: u8, b: u8| #[trigger] leq(a, b) || #[trigger] leq(b, a) by {}
}

/// Sorts bytes ascending; the result is exactly the specification-level
/// sorted arrangement of the input.
pub fn sort_bytes(input: Vec<u8>) -> (out: Vec<u8>)
    ensures
        out@ == input@.sort_by(byte_le_ord()),
        out@.len() == input@.len(),
{
    broadcast use vstd::seq_lib::group_to_multiset_ensures;

    let leq = Ghost(byte_le_ord());
    let mut src = input;
    let ghost input_seq = src@;
    let mut out: Vec<u8> = Vec::new();
    while src.len() > 0
        invariant
            out@.to_multiset().add(src@.to_multiset()) =~= input_seq.to_multiset(),
            vstd::relations::sorted_by(out@, byte_le_ord()),
            forall|i: int, j: int| 0 <= i < out@.len() && 0 <= j < src@.len()
                ==> out@[i] <= src@[j],
        decreases src.len(),
    {
        // Find the index of the smallest remaining byte.
        let mut m: usize = 0;
        let mut k: usize = 1;
        while k < src.len()
            invariant
                src@.len() > 0,
                m < src@.len(),
                k <= src@.len(),
                forall|j: int| 0 <= j < k ==> src@[m as int] <= src@[j],
            decreases src.len() - k,
        {
            if src[k] < src[m] {
                m = k;
            }
            k = k + 1;
        }
        let ghost src_before = src@;
        let ghost out_before = out@;
        let v = src.remove(m);
        out.push(v);
        proof {
            assert(out@ =~= out_before.push(v));
            out_before.to_multiset_ensures();
            src_before.to_multiset_ensures();
            assert(src_before.to_multiset().count(v) > 0) by {
                assert(src_before[m as int] == v);
                assert(src_before.contains(v));
            }
            assert(out@.to_multiset().add(src@.to_multiset()) =~= input_seq.to_multiset());
            assert forall|i: int, j: int| 0 <= i < out@.len() && 0 <= j < src@.len()
                implies out@[i] <= src@[j] by {
                if j < m {
                    assert(src@[j] == src_before[j]);
                } else {
                    assert(src@[j] == src_before[j + 1]);
                }
                if i < out_before.len() {
                    assert(out@[i] == out_before[i]);
                }
            }
            assert forall|i: int, j: int| 0 <= i <= j < out@.len()
                implies byte_le_ord()(out@[i], out@[j]) by {
                if j < out_before.len() {
                    assert(vstd::relations::sorted_by(out_before, byte_le_ord()));
                } else {
                    assert(out@[j] == v);
                    if i < out_before.len() {
                        assert(out_before[i] <= src_before[m as int]);
                    }
                }
            }
        }
    }
    proof {
        lemma_byte_le_total();
        input_seq.lemma_sort_by_ensures(byte_le_ord());
        assert(src@.to_multiset() =~= Multiset::empty());
        assert(out@.to_multiset() =~= input_seq.to_multiset());
        assert(out@.to_multiset() =~= input_seq.sort_by(byte_le_ord()).to_multiset());
        vstd::seq_lib::lemma_sorted_unique(out@, input_seq.sort_by(byte_le_ord()),
            byte_le_ord());
        assert(out@ == input_seq.sort_by(byte_le_ord()));
        assert(out@.to_multiset().len() == input_seq.to_multiset().len());
    }
    out
}

/// The kernel of ones used by a box blur.
pub open spec fn ones_kernel(n: int) -> Seq<i64> {
    Seq::new(n as nat, |i: int| 1i64)
}

/// The kernel that is zero everywhere but for a one at the window center.
pub open spec fn identity_kernel(hw: int, hh: int) -> Seq<i64> {
    Seq::new(((2 * hh + 1) * (2 * hw + 1)) as nat, |k: int|
        if k == hh * (2 * hw + 1) + hw { 1i64 } else { 0i64 })
}

proof fn lemma_identity_sum_upto(s: Seq<u8>, w: int, h: int, ch: int, hw: int, hh: int,
    x: int, y: int, c: int, padding: Padding, k: int)
    requires
        0 <= hw,
        0 <= hh,
        0 <= k <= identity_kernel(hw, hh).len(),
    ensures
        conv_sum_upto(s, w, h, ch, identity_kernel(hw, hh), hw, hh, x, y, c, padding, k)
            == if k > hh * (2 * hw + 1) + hw { padded_byte(s, w, h, ch, x, y, c, padding) }
                else { 0 },
    decreases k,
{
    let side = 2 * hw + 1;
    let center = hh * side + hw;
    assert((2 * hh + 1) * (2 * hw + 1) >= 0) by (nonlinear_arith)
        requires
            hh >= 0,
            hw >= 0,
    ;
    assert(identity_kernel(hw, hh).len() == (2 * hh + 1) * (2 * hw + 1));
    if k > 0 {
        lemma_identity_sum_upto(s, w, h, ch, hw, hh, x, y, c, padding, k - 1);
        if k - 1 == center {
            crate::arith::lemma_decompose(center, side, hh, hw);
            assert(identity_kernel(hw, hh)[k - 1] == 1);
            assert(conv_sum_upto(s, w, h, ch, identity_kernel(hw, hh), hw, hh, x, y, c,
                padding, k) == conv_sum_upto(s, w, h, ch, identity_kernel(hw, hh), hw, hh, x,
                y, c, padding, k - 1) + 1 * padded_byte(s, w, h, ch, x - hw + (k - 1) % (2 * hw
                + 1), y - hh + (k - 1) / (2 * hw + 1), c, padding));
            assert(1 * padded_byte(s, w, h, ch, x, y, c, padding) == padded_byte(s, w, h, ch,
                x, y, c, padding)) by (nonlinear_arith);
        } else {
            assert(identity_kernel(hw, hh)[k - 1] == 0);
            assert(0 * padded_byte(s, w, h, ch, x - hw + (k - 1) % (2 * hw + 1), y - hh + (k
                - 1) / (2 * hw + 1), c, padding) == 0) by (nonlinear_arith);
        }
    }
}

/// Convolving with the kernel that is all zero except a one at the center is
/// the identity transform on every sample.
pub proof fn lemma_identity_convolution(s: Seq<u8>, w: int, h: int, ch: int, hw: int,
    hh: int, x: int, y: int, c: int, padding: Padding)
    requires
        0 <= hw,
        0 <= hh,
        0 <= x < w,
        0 <= y < h,
    ensures
        conv_value(s, w, h, ch, identity_kernel(hw, hh), hw, hh, 1, x, y, c, padding)
            == at_byte(s, w, ch, x, y, c),
{
    let kern = identity_kernel(hw, hh);
    let center = hh * (2 * hw + 1) + hw;
    assert(0 <= hh * (2 * hw + 1) + hw && hh * (2 * hw + 1) + hw
        < (2 * hh + 1) * (2 * hw + 1)) by (nonlinear_arith)
        requires
            hw >= 0,
            hh >= 0,
    ;
    assert(kern.len() == (2 * hh + 1) * (2 * hw + 1));
    lemma_identity_sum_upto(s, w, h, ch, hw, hh, x, y, c, padding, kern.len() as int);
    let v = padded_byte(s, w, h, ch, x, y, c, padding);
    assert(v == at_byte(s, w, ch, x, y, c));
    assert(0 <= v <= 255);
    assert(2 * v + 1 == 2 * v + 1);
    vstd::arithmetic::div_mod::lemma_div_multiples_vanish_fancy(v, 1, 2);
    assert(crate::arith::div_round(v, 1) == v);
}

impl<T: ImageData> Image<T> {
    /// The median filter: every output sample is the middle element of the
    /// sorted window of samples around it in a snapshot of the input, for a
    /// square window of half-size `window`.
    pub fn median_filter(&mut self, window: usize, padding: Padding)
        requires
            old(self).wf(),
            old(self).width < 0x4000_0000,
            old(self).height < 0x4000_0000,
            window <= 0x1000,
        ensures
            final(self).wf(),
            final(self).height == old(self).height,
            final(self).width == old(self).width,
            final(self).channels == old(self).channels,
            final(self).color == old(self).color,
            final(self).data@.len() == old(self).data@.len(),
            forall|xx: int, yy: int, cc: int|
                0 <= xx < old(self).width && 0 <= yy < old(self).height
                    && 0 <= cc < old(self).channels
                    ==> final(self).data@[(old(self).width * yy + xx) * old(self).channels
                        + cc] == T::requantize(median_byte(window_seq(old(self).bytes(),
                            old(self).width as int, old(self).height as int,
                            old(self).channels as int, window as int, window as int, xx, yy,
                            cc, padding)) as u8),
    {
        let ghost obytes = self.bytes();
        let ghost w = self.width as int;
        let ghost h = self.height as int;
        let ghost chn = self.channels as int;
        let cpy = Image {
            height: self.height,
            width: self.width,
            channels: self.channels,
            color: self.color,
            data: self.snapshot_data(),
        };
        proof {
            assert(cpy.bytes() =~= obytes);
        }
        let mut y: usize = 0;
        while y < self.height
            invariant
                self.wf(),
                self.height == old(self).height,
                self.width == old(self).width,
                self.channels == old(self).channels,
                self.color == old(self).color,
                self.data@.len() == old(self).data@.len(),
                obytes == old(self).bytes(),
                obytes.len() == self.data@.len(),
                w == self.width as int,
                h == self.height as int,
                chn == self.channels as int,
                cpy.wf(),
                cpy.height == self.height,
                cpy.width == self.width,
                cpy.channels == self.channels,
                cpy.bytes() == obytes,
                y <= self.height,
                self.width < 0x4000_0000,
                self.height < 0x4000_0000,
                window <= 0x1000,
                forall|i: int| (w * y) * chn <= i < self.data@.len()
                    ==> self.data@[i] == old(self).data@[i],
                forall|xx: int, yy: int, cc: int|
                    0 <= xx < w && 0 <= yy < y && 0 <= cc < chn
                        ==> self.data@[(w * yy + xx) * chn + cc] == T::requantize(median_byte(
                            window_seq(obytes, w, h, chn, window as int, window as int, xx,
                                yy, cc, padding)) as u8),
            decreases self.height - y,
        {
            let mut x: usize = 0;
            while x < self.width
                invariant
                    self.wf(),
                    self.height == old(self).height,
                    self.width == old(self).width,
                    self.channels == old(self).channels,
                    self.color == old(self).color,
                    self.data@.len() == old(self).data@.len(),
                    obytes == old(self).bytes(),
                    obytes.len() == self.data@.len(),
                    w == self.width as int,
                    h == self.height as int,
                    chn == self.channels as int,
                    cpy.wf(),
                    cpy.height == self.height,
                    cpy.width == self.width,
                    cpy.channels == self.channels,
                    cpy.bytes() == obytes,
                    y < self.height,
                    x <= self.width,
                    self.width < 0x4000_0000,
                    self.height < 0x4000_0000,
                    window <= 0x1000,
                    forall|i: int| (w * y + x) * chn <= i < self.data@.len()
                        ==> self.data@[i] == old(self).data@[i],
                    forall|xx: int, yy: int, cc: int|
                        0 <= xx < w && 0 <= yy < y && 0 <= cc < chn
                            ==> self.data@[(w * yy + xx) * chn + cc] == T::requantize(
                                median_byte(window_seq(obytes, w, h, chn, window as int,
                                    window as int, xx, yy, cc, padding)) as u8),
                    forall|xx: int, cc: int|
                        0 <= xx < x && 0 <= cc < chn
                            ==> self.data@[(w * y + xx) * chn + cc] == T::requantize(
                                median_byte(window_seq(obytes, w, h, chn, window as int,
                                    window as int, xx, y as int, cc, padding)) as u8),
                decreases self.width - x,
            {
                let mut c: usize = 0;
                while c < self.channels
                    invariant
                        self.wf(),
                        self.height == old(self).height,
                        self.width == old(self).width,
                        self.channels == old(self).channels,
                        self.color == old(self).color,
                        self.data@.len() == old(self).data@.len(),
                        obytes == old(self).bytes(),
                        obytes.len() == self.data@.len(),
                        w == self.width as int,
                        h == self.height as int,
                        chn == self.channels as int,
                        cpy.wf(),
                        cpy.height == self.height,
                        cpy.width == self.width,
                        cpy.channels == self.channels,
                        cpy.bytes() == obytes,
                        y < self.height,
                        x < self.width,
                        c <= self.channels,
                        self.width < 0x4000_0000,
                        self.height < 0x4000_0000,
                        window <= 0x1000,
                        forall|i: int| (w * y + x) * chn + c <= i < self.data@.len()
                            ==> self.data@[i] == old(self).data@[i],
                        forall|xx: int, yy: int, cc: int|
                            0 <= xx < w && 0 <= yy < y && 0 <= cc < chn
                                ==> self.data@[(w * yy + xx) * chn + cc] == T::requantize(
                                    median_byte(window_seq(obytes, w, h, chn, window as int,
                                        window as int, xx, yy, cc, padding)) as u8),
                        forall|xx: int, cc: int|
                            0 <= xx < x && 0 <= cc < chn
                                ==> self.data@[(w * y + xx) * chn + cc] == T::requantize(
                                    median_byte(window_seq(obytes, w, h, chn, window as int,
                                        window as int, xx, y as int, cc, padding)) as u8),
                        forall|cc: int|
                            0 <= cc < c
                                ==> self.data@[(w * y + x) * chn + cc] == T::requantize(
                                    median_byte(window_seq(obytes, w, h, chn, window as int,
                                        window as int, x as int, y as int, cc, padding))
                                        as u8),
                    decreases self.channels - c,
                {
                    let wb = cpy.sliding_window(x, y, window, window, c, padding);
                    let ghost wspec = window_seq(obytes, w, h, chn, window as int,
                        window as int, x as int, y as int, c as int, padding);
                    proof {
                        assert(wb@ =~= wspec);
                    }
                    let n = wb.len();
                    proof {
                        assert((2 * window as int + 1) * (2 * window as int + 1) >= 1)
                            by (nonlinear_arith);
                        vstd::arithmetic::div_mod::lemma_div_is_strictly_smaller(n as int, 2);
                    }
                    let sorted = sort_bytes(wb);
                    let v = sorted[n / 2];
                    self.set_sample(x, y, c, T::from_u8(v));
                    proof {
                        assert(v as int == median_byte(wspec));
                        self.lemma_index_in_range(x as int, y as int, c as int);
                        assert forall|xx: int, yy: int, cc: int|
                            #![trigger (w * yy + xx) * chn + cc]
                            0 <= xx < w && 0 <= cc < chn && 0 <= yy && (yy < y || (yy == y
                                && xx < x) || (yy == y && xx == x && cc < c))
                            implies (w * yy + xx) * chn + cc < (w * y + x) * chn + c by {
                            lemma_index_lex_lt(w, chn, yy, xx, cc, y as int, x as int,
                                c as int);
                        }
                    }
                    c = c + 1;
                }
                proof {
                    assert((w * y + x + 1) * chn == (w * y + x) * chn + chn)
                        by (nonlinear_arith);
                }
                x = x + 1;
            }
            proof {
                assert((w * (y + 1)) * chn == (w * y + w) * chn) by (nonlinear_arith);
            }
            y = y + 1;
        }
    }

    /// The generic rank filter: every output sample is what the reduction
    /// `f` makes of the window of bytes around it in a snapshot of the input.
    /// The ghost function `g` names `f`'s input-output relation: whatever `f`
    /// returns on a window is `g` of that window's bytes.
    pub fn non_linear_filter<F: Fn(Vec<u8>) -> u8>(&mut self, height: usize, width: usize,
        f: F, padding: Padding, g: Ghost<spec_fn(Seq<u8>) -> u8>)
        requires
            old(self).wf(),
            old(self).width < 0x4000_0000,
            old(self).height < 0x4000_0000,
            height <= 0x1000,
            width <= 0x1000,
            forall|wb: Vec<u8>| wb@.len() == (2 * height + 1) * (2 * width + 1)
                ==> call_requires(f, (wb,)),
            forall|wb: Vec<u8>, v: u8| #[trigger] call_ensures(f, (wb,), v) ==> v == g@(wb@),
        ensures
            final(self).wf(),
            final(self).height == old(self).height,
            final(self).width == old(self).width,
            final(self).channels == old(self).channels,
            final(self).color == old(self).color,
            final(self).data@.len() == old(self).data@.len(),
            forall|xx: int, yy: int, cc: int|
                0 <= xx < old(self).width && 0 <= yy < old(self).height
                    && 0 <= cc < old(self).channels
                    ==> final(self).data@[(old(self).width * yy + xx) * old(self).channels
                        + cc] == T::requantize(#[trigger] g@(window_seq(old(self).bytes(),
                            old(self).width as int, old(self).height as int,
                            old(self).channels as int, width as int, height as int, xx, yy,
                            cc, padding))),
    {
        let ghost obytes = self.bytes();
        let ghost w = self.width as int;
        let ghost h = self.height as int;
        let ghost chn = self.channels as int;
        let cpy = Image {
            height: self.height,
            width: self.width,
            channels: self.channels,
            color: self.color,
            data: self.snapshot_data(),
        };
        proof {
            assert(cpy.bytes() =~= obytes);
        }
        let mut y: usize = 0;
        while y < self.height
            invariant
                self.wf(),
                self.height == old(self).height,
                self.width == old(self).width,
                self.channels == old(self).channels,
                self.color == old(self).color,
                self.data@.len() == old(self).data@.len(),
                obytes == old(self).bytes(),
                obytes.len() == self.data@.len(),
                w == self.width as int,
                h == self.height as int,
                chn == self.channels as int,
                cpy.wf(),
                cpy.height == self.height,
                cpy.width == self.width,
                cpy.channels == self.channels,
                cpy.bytes() == obytes,
                y <= self.height,
                self.width < 0x4000_0000,
                self.height < 0x4000_0000,
                width <= 0x1000,
                height <= 0x1000,
                forall|wb: Vec<u8>| wb@.len() == (2 * height + 1) * (2 * width + 1)
                    ==> call_requires(f, (wb,)),
                forall|wb: Vec<u8>, v: u8| #[trigger] call_ensures(f, (wb,), v)
                    ==> v == g@(wb@),
                forall|i: int| (w * y) * chn <= i < self.data@.len()
                    ==> self.data@[i] == old(self).data@[i],
                forall|xx: int, yy: int, cc: int|
                    0 <= xx < w && 0 <= yy < y && 0 <= cc < chn
                        ==> self.data@[(w * yy + xx) * chn + cc] == T::requantize(
                            #[trigger] g@(window_seq(obytes, w, h, chn, width as int,
                                height as int, xx, yy, cc, padding))),
            decreases self.height - y,
        {
            let mut x: usize = 0;
            while x < self.width
                invariant
                    self.wf(),
                    self.height == old(self).height,
                    self.width == old(self).width,
                    self.channels == old(self).channels,
                    self.color == old(self).color,
                    self.data@.len() == old(self).data@.len(),
                    obytes == old(self).bytes(),
                    obytes.len() == self.data@.len(),
                    w == self.width as int,
                    h == self.height as int,
                    chn == self.channels as int,
                    cpy.wf(),
                    cpy.height == self.height,
                    cpy.width == self.width,
                    cpy.channels == self.channels,
                    cpy.bytes() == obytes,
                    y < self.height,
                    x <= self.width,
                    self.width < 0x4000_0000,
                    self.height < 0x4000_0000,
                    width <= 0x1000,
                    height <= 0x1000,
                    forall|wb: Vec<u8>| wb@.len() == (2 * height + 1) * (2 * width + 1)
                        ==> call_requires(f, (wb,)),
                    forall|wb: Vec<u8>, v: u8| #[trigger] call_ensures(f, (wb,), v)
                        ==> v == g@(wb@),
                    forall|i: int| (w * y + x) * chn <= i < self.data@.len()
                        ==> self.data@[i] == old(self).data@[i],
                    forall|xx: int, yy: int, cc: int|
                        0 <= xx < w && 0 <= yy < y && 0 <= cc < chn
                            ==> self.data@[(w * yy + xx) * chn + cc] == T::requantize(
                                #[trigger] g@(window_seq(obytes, w, h, chn, width as int,
                                    height as int, xx, yy, cc, padding))),
                    forall|xx: int, cc: int|
                        0 <= xx < x && 0 <= cc < chn
                            ==> self.data@[(w * y + xx) * chn + cc] == T::requantize(
                                #[trigger] g@(window_seq(obytes, w, h, chn, width as int,
                                    height as int, xx, y as int, cc, padding))),
                decreases self.width - x,
            {
                let mut c: usize = 0;
                while c < self.channels
                    invariant
                        self.wf(),
                        self.height == old(self).height,
                        self.width == old(self).width,
                        self.channels == old(self).channels,
                        self.color == old(self).color,
                        self.data@.len() == old(self).data@.len(),
                        obytes == old(self).bytes(),
                        obytes.len() == self.data@.len(),
                        w == self.width as int,
                        h == self.height as int,
                        chn == self.channels as int,
                        cpy.wf(),
                        cpy.height == self.height,
                        cpy.width == self.width,
                        cpy.channels == self.channels,
                        cpy.bytes() == obytes,
                        y < self.height,
                        x < self.width,
                        c <= self.channels,
                        self.width < 0x4000_0000,
                        self.height < 0x4000_0000,
                        width <= 0x1000,
                        height <= 0x1000,
                        forall|wb: Vec<u8>| wb@.len() == (2 * height + 1) * (2 * width + 1)
                            ==> call_requires(f, (wb,)),
                        forall|wb: Vec<u8>, v: u8| #[trigger] call_ensures(f, (wb,), v)
                            ==> v == g@(wb@),
                        forall|i: int| (w * y + x) * chn + c <= i < self.data@.len()
                            ==> self.data@[i] == old(self).data@[i],
                        forall|xx: int, yy: int, cc: int|
                            0 <= xx < w && 0 <= yy < y && 0 <= cc < chn
                                ==> self.data@[(w * yy + xx) * chn + cc] == T::requantize(
                                    #[trigger] g@(window_seq(obytes, w, h, chn, width as int,
                                        height as int, xx, yy, cc, padding))),
                        forall|xx: int, cc: int|
                            0 <= xx < x && 0 <= cc < chn
                                ==> self.data@[(w * y + xx) * chn + cc] == T::requantize(
                                    #[trigger] g@(window_seq(obytes, w, h, chn, width as int,
                                        height as int, xx, y as int, cc, padding))),
                        forall|cc: int|
                            0 <= cc < c
                                ==> self.data@[(w * y + x) * chn + cc] == T::requantize(
                                    #[trigger] g@(window_seq(obytes, w, h, chn, width as int,
                                        height as int, x as int, y as int, cc, padding))),
                    decreases self.channels - c,
                {
                    let wb = cpy.sliding_window(x, y, width, height, c, padding);
                    let ghost wspec = window_seq(obytes, w, h, chn, width as int,
                        height as int, x as int, y as int, c as int, padding);
                    proof {
                        assert(wb@ =~= wspec);
                    }
                    let v = f(wb);
                    self.set_sample(x, y, c, T::from_u8(v));
                    proof {
                        assert(v == g@(wspec));
                        self.lemma_index_in_range(x as int, y as int, c as int);
                        assert forall|xx: int, yy: int, cc: int|
                            #![trigger (w * yy + xx) * chn + cc]
                            0 <= xx < w && 0 <= cc < chn && 0 <= yy && (yy < y || (yy == y
                                && xx < x) || (yy == y && xx == x && cc < c))
                            implies (w * yy + xx) * chn + cc < (w * y + x) * chn + c by {
                            lemma_index_lex_lt(w, chn, yy, xx, cc, y as int, x as int,
                                c as int);
                        }
                    }
                    c = c + 1;
                }
                proof {
                    assert((w * y + x + 1) * chn == (w * y + x) * chn + chn)
                        by (nonlinear_arith);
                }
                x = x + 1;
            }
            proof {
                assert((w * (y + 1)) * chn == (w * y + w) * chn) by (nonlinear_arith);
            }
            y = y + 1;
        }
    }

    /// The box blur: convolution with a uniform kernel whose weights sum to
    /// one (all ones over the window size).
    pub fn blur(&mut self, window: usize, padding: Padding)
        requires
            old(self).wf(),
            old(self).width < 0x4000_0000,
            old(self).height < 0x4000_0000,
            window <= 0x1000,
        ensures
            final(self).wf(),
            final(self).height == old(self).height,
            final(self).width == old(self).width,
            final(self).channels == old(self).channels,
            final(self).color == old(self).color,
            final(self).data@.len() == old(self).data@.len(),
            forall|xx: int, yy: int, cc: int|
                #![trigger conv_value(old(self).bytes(), old(self).width as int,
                    old(self).height as int, old(self).channels as int,
                    ones_kernel(((2 * window + 1) * (2 * window + 1)) as int), window as int,
                    window as int, ((2 * window + 1) * (2 * window + 1)) as int, xx, yy, cc,
                    padding)]
                0 <= xx < old(self).width && 0 <= yy < old(self).height
                    && 0 <= cc < old(self).channels
                    ==> final(self).data@[(old(self).width * yy + xx) * old(self).channels
                        + cc] == T::requantize(conv_value(old(self).bytes(),
                            old(self).width as int, old(self).height as int,
                            old(self).channels as int,
                            ones_kernel(((2 * window + 1) * (2 * window + 1)) as int),
                            window as int, window as int,
                            ((2 * window + 1) * (2 * window + 1)) as int, xx, yy, cc,
                            padding) as u8),
    {
        let side = 2 * window + 1;
        proof {
            assert(side * side <= 0x2001 * 0x2001) by (nonlinear_arith)
                requires
                    side <= 0x2001,
                    side >= 1,
            ;
        }
        let w_size = side * side;
        let mut kernel: Vec<i64> = Vec::new();
        let mut k: usize = 0;
        while k < w_size
            invariant
                k <= w_size,
                kernel@.len() == k,
                forall|i: int| 0 <= i < k ==> kernel@[i] == 1i64,
                sum_abs_i64(kernel@) == k,
            decreases w_size - k,
        {
            let ghost before = kernel@;
            kernel.push(1i64);
            proof {
                assert(kernel@.drop_last() =~= before);
            }
            k = k + 1;
        }
        proof {
            assert(kernel@ =~= ones_kernel(w_size as int));
            assert(w_size >= 1) by (nonlinear_arith)
                requires
                    w_size == side * side,
                    side >= 1,
            ;
        }
        self.convolution(window, window, &kernel, w_size as i64, padding);
    }
}


/// `r` decayed `k` times by the Q16 constant for `exp(-1)`.
pub open spec fn q16_decay(r: int, k: int) -> int
    decreases k,
{
    if k <= 0 {
        r
    } else {
        q16_decay(r, k - 1) * 24109 / 65536
    }
}

/// The truncated alternating series for `exp(-rem / td)` in Q16 fixed point,
/// clamped below at zero.
pub open spec fn q16_exp_series(rem: int, td: int) -> int {
    let fq = rem * 65536 / td;
    let f2 = fq * fq / 65536;
    let f3 = f2 * fq / 65536;
    let f4 = f3 * fq / 65536;
    let f5 = f4 * fq / 65536;
    let raw = 65536 - fq + f2 / 2 - f3 / 6 + f4 / 24 - f5 / 120;
    if raw < 0 {
        0
    } else {
        raw
    }
}

/// `exp(-tn / td)` in Q16 fixed point: the series on the fractional part,
/// decayed once per whole unit, zero beyond 30 units.
pub open spec fn gauss_q16(tn: int, td: int) -> int {
    if tn / td >= 30 {
        0
    } else {
        q16_decay(q16_exp_series(tn % td, td), tn / td)
    }
}

/// The discretized Gaussian kernel for half-window `window` and standard
/// deviation `num / den`: the weight at offset (dy, dx) is the Q16 value of
/// `exp(-(dy^2 + dx^2) / (2 * sigma^2))`.
pub open spec fn gauss_kernel_spec(window: int, num: int, den: int) -> Seq<i64> {
    Seq::new(((2 * window + 1) * (2 * window + 1)) as nat, |k: int| {
        let side = 2 * window + 1;
        let dy = k / side - window;
        let dx = k % side - window;
        gauss_q16((dy * dy + dx * dx) * (den * den), 2 * (num * num)) as i64
    })
}

/// The divisor that normalizes the Gaussian kernel: the sum of its weights.
pub open spec fn gauss_divisor_spec(window: int, num: int, den: int) -> int {
    sum_i64(gauss_kernel_spec(window, num, den))
}

/// Dividing a Q16 product by 65536 never grows past either factor bound.
proof fn lemma_q16_step(a: int, b: int)
    requires
        0 <= a <= 65536,
        0 <= b <= 65536,
    ensures
        0 <= a * b / 65536 <= b,
        a * b / 65536 <= 65536,
{
    assert(a * b <= 65536 * b) by (nonlinear_arith)
        requires
            0 <= a <= 65536,
            0 <= b,
    ;
    assert(a * b >= 0) by (nonlinear_arith)
        requires
            a >= 0,
            b >= 0,
    ;
    vstd::arithmetic::div_mod::lemma_div_is_ordered(a * b, 65536 * b, 65536);
    assert(65536 * b == b * 65536);
    vstd::arithmetic::div_mod::lemma_div_by_multiple(b, 65536);
    vstd::arithmetic::div_mod::lemma_div_pos_is_pos(a * b, 65536);
}

/// Computes `gauss_q16(tn, td)`.
fn exp_neg_q16(tn: u64, td: u64) -> (r: u32)
    requires
        1 <= td <= 0x1_0000_0000,
        tn <= 0x1000_0000_0000_0000,
    ensures
        r == gauss_q16(tn as int, td as int),
        r <= 65536,
{
    let k = tn / td;
    if k >= 30 {
        return 0;
    }
    let rem = tn % td;
    proof {
        assert(rem < td);
        assert(rem * 65536 < td * 65536) by (nonlinear_arith)
            requires
                0 <= rem < td,
        ;
        vstd::arithmetic::div_mod::lemma_div_is_ordered(rem as int * 65536,
            td as int * 65536 - 1, td as int);
        assert((td as int * 65536 - 1) / (td as int) == 65535) by {
            assert(td as int * 65536 - 1 == (td as int) * 65535 + (td as int - 1))
                by (nonlinear_arith);
            vstd::arithmetic::div_mod::lemma_div_multiples_vanish_fancy(65535,
                td as int - 1, td as int);
        }
        vstd::arithmetic::div_mod::lemma_div_pos_is_pos(rem as int * 65536, td as int);
    }
    let fq: u64 = rem * 65536 / td;
    proof {
        lemma_q16_step(fq as int, fq as int);
    }
    let f2: u64 = fq * fq / 65536;
    proof {
        lemma_q16_step(f2 as int, fq as int);
        assert(f2 * fq == fq * f2) by (nonlinear_arith);
        lemma_q16_step(fq as int, f2 as int);
    }
    let f3: u64 = f2 * fq / 65536;
    proof {
        lemma_q16_step(f3 as int, fq as int);
        assert(f3 * fq == fq * f3) by (nonlinear_arith);
        lemma_q16_step(fq as int, f3 as int);
    }
    let f4: u64 = f3 * fq / 65536;
    proof {
        lemma_q16_step(f4 as int, fq as int);
        assert(f4 * fq == fq * f4) by (nonlinear_arith);
        lemma_q16_step(fq as int, f4 as int);
    }
    let f5: u64 = f4 * fq / 65536;
    let raw: i64 = 65536 - (fq as i64) + (f2 as i64) / 2 - (f3 as i64) / 6 + (f4 as i64) / 24
        - (f5 as i64) / 120;
    let sr: u64 = if raw < 0 { 0 } else { raw as u64 };
    proof {
        // raw <= 65536: the positive correction terms stay below fq.
        vstd::arithmetic::div_mod::lemma_div_is_ordered(f2 as int, fq as int, 2);
        vstd::arithmetic::div_mod::lemma_div_is_ordered(f4 as int, fq as int, 24);
        vstd::arithmetic::div_mod::lemma_div_is_ordered_by_denominator(fq as int, 2, 24);
        assert(fq as int / 2 + fq as int / 2 <= fq) by {
            vstd::arithmetic::div_mod::lemma_fundamental_div_mod(fq as int, 2);
        }
        assert(sr <= 65536);
    }
    let mut rc: u64 = sr;
    let mut i: u64 = 0;
    while i < k
        invariant
            k < 30,
            rc == q16_decay(sr as int, i as int),
            rc <= 65536,
            i <= k,
        decreases k - i,
    {
        proof {
            lemma_q16_step(24109, rc as int);
            assert(rc * 24109 == 24109 * (rc as int)) by (nonlinear_arith);
        }
        rc = rc * 24109 / 65536;
        i = i + 1;
    }
    proof {
        assert(sr as int == q16_exp_series(rem as int, td as int));
        assert(rc == gauss_q16(tn as int, td as int));
    }
    rc as u32
}

/// Builds the normalized Gaussian kernel for half-window `window` and
/// standard deviation `sigma_num / sigma_den`, returning the weights and the
/// divisor that normalizes them. The divisor is exactly the sum of the
/// weights: dividing the weighted window sum by it is what "the kernel sums
/// to one" means in exact integer form.
pub fn gaussian_kernel(window: usize, sigma_num: u32, sigma_den: u32) -> (r: (Vec<i64>, i64))
    requires
        window <= 0x1000,
        1 <= sigma_num <= 10000,
        1 <= sigma_den <= 10000,
    ensures
        r.0@ == gauss_kernel_spec(window as int, sigma_num as int, sigma_den as int),
        r.1 == sum_i64(r.0@),
        r.1 == gauss_divisor_spec(window as int, sigma_num as int, sigma_den as int),
        sum_abs_i64(r.0@) == sum_i64(r.0@),
        65536 <= r.1 <= 0x2001 * 0x2001 * 65536,
        r.1 <= (2 * window + 1) * (2 * window + 1) * 65536,
        r.0@.len() == (2 * window + 1) * (2 * window + 1),
{
    let side = 2 * window + 1;
    proof {
        assert(side * side <= 0x2001 * 0x2001 && side * side >= 1) by (nonlinear_arith)
            requires
                1 <= side <= 0x2001,
        ;
    }
    let w_size = side * side;
    proof {
        assert((2 * (sigma_num as int)) * (sigma_num as int) <= 200000000
            && 2 <= (2 * (sigma_num as int)) * (sigma_num as int)) by (nonlinear_arith)
            requires
                1 <= sigma_num <= 10000,
        ;
    }
    let td: u64 = 2 * (sigma_num as u64) * (sigma_num as u64);
    let ghost center: int = window * (2 * window + 1) + window;
    proof {
        assert(0 <= center < w_size) by (nonlinear_arith)
            requires
                window >= 0,
                center == window * (2 * window as int + 1) + window,
                w_size == (2 * window as int + 1) * (2 * window as int + 1),
        ;
    }
    let mut kernel: Vec<i64> = Vec::new();
    let mut acc: u64 = 0;
    let mut k: usize = 0;
    while k < w_size
        invariant
            side == 2 * window + 1,
            w_size == side * side,
            w_size <= 0x2001 * 0x2001,
            window <= 0x1000,
            1 <= sigma_num <= 10000,
            1 <= sigma_den <= 10000,
            td == 2 * (sigma_num as int) * (sigma_num as int),
            2 <= td <= 0x1_0000_0000,
            center == window * (2 * window as int + 1) + window,
            k <= w_size,
            kernel@.len() == k,
            forall|i: int| 0 <= i < k ==> kernel@[i] == gauss_kernel_spec(window as int,
                sigma_num as int, sigma_den as int)[i],
            forall|i: int| 0 <= i < k ==> 0 <= #[trigger] kernel@[i] <= 65536,
            acc == sum_i64(kernel@),
            acc == sum_abs_i64(kernel@),
            acc <= k * 65536,
            k > center ==> acc >= 65536,
        decreases w_size - k,
    {
        let ky = k / side;
        let kx = k % side;
        proof {
            vstd::arithmetic::div_mod::lemma_div_pos_is_pos(k as int, side as int);
            vstd::arithmetic::div_mod::lemma_mod_bound(k as int, side as int);
            assert(ky <= k / side * 1);
            vstd::arithmetic::div_mod::lemma_div_is_ordered(k as int,
                w_size as int - 1, side as int);
            assert((side * side - 1) as int / (side as int) == side - 1) by {
                assert(side as int * side - 1 == (side as int) * (side as int - 1)
                    + (side as int - 1)) by (nonlinear_arith);
                vstd::arithmetic::div_mod::lemma_div_multiples_vanish_fancy(side as int - 1,
                    side as int - 1, side as int);
            }
        }
        let dy: i64 = ky as i64 - window as i64;
        let dx: i64 = kx as i64 - window as i64;
        proof {
            assert(0 <= dy * dy <= 0x100_0000 && 0 <= dx * dx <= 0x100_0000)
                by (nonlinear_arith)
                requires
                    -0x1000 <= dy <= 0x1000,
                    -0x1000 <= dx <= 0x1000,
            ;
        }
        let d2: i64 = dy * dy + dx * dx;
        proof {
            assert((sigma_den as int) * (sigma_den as int) <= 100000000
                && 1 <= (sigma_den as int) * (sigma_den as int)) by (nonlinear_arith)
                requires
                    1 <= sigma_den <= 10000,
            ;
            assert((d2 as int) * ((sigma_den as int) * (sigma_den as int))
                <= 0x200_0000 * 100000000) by (nonlinear_arith)
                requires
                    0 <= d2 <= 0x200_0000,
                    0 <= (sigma_den as int) * (sigma_den as int) <= 100000000,
            ;
        }
        let tn: u64 = (d2 as u64) * ((sigma_den as u64) * (sigma_den as u64));
        let wt = exp_neg_q16(tn, td);
        let ghost before = kernel@;
        kernel.push(wt as i64);
        proof {
            assert(kernel@.drop_last() =~= before);
            let spec_kernel = gauss_kernel_spec(window as int, sigma_num as int,
                sigma_den as int);
            assert((2 * (sigma_num as int)) * (sigma_num as int)
                == 2 * ((sigma_num as int) * (sigma_num as int))) by (nonlinear_arith);
            assert(spec_kernel[k as int] == wt as i64);
            if k as int == center {
                crate::arith::lemma_decompose(center, side as int, window as int,
                    window as int);
                assert(dy == 0 && dx == 0);
                assert(d2 == 0) by (nonlinear_arith)
                    requires
                        d2 == dy * dy + dx * dx,
                        dy == 0,
                        dx == 0,
                ;
                assert(tn as int == 0 * ((sigma_den as int) * (sigma_den as int)));
                assert(0 * ((sigma_den as int) * (sigma_den as int)) == 0)
                    by (nonlinear_arith);
                assert(tn == 0);
                assert(0int / (td as int) == 0 && 0int % (td as int) == 0) by {
                    vstd::arithmetic::div_mod::lemma_basic_div(0, td as int);
                    vstd::arithmetic::div_mod::lemma_small_mod(0, td as nat);
                }
                assert(0int * 65536 == 0) by (nonlinear_arith);
                assert(q16_exp_series(0, td as int) == 65536) by {
                    vstd::arithmetic::div_mod::lemma_basic_div(0, td as int);
                }
                assert(wt == 65536);
            }
            assert(k + 1 <= w_size);
            assert((k + 1) * 65536 == k * 65536 + 65536) by (nonlinear_arith);
        }
        acc = acc + (wt as u64);
        k = k + 1;
    }
    proof {
        assert(kernel@ =~= gauss_kernel_spec(window as int, sigma_num as int,
            sigma_den as int));
        assert(acc <= w_size * 65536);
        assert(w_size * 65536 <= 0x2001 * 0x2001 * 65536) by (nonlinear_arith)
            requires
                w_size <= 0x2001 * 0x2001,
        ;
        assert(w_size as int * 65536 == (2 * window as int + 1) * (2 * window as int + 1)
            * 65536) by (nonlinear_arith)
            requires
                w_size == (2 * window as int + 1) * (2 * window as int + 1),
        ;
    }
    (kernel, acc as i64)
}

impl<T: ImageData> Image<T> {
    /// The Gaussian blur: convolution with the discretized Gaussian kernel of
    /// the given half-window and standard deviation `sigma_num / sigma_den`,
    /// normalized by the sum of its weights.
    pub fn gaussian_blur(&mut self, window: usize, sigma_num: u32, sigma_den: u32,
        padding: Padding)
        requires
            old(self).wf(),
            old(self).width < 0x4000_0000,
            old(self).height < 0x4000_0000,
            window <= 0x1000,
            1 <= sigma_num <= 10000,
            1 <= sigma_den <= 10000,
        ensures
            final(self).wf(),
            final(self).height == old(self).height,
            final(self).width == old(self).width,
            final(self).channels == old(self).channels,
            final(self).color == old(self).color,
            final(self).data@.len() == old(self).data@.len(),
            forall|xx: int, yy: int, cc: int|
                #![trigger conv_value(old(self).bytes(), old(self).width as int,
                    old(self).height as int, old(self).channels as int,
                    gauss_kernel_spec(window as int, sigma_num as int, sigma_den as int),
                    window as int, window as int,
                    gauss_divisor_spec(window as int, sigma_num as int, sigma_den as int),
                    xx, yy, cc, padding)]
                0 <= xx < old(self).width && 0 <= yy < old(self).height
                    && 0 <= cc < old(self).channels
                    ==> final(self).data@[(old(self).width * yy + xx) * old(self).channels
                        + cc] == T::requantize(conv_value(old(self).bytes(),
                            old(self).width as int, old(self).height as int,
                            old(self).channels as int,
                            gauss_kernel_spec(window as int, sigma_num as int,
                                sigma_den as int), window as int, window as int,
                            gauss_divisor_spec(window as int, sigma_num as int,
                                sigma_den as int), xx, yy, cc, padding) as u8),
    {
        let (kernel, divisor) = gaussian_kernel(window, sigma_num, sigma_den);
        self.convolution(window, window, &kernel, divisor, padding);
    }
}


/// Pushes a kernel weight, tracking the kernel's sum of absolute values.
pub(crate) fn push_weight(kern: &mut Vec<i64>, w: i64)
    requires
        -100 <= w <= 100,
        sum_abs_i64(old(kern)@) <= 0x1000_0000,
        old(kern)@.len() <= 0x1000_0000,
    ensures
        final(kern)@ == old(kern)@.push(w),
        sum_abs_i64(final(kern)@) == sum_abs_i64(old(kern)@) + (if w >= 0 { w as int } else {
            -(w as int)
        }),
{
    let ghost before = kern@;
    kern.push(w);
    proof {
        assert(kern@.drop_last() =~= before);
    }
}

/// The horizontal Sobel kernel (as paired with window offsets row-major).
pub open spec fn sobel_x_kernel() -> Seq<i64> {
    seq![1i64, 2i64, 1i64, 0i64, 0i64, 0i64, -1i64, -2i64, -1i64]
}

/// The vertical Sobel kernel.
pub open spec fn sobel_y_kernel() -> Seq<i64> {
    seq![1i64, 0i64, -1i64, 2i64, 0i64, -2i64, 1i64, 0i64, -1i64]
}

/// The floor of the square root of a non-negative integer.
pub open spec fn floor_sqrt(n: int) -> int {
    choose|r: int| crate::arith::is_isqrt(n, r)
}

/// A witness pins the floor square root down.
pub proof fn lemma_floor_sqrt(n: int, r: int)
    requires
        crate::arith::is_isqrt(n, r),
    ensures
        floor_sqrt(n) == r,
{
    let rr = floor_sqrt(n);
    assert(crate::arith::is_isqrt(n, rr));
    assert(rr == r) by (nonlinear_arith)
        requires
            rr >= 0,
            r >= 0,
            rr * rr <= n < (rr + 1) * (rr + 1),
            r * r <= n < (r + 1) * (r + 1),
    ;
}

/// The Sobel gradient magnitude at (`x`, `y`) of a single-channel buffer:
/// the floor square root of the sum of squared horizontal and vertical
/// gradient responses, under repeat padding.
pub open spec fn sobel_mag(s: Seq<u8>, w: int, h: int, x: int, y: int) -> int {
    let gx = conv_sum(s, w, h, 1, sobel_x_kernel(), 1, 1, x, y, 0, Padding::Repeat);
    let gy = conv_sum(s, w, h, 1, sobel_y_kernel(), 1, 1, x, y, 0, Padding::Repeat);
    floor_sqrt(gx * gx + gy * gy)
}

/// The largest Sobel magnitude among the first `k` pixels in row-major order.
pub open spec fn sobel_max_upto(s: Seq<u8>, w: int, h: int, k: int) -> int
    decreases k,
{
    if k <= 0 {
        0
    } else {
        let m = sobel_max_upto(s, w, h, k - 1);
        let v = sobel_mag(s, w, h, (k - 1) % w, (k - 1) / w);
        if v >= m {
            v
        } else {
            m
        }
    }
}

/// Every pixel's magnitude is bounded by any later prefix maximum.
proof fn lemma_sobel_max_ge(s: Seq<u8>, w: int, h: int, k: int, p: int)
    requires
        0 <= p < k,
    ensures
        sobel_mag(s, w, h, p % w, p / w) <= sobel_max_upto(s, w, h, k),
    decreases k,
{
    if p < k - 1 {
        lemma_sobel_max_ge(s, w, h, k - 1, p);
    }
}

impl<T: ImageData> Image<T> {
    /// The Sobel gradient-magnitude map of a single-channel buffer: per pixel
    /// the Euclidean magnitude of the two 3x3 Sobel responses under repeat
    /// padding, scaled so the largest magnitude becomes 255. A buffer with no
    /// gradient anywhere comes back all zero.
    pub fn sobel(&self) -> (r: Image<u8>)
        requires
            self.wf(),
            self.channels == 1,
            self.width < 0x4000_0000,
            self.height < 0x4000_0000,
        ensures
            r.wf(),
            r.height == self.height,
            r.width == self.width,
            r.channels == 1,
            r.color == ColorSpace::Gray,
            r.data@.len() == self.height * self.width,
            forall|xx: int, yy: int|
                #![trigger sobel_mag(self.bytes(), self.width as int, self.height as int, xx, yy)]
                0 <= xx < self.width && 0 <= yy < self.height
                    ==> r.data@[self.width * yy + xx] == (if sobel_max_upto(self.bytes(),
                        self.width as int, self.height as int,
                        self.height as int * self.width as int) == 0 { 0int } else {
                        div_round_nn(255 * sobel_mag(self.bytes(), self.width as int,
                            self.height as int, xx, yy), sobel_max_upto(self.bytes(),
                            self.width as int, self.height as int,
                            self.height as int * self.width as int))
                    }),
    {
        let ghost bs = self.bytes();
        let ghost w = self.width as int;
        let ghost h = self.height as int;
        // The two kernels, with their sums of absolute values tracked.
        let mut kx: Vec<i64> = Vec::new();
        push_weight(&mut kx, 1); push_weight(&mut kx, 2); push_weight(&mut kx, 1);
        push_weight(&mut kx, 0); push_weight(&mut kx, 0); push_weight(&mut kx, 0);
        push_weight(&mut kx, -1); push_weight(&mut kx, -2); push_weight(&mut kx, -1);
        let mut ky: Vec<i64> = Vec::new();
        push_weight(&mut ky, 1); push_weight(&mut ky, 0); push_weight(&mut ky, -1);
        push_weight(&mut ky, 2); push_weight(&mut ky, 0); push_weight(&mut ky, -2);
        push_weight(&mut ky, 1); push_weight(&mut ky, 0); push_weight(&mut ky, -1);
        proof {
            assert(kx@ =~= sobel_x_kernel());
            assert(ky@ =~= sobel_y_kernel());
            assert(sum_abs_i64(kx@) == 8);
            assert(sum_abs_i64(ky@) == 8);
        }
        // First pass: the magnitude of every pixel.
        let mut mags: Vec<u64> = Vec::new();
        let mut y: usize = 0;
        while y < self.height
            invariant
                self.wf(),
                self.channels == 1,
                self.width < 0x4000_0000,
                self.height < 0x4000_0000,
                bs == self.bytes(),
                w == self.width as int,
                h == self.height as int,
                kx@ == sobel_x_kernel(),
                ky@ == sobel_y_kernel(),
                sum_abs_i64(sobel_x_kernel()) == 8,
                sum_abs_i64(sobel_y_kernel()) == 8,
                y <= self.height,
                mags@.len() == y * self.width,
                y * self.width <= h * w,
                forall|p: int| 0 <= p < mags@.len() ==> mags@[p] == sobel_mag(bs, w, h,
                    p % w, p / w) && mags@[p] <= 3000,
            decreases self.height - y,
        {
            proof {
                assert((y + 1) * self.width == y * self.width + self.width)
                    by (nonlinear_arith);
                assert((y + 1) * self.width <= h * w) by (nonlinear_arith)
                    requires
                        y + 1 <= h,
                        w >= 0,
                        h >= 0,
                        w == self.width,
                ;
            }
            let mut x: usize = 0;
            while x < self.width
                invariant
                    self.wf(),
                    self.channels == 1,
                    self.width < 0x4000_0000,
                    self.height < 0x4000_0000,
                    bs == self.bytes(),
                    w == self.width as int,
                    h == self.height as int,
                    kx@ == sobel_x_kernel(),
                    ky@ == sobel_y_kernel(),
                    sum_abs_i64(sobel_x_kernel()) == 8,
                    sum_abs_i64(sobel_y_kernel()) == 8,
                    y < self.height,
                    x <= self.width,
                    mags@.len() == y * self.width + x,
                    y * self.width + self.width <= h * w,
                    forall|p: int| 0 <= p < mags@.len() ==> mags@[p] == sobel_mag(bs, w, h,
                        p % w, p / w) && mags@[p] <= 3000,
                decreases self.width - x,
            {
                let wb = self.sliding_window(x, y, 1, 1, 0, Padding::Repeat);
                proof {
                    assert((2usize * 1 + 1) * (2usize * 1 + 1) == 9) by (nonlinear_arith);
                    assert(wb@.len() == 9);
                }
                let gx = self.sobel_response(&wb, &kx, Ghost(sobel_x_kernel()),
                    Ghost(x as int), Ghost(y as int));
                let gy = self.sobel_response(&wb, &ky, Ghost(sobel_y_kernel()),
                    Ghost(x as int), Ghost(y as int));
                proof {
                    assert(gx * gx <= 2040 * 2040 && gy * gy <= 2040 * 2040
                        && gx * gx >= 0 && gy * gy >= 0) by (nonlinear_arith)
                        requires
                            -2040 <= gx <= 2040,
                            -2040 <= gy <= 2040,
                    ;
                }
                let m2: u64 = ((gx * gx) + (gy * gy)) as u64;
                let mg = crate::arith::isqrt(m2);
                proof {
                    lemma_floor_sqrt(m2 as int, mg as int);
                    assert(mg <= 3000) by (nonlinear_arith)
                        requires
                            mg * mg <= 2 * 2040 * 2040,
                            mg >= 0,
                    ;
                    crate::arith::lemma_decompose(y * self.width + x, w, y as int, x as int);
                }
                mags.push(mg);
                x = x + 1;
            }
            y = y + 1;
        }
        proof {
            assert(mags@.len() == h * w) by (nonlinear_arith)
                requires
                    mags@.len() == (h as int) * (w as int),
            ;
        }
        // Second pass: the largest magnitude.
        let n = mags.len();
        let mut m: u64 = 0;
        let mut k: usize = 0;
        while k < n
            invariant
                n == mags@.len(),
                mags@.len() == h * w,
                k <= n,
                forall|p: int| 0 <= p < mags@.len() ==> mags@[p] == sobel_mag(bs, w, h,
                    p % w, p / w) && mags@[p] <= 3000,
                m == sobel_max_upto(bs, w, h, k as int),
                m <= 3000,
            decreases n - k,
        {
            let v = mags[k];
            if v > m {
                m = v;
            }
            k = k + 1;
        }
        // Third pass: scale to the byte range.
        let mut data: Vec<u8> = Vec::new();
        let mut k: usize = 0;
        while k < n
            invariant
                n == mags@.len(),
                mags@.len() == h * w,
                k <= n,
                forall|p: int| 0 <= p < mags@.len() ==> mags@[p] == sobel_mag(bs, w, h,
                    p % w, p / w) && mags@[p] <= 3000,
                m == sobel_max_upto(bs, w, h, h * w),
                m <= 3000,
                data@.len() == k,
                forall|p: int| 0 <= p < k ==> data@[p] == (if m == 0 { 0int } else {
                    div_round_nn(255 * sobel_mag(bs, w, h, p % w, p / w), m as int)
                }),
            decreases n - k,
        {
            if m == 0 {
                data.push(0);
            } else {
                let v = mags[k];
                proof {
                    lemma_sobel_max_ge(bs, w, h, h * w, k as int);
                    crate::arith::lemma_div_round_nn_upper(255 * v as int, m as int, 255);
                }
                let sc = div_round_nn_exec(255 * v, m);
                data.push(sc as u8);
            }
            k = k + 1;
        }
        let r = Image::<u8> {
            height: self.height,
            width: self.width,
            channels: 1,
            color: ColorSpace::Gray,
            data,
        };
        proof {
            assert(r.data@.len() == self.height * self.width * 1) by (nonlinear_arith)
                requires
                    r.data@.len() == h * w,
                    h == self.height,
                    w == self.width,
            ;
            assert(self.height * self.width <= usize::MAX);
            assert(self.height as int * self.width as int == h * w);
            assert forall|xx: int, yy: int|
                #![trigger sobel_mag(self.bytes(), self.width as int, self.height as int, xx, yy)]
                0 <= xx < self.width && 0 <= yy < self.height
                implies r.data@[self.width * yy + xx] == (if sobel_max_upto(self.bytes(),
                    self.width as int, self.height as int,
                    self.height as int * self.width as int) == 0 { 0int } else {
                    div_round_nn(255 * sobel_mag(self.bytes(), self.width as int,
                        self.height as int, xx, yy), sobel_max_upto(self.bytes(),
                        self.width as int, self.height as int,
                        self.height as int * self.width as int))
                }) by {
                let p = w * yy + xx;
                assert(0 <= w * yy + xx < h * w) by (nonlinear_arith)
                    requires
                        0 <= xx < w,
                        0 <= yy < h,
                ;
                crate::arith::lemma_decompose(p, w, yy, xx);
                assert(r.data@[p] == (if m == 0 { 0int } else {
                    div_round_nn(255 * sobel_mag(bs, w, h, xx, yy), m as int)
                }));
            }
        }
        r
    }

    /// One 3x3 kernel response over a 9-sample window.
    pub(crate) fn sobel_response(&self, wb: &Vec<u8>, kern: &Vec<i64>, Ghost(kspec): Ghost<Seq<i64>>,
        Ghost(gx): Ghost<int>, Ghost(gy): Ghost<int>) -> (r: i64)
        requires
            kern@ == kspec,
            kspec.len() == 9,
            sum_abs_i64(kspec) <= 8,
            wb@.len() == 9,
            forall|j: int| 0 <= j < 9 ==> wb@[j] == padded_byte(self.bytes(),
                self.width as int, self.height as int, self.channels as int,
                gx - 1 + j % 3, gy - 1 + j / 3, 0, Padding::Repeat),
        ensures
            r == conv_sum(self.bytes(), self.width as int, self.height as int,
                self.channels as int, kspec, 1, 1, gx, gy, 0, Padding::Repeat),
            -2040 <= r <= 2040,
    {
        let ghost bs = self.bytes();
        let ghost w = self.width as int;
        let ghost h = self.height as int;
        let ghost chn = self.channels as int;
        let mut acc: i64 = 0;
        let mut k: usize = 0;
        while k < 9
            invariant
                kern@ == kspec,
                kspec.len() == 9,
                sum_abs_i64(kspec) <= 8,
                wb@.len() == 9,
                bs == self.bytes(),
                w == self.width as int,
                h == self.height as int,
                chn == self.channels as int,
                forall|j: int| 0 <= j < 9 ==> wb@[j] == padded_byte(bs, w, h, chn,
                    gx - 1 + j % 3, gy - 1 + j / 3, 0, Padding::Repeat),
                k <= 9,
                acc == conv_sum_upto(bs, w, h, chn, kspec, 1, 1, gx, gy, 0,
                    Padding::Repeat, k as int),
                -255 * sum_abs_i64(kspec.take(k as int)) <= acc
                    <= 255 * sum_abs_i64(kspec.take(k as int)),
            decreases 9 - k,
        {
            let weight = kern[k];
            let sample = wb[k] as i64;
            proof {
                lemma_sum_abs_prefix(kspec, k as int);
                lemma_sum_abs_take_le(kspec, k as int + 1);
                lemma_sum_abs_nonneg(kspec.take(k as int));
                let aw: int = if weight >= 0 { weight as int } else { -(weight as int) };
                assert(-(aw * 255) <= weight * sample <= aw * 255) by (nonlinear_arith)
                    requires
                        0 <= sample <= 255,
                        aw == (if weight >= 0 { weight as int } else { -(weight as int) }),
                ;
            }
            acc = acc + weight * sample;
            k = k + 1;
        }
        proof {
            lemma_sum_abs_take_le(kspec, 9);
            assert(kspec.take(9) =~= kspec);
            lemma_sum_abs_nonneg(kspec);
        }
        acc
    }
}


impl<T: ImageData> Image<T> {
    /// Pseudo-colors a single-channel gray buffer: every sample's byte picks
    /// an interpolated color from the gradient (the byte over 255 as the
    /// fraction of the gradient's range).
    pub fn fake_color(&self, gradient: &Gradient) -> (r: Image<u8>)
        requires
            self.wf(),
            self.channels == 1,
            self.color == ColorSpace::Gray,
            gradient.wf(),
            gradient.strict(),
            gradient.points().len() >= 2,
            self.height * self.width * 3 <= usize::MAX,
        ensures
            r.wf(),
            r.height == self.height,
            r.width == self.width,
            r.channels == 3,
            r.color == ColorSpace::RGB,
            r.data@.len() == self.height * self.width * 3,
            forall|q: int| #![trigger self.data@[q]] 0 <= q < self.height * self.width ==> {
                let v = gradient_color(gradient.points(), self.data@[q].byte() as int, 255);
                r.data@[3 * q] == v.0 && r.data@[3 * q + 1] == v.1 && r.data@[3 * q + 2] == v.2
            },
    {
        let npix = self.height * self.width;
        let mut data: Vec<u8> = Vec::new();
        let mut q: usize = 0;
        while q < npix
            invariant
                self.wf(),
                self.channels == 1,
                gradient.wf(),
                gradient.strict(),
                gradient.points().len() >= 2,
                q <= npix,
                npix == self.height * self.width,
                npix == self.data@.len(),
                npix * 3 <= usize::MAX,
                data@.len() == 3 * q,
                forall|k: int| #![trigger self.data@[k]] 0 <= k < q ==> {
                    let v = gradient_color(gradient.points(), self.data@[k].byte() as int,
                        255);
                    data@[3 * k] == v.0 && data@[3 * k + 1] == v.1 && data@[3 * k + 2] == v.2
                },
            decreases npix - q,
        {
            proof {
                assert(3 * q + 3 <= 3 * npix && 3 * npix == npix * 3);
            }
            let b = self.data[q].to_u8();
            let (cr, cg, cb) = gradient.get_color(b as u32, 255);
            data.push(cr);
            data.push(cg);
            data.push(cb);
            q = q + 1;
        }
        proof {
            assert(data@.len() == self.height * self.width * 3) by (nonlinear_arith)
                requires
                    data@.len() == 3 * npix,
                    npix == self.height * self.width,
            ;
            assert((self.height * self.width) as int <= self.height * self.width * 3);
        }
        Image {
            height: self.height,
            width: self.width,
            channels: 3,
            color: ColorSpace::RGB,
            data,
        }
    }
}


/// The achromatic core of the color round trip, exactly: converting a gray
/// RGB triple to HSL and back reproduces it bit for bit. (Chromatic triples
/// round-trip only up to the byte quantization of hue and saturation.)
pub proof fn lemma_achromatic_round_trip(v: int)
    requires
        0 <= v <= 255,
    ensures
        ({
            let hsl = hsl_of(v, v, v);
            rgb_of_hsl(hsl.0, hsl.1, hsl.2) == (v, v, v)
        }),
{
    // Forward: zero chroma gives hue 0, saturation 0, lightness v.
    assert(div_round_nn(2 * v, 2) == v) by {
        assert(2 * (2 * v) + 2 == 4 * v + 2 && 4 * v + 2 == 4 * v + 2);
        vstd::arithmetic::div_mod::lemma_div_multiples_vanish_fancy(v, 2, 4);
        assert((2 * (2 * v) + 2) / (2int * 2) == (4 * v + 2) / 4int);
    }
    let hsl = hsl_of(v, v, v);
    assert(hsl == (0int, 0int, v));
    // Backward: zero saturation zeroes chroma, leaving every channel at the
    // lightness.
    let a2l = if 2 * v >= 255 { 2 * v - 255 } else { 255 - 2 * v };
    assert((255 - a2l) * 0 == 0) by (nonlinear_arith);
    assert(0int % 510 == 0) by {
        vstd::arithmetic::div_mod::lemma_small_mod(0, 510);
    }
    assert(0int * (255 - 255) == 0) by (nonlinear_arith);
    assert(130050 * v - 255 * 0 == 130050 * v);
    assert(div_round_nn(510 * 0 + 130050 * v, 130050) == v) by {
        assert(2 * (510 * 0 + 130050 * v) + 130050 == 260100 * v + 130050)
            by (nonlinear_arith);
        assert(260100 * v + 130050 == 260100 * v + 130050);
        vstd::arithmetic::div_mod::lemma_div_multiples_vanish_fancy(v, 130050, 260100);
    }
    assert(div_round_nn(2 * 0 + 130050 * v, 130050) == v) by {
        assert(2 * (2 * 0 + 130050 * v) + 130050 == 260100 * v + 130050)
            by (nonlinear_arith);
        vstd::arithmetic::div_mod::lemma_div_multiples_vanish_fancy(v, 130050, 260100);
    }
    assert(div_round_nn(0 + 130050 * v, 130050) == v) by {
        assert(2 * (0 + 130050 * v) + 130050 == 260100 * v + 130050) by (nonlinear_arith);
        vstd::arithmetic::div_mod::lemma_div_multiples_vanish_fancy(v, 130050, 260100);
    }
}

} // verus!

