//! Synthetic salt-and-pepper noise.

use vstd::prelude::*;

use rand::Rng;

use crate::model::Image;
use crate::typing::ImageData;

verus! {

/// Relies on rand's thread-local generator and `Rng::gen_ratio`: returns true
/// with probability `num / den`. The outcome is random, so nothing is assumed
/// of it beyond the one certain case: `from_ratio` with equal numerator and
/// denominator builds the always-true distribution, so the draw returns true.
/// `from_ratio` only rejects `den == 0` or `num > den`, which the
/// precondition rules out, so the call cannot panic.
#[verifier::external_body]
fn coin(num: u32, den: u32) -> (r: bool)
    requires
        1 <= den,
        num <= den,
    ensures
        num == den ==> r,
{
    rand::thread_rng().gen_ratio(num, den)
}

impl<T: ImageData> Image<T> {
    /// Replaces each sample, independently with probability
    /// `percentage / 100`, by the encoding's minimum or maximum (a fair coin
    /// choosing which). Whatever the random draws, every sample is either
    /// untouched or one of the two extremes.
    pub fn salt_and_pepper(&mut self, percentage: u8)
        requires
            old(self).wf(),
            percentage <= 100,
        ensures
            final(self).wf(),
            final(self).height == old(self).height,
            final(self).width == old(self).width,
            final(self).channels == old(self).channels,
            final(self).color == old(self).color,
            final(self).data@.len() == old(self).data@.len(),
            forall|k: int| 0 <= k < final(self).data@.len()
                ==> final(self).data@[k] == old(self).data@[k]
                    || final(self).data@[k] == T::min_val()
                    || final(self).data@[k] == T::max_val(),
            percentage == 0 ==> final(self).data@ == old(self).data@,
            percentage == 100 ==> forall|k: int| 0 <= k < final(self).data@.len()
                ==> final(self).data@[k] == T::min_val()
                    || final(self).data@[k] == T::max_val(),
    {
        if percentage == 0 {
            return ;
        }
        let n = self.data.len();
        let mut k: usize = 0;
        while k < n
            invariant
                self.wf(),
                self.height == old(self).height,
                self.width == old(self).width,
                self.channels == old(self).channels,
                self.color == old(self).color,
                self.data@.len() == old(self).data@.len(),
                n == self.data@.len(),
                k <= n,
                percentage <= 100,
                forall|i: int| 0 <= i < self.data@.len()
                    ==> self.data@[i] == old(self).data@[i]
                        || self.data@[i] == T::min_val()
                        || self.data@[i] == T::max_val(),
                percentage == 100 ==> forall|i: int| 0 <= i < k
                    ==> self.data@[i] == T::min_val() || self.data@[i] == T::max_val(),
            decreases n - k,
        {
            if coin(percentage as u32, 100) {
                let v = if coin(1, 2) { T::min() } else { T::max() };
                self.data.set(k, v);
            }
            k = k + 1;
        }
    }
}

} // verus!
