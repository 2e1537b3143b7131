//! Casts between buffers of different sample encodings.

use vstd::prelude::*;

use crate::model::Image;
use crate::typing::ImageData;

verus! {

impl<T: ImageData> Image<T> {
    /// The same buffer with every sample carried into the 8-bit encoding.
    pub fn to_u8(&self) -> (r: Image<u8>)
        requires
            self.wf(),
        ensures
            r.wf(),
            r.height == self.height,
            r.width == self.width,
            r.channels == self.channels,
            r.color == self.color,
            r.bytes() == self.bytes(),
    {
        let mut data: Vec<u8> = Vec::new();
        let n = self.data.len();
        let mut k: usize = 0;
        while k < n
            invariant
                k <= n,
                n == self.data@.len(),
                data@.len() == k,
                forall|i: int| 0 <= i < k ==> data@[i] == self.data@[i].byte(),
            decreases n - k,
        {
            data.push(self.data[k].to_u8());
            k = k + 1;
        }
        let r = Image {
            height: self.height,
            width: self.width,
            channels: self.channels,
            color: self.color,
            data,
        };
        proof {
            assert(r.bytes() =~= self.bytes());
        }
        r
    }

    /// The same buffer with every sample carried into the boolean encoding:
    /// a sample becomes true exactly when its byte is non-zero.
    pub fn to_bool(&self) -> (r: Image<bool>)
        requires
            self.wf(),
        ensures
            r.wf(),
            r.height == self.height,
            r.width == self.width,
            r.channels == self.channels,
            r.color == self.color,
            r.data@.len() == self.data@.len(),
            forall|i: int| 0 <= i < r.data@.len() ==>
                r.data@[i] == (self.data@[i].byte() != 0),
    {
        let mut data: Vec<bool> = Vec::new();
        let n = self.data.len();
        let mut k: usize = 0;
        while k < n
            invariant
                k <= n,
                n == self.data@.len(),
                data@.len() == k,
                forall|i: int| 0 <= i < k ==> data@[i] == (self.data@[i].byte() != 0),
            decreases n - k,
        {
            data.push(self.data[k].to_bool());
            k = k + 1;
        }
        Image {
            height: self.height,
            width: self.width,
            channels: self.channels,
            color: self.color,
            data,
        }
    }
}

} // verus!
