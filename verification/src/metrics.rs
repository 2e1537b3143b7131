//! Exact error metrics between buffers.

use vstd::prelude::*;

use crate::model::Image;
use crate::typing::ImageData;

verus! {

/// The sum over the first `k` samples of the squared byte difference.
pub open spec fn sse_upto(a: Seq<u8>, b: Seq<u8>, k: int) -> int
    decreases k,
{
    if k <= 0 {
        0
    } else {
        sse_upto(a, b, k - 1) + (a[k - 1] - b[k - 1]) * (a[k - 1] - b[k - 1])
    }
}

/// The sum of squared byte differences of two equally shaped buffers: the
/// mean squared error is this sum over `len * 255^2`.
pub fn sum_squared_error<T: ImageData>(a: &Image<T>, b: &Image<T>) -> (r: u64)
    requires
        a.wf(),
        b.wf(),
        a.height == b.height,
        a.width == b.width,
        a.channels == b.channels,
        a.data@.len() <= 0x1_0000_0000,
    ensures
        r == sse_upto(a.bytes(), b.bytes(), a.data@.len() as int),
{
    let n = a.data.len();
    let mut acc: u64 = 0;
    let mut k: usize = 0;
    while k < n
        invariant
            a.wf(),
            b.wf(),
            a.data@.len() == b.data@.len(),
            n == a.data@.len(),
            n <= 0x1_0000_0000,
            k <= n,
            acc == sse_upto(a.bytes(), b.bytes(), k as int),
            acc <= 65025 * k,
        decreases n - k,
    {
        let va = a.data[k].to_u8() as i64;
        let vb = b.data[k].to_u8() as i64;
        let d = va - vb;
        proof {
            assert(0 <= d * d <= 65025) by (nonlinear_arith)
                requires
                    -255 <= d <= 255,
            ;
        }
        acc = acc + ((d * d) as u64);
        k = k + 1;
    }
    acc
}

} // verus!
