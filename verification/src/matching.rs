//! Descriptor correspondence search with Lowe's ratio test.

use vstd::prelude::*;

use crate::keypoints::{hamming, KeyPoint};

verus! {

/// The Hamming distance between two keypoints' descriptors.
pub open spec fn desc_dist(a: KeyPoint, b: KeyPoint) -> int {
    hamming(a.descriptor.bits(), b.descriptor.bits())
}

/// The sentinel standing for "no candidate seen yet" (larger than any
/// 512-bit Hamming distance).
pub open spec fn no_dist() -> int {
    100000
}

/// The smallest descriptor distance from `q` to the first `k` keypoints of
/// `to`.
pub open spec fn best_dist_upto(q: KeyPoint, to: Seq<KeyPoint>, k: int) -> int
    decreases k,
{
    if k <= 0 {
        no_dist()
    } else {
        let m = best_dist_upto(q, to, k - 1);
        let d = desc_dist(q, to[k - 1]);
        if d < m {
            d
        } else {
            m
        }
    }
}

/// The first index among the first `k` keypoints of `to` achieving the
/// smallest descriptor distance from `q` (-1 when `k` is 0).
pub open spec fn best_idx_upto(q: KeyPoint, to: Seq<KeyPoint>, k: int) -> int
    decreases k,
{
    if k <= 0 {
        -1
    } else {
        let bi = best_idx_upto(q, to, k - 1);
        if bi < 0 || desc_dist(q, to[k - 1]) < desc_dist(q, to[bi]) {
            k - 1
        } else {
            bi
        }
    }
}

/// The smallest descriptor distance from `q` to the first `k` keypoints of
/// `to`, skipping index `excl`.
pub open spec fn second_dist_upto(q: KeyPoint, to: Seq<KeyPoint>, excl: int, k: int) -> int
    decreases k,
{
    if k <= 0 {
        no_dist()
    } else {
        let m = second_dist_upto(q, to, excl, k - 1);
        if k - 1 == excl {
            m
        } else {
            let d = desc_dist(q, to[k - 1]);
            if d < m {
                d
            } else {
                m
            }
        }
    }
}

/// Whether `q` yields an accepted correspondence against `to`: at least two
/// candidates exist, and the best distance is smaller than the second-best
/// scaled by the ratio (`d1 / d2 < num / den`, compared exactly).
pub open spec fn match_accepted(q: KeyPoint, to: Seq<KeyPoint>, rnum: int, rden: int) -> bool {
    let d1 = best_dist_upto(q, to, to.len() as int);
    let bi = best_idx_upto(q, to, to.len() as int);
    let d2 = second_dist_upto(q, to, bi, to.len() as int);
    to.len() >= 2 && d1 * rden < rnum * d2
}

/// The accepted correspondences of the first `n` query keypoints, in query
/// order: each query pairs with its nearest neighbor in `to`.
pub open spec fn match_list(from: Seq<KeyPoint>, to: Seq<KeyPoint>, rnum: int, rden: int,
    n: int) -> Seq<(KeyPoint, KeyPoint)>
    decreases n,
{
    if n <= 0 {
        Seq::empty()
    } else {
        match_list(from, to, rnum, rden, n - 1) + (if match_accepted(from[n - 1], to, rnum,
            rden) {
            seq![(from[n - 1], to[best_idx_upto(from[n - 1], to, to.len() as int)])]
        } else {
            Seq::empty()
        })
    }
}

/// The best index is a real candidate achieving the best distance, which a
/// 512-bit descriptor keeps at 512 bits at most.
proof fn lemma_best_idx_range(q: KeyPoint, to: Seq<KeyPoint>, k: int)
    requires
        k >= 1,
    ensures
        0 <= best_idx_upto(q, to, k) < k,
        best_dist_upto(q, to, k) == desc_dist(q, to[best_idx_upto(q, to, k)]),
        0 <= best_dist_upto(q, to, k) <= 512,
    decreases k,
{
    crate::keypoints::lemma_hamming_upto_bound(q.descriptor.bits(),
        to[k - 1].descriptor.bits(), 64);
    if k > 1 {
        lemma_best_idx_range(q, to, k - 1);
    } else {
        assert(best_dist_upto(q, to, 0) == no_dist());
        assert(best_idx_upto(q, to, 0) == -1);
    }
}

/// Matches each keypoint of `from` against its two nearest neighbors in `to`
/// by descriptor Hamming distance: a correspondence is kept exactly when the
/// best match is closer than the runner-up by more than the ratio
/// `ratio_num / ratio_den` allows. Output follows query order.
///
/// An outside metric-space index (a vantage-point tree) would speed the
/// nearest-neighbor queries, but it would need this crate's keypoint type to
/// implement the index crate's distance trait, which verified code cannot do;
/// the scans below realize the same two nearest neighbors.
pub fn match_descriptors(from: &Vec<KeyPoint>, to: &Vec<KeyPoint>, ratio_num: u32,
    ratio_den: u32) -> (r: Vec<(KeyPoint, KeyPoint)>)
    requires
        forall|i: int, j: int| 0 <= i < from@.len() && 0 <= j < to@.len()
            ==> (#[trigger] from@[i].descriptor).compatible(#[trigger] to@[j].descriptor),
    ensures
        r@ == match_list(from@, to@, ratio_num as int, ratio_den as int, from@.len() as int),
{
    let nf = from.len();
    let nt = to.len();
    let mut r: Vec<(KeyPoint, KeyPoint)> = Vec::new();
    let mut i: usize = 0;
    while i < nf
        invariant
            nf == from@.len(),
            nt == to@.len(),
            forall|a: int, b: int| 0 <= a < from@.len() && 0 <= b < to@.len()
                ==> (#[trigger] from@[a].descriptor).compatible(
                    #[trigger] to@[b].descriptor),
            i <= nf,
            r@ == match_list(from@, to@, ratio_num as int, ratio_den as int, i as int),
        decreases nf - i,
    {
        let q = from[i];
        if nt >= 2 {
            // First pass: the nearest neighbor (first index on ties).
            let mut bd: u32 = 100000;
            let mut bi: usize = 0;
            let mut seen = false;
            let mut j: usize = 0;
            while j < nt
                invariant
                    nf == from@.len(),
                    nt == to@.len(),
                    forall|a: int, b: int| 0 <= a < from@.len() && 0 <= b < to@.len()
                        ==> (#[trigger] from@[a].descriptor).compatible(
                            #[trigger] to@[b].descriptor),
                    i < nf,
                    q == from@[i as int],
                    j <= nt,
                    seen == (j > 0),
                    bd == best_dist_upto(q, to@, j as int),
                    bd <= 100000,
                    seen ==> bi == best_idx_upto(q, to@, j as int) && bi < j,
                    !seen ==> bd == no_dist(),
                decreases nt - j,
            {
                proof {
                    if j > 0 {
                        lemma_best_idx_range(q, to@, j as int);
                    } else {
                        assert(best_dist_upto(q, to@, 0) == no_dist());
                        assert(best_idx_upto(q, to@, 0) == -1);
                    }
                }
                let d = q.descriptor.distance(&to[j].descriptor);
                if d < bd {
                    bd = d;
                    bi = j;
                }
                seen = true;
                j = j + 1;
            }
            // Second pass: the runner-up, skipping the best index.
            let mut sd: u32 = 100000;
            let mut j: usize = 0;
            while j < nt
                invariant
                    nf == from@.len(),
                    nt == to@.len(),
                    forall|a: int, b: int| 0 <= a < from@.len() && 0 <= b < to@.len()
                        ==> (#[trigger] from@[a].descriptor).compatible(
                            #[trigger] to@[b].descriptor),
                    i < nf,
                    q == from@[i as int],
                    bi < nt,
                    j <= nt,
                    sd == second_dist_upto(q, to@, bi as int, j as int),
                    sd <= 100000,
                decreases nt - j,
            {
                if j != bi {
                    let d = q.descriptor.distance(&to[j].descriptor);
                    if d < sd {
                        sd = d;
                    }
                }
                j = j + 1;
            }
            proof {
                lemma_best_idx_range(q, to@, nt as int);
                assert(0 <= (bd as int) * (ratio_den as int) <= 100000 * 0xffff_ffff
                    && 0 <= (ratio_num as int) * (sd as int) <= 0xffff_ffff * 100000)
                    by (nonlinear_arith)
                    requires
                        0 <= bd <= 100000,
                        0 <= sd <= 100000,
                        0 <= ratio_den <= 0xffff_ffff,
                        0 <= ratio_num <= 0xffff_ffff,
                ;
            }
            let accept = (bd as u64) * (ratio_den as u64) < (ratio_num as u64) * (sd as u64);
            proof {
                assert(accept == match_accepted(q, to@, ratio_num as int, ratio_den as int));
            }
            if accept {
                r.push((q, to[bi]));
            }
        }
        i = i + 1;
    }
    r
}

} // verus!
