//! The smoother: centered running averages.
//!
//! For the record at position `idx` of the frame-sorted input, the
//! smoothing window is `[idx - h, idx + h + 1)` clipped to the sequence,
//! with `h = window_size / 2`: asymmetric and shrinking at the borders,
//! never zero-padded.  `q` and every cluster filling are averaged exactly
//! over that window.

use crate::aggregate::spec_window_values;
use crate::errors::AnalysisError;
use crate::numbers::{all_wf, frac_mean, lemma_mean_singleton, mean_fits, spec_mean, Frac};
use crate::pairmap::keys_sorted;
use crate::results::{
    frac_map_wf, lemma_filling_wf, sort_by_frame, spec_filling_of, spec_sort_by_frame, FrameKeyed,
    FrameResult, SmoothedResult,
};
use vstd::prelude::*;

verus! {

/// First position of the centered window at `idx`.
pub open spec fn spec_smooth_lo(idx: int, h: int) -> int {
    if idx - h >= 0 {
        idx - h
    } else {
        0
    }
}

/// One past the last position of the centered window at `idx`.
pub open spec fn spec_smooth_hi(idx: int, h: int, n: int) -> int {
    if idx + h + 1 <= n {
        idx + h + 1
    } else {
        n
    }
}

/// The `q` values of frames `[lo, hi)`.
pub open spec fn spec_q_values(s: Seq<FrameResult>, lo: int, hi: int) -> Seq<Frac> {
    s.subrange(lo, hi).map(|k: int, fr: FrameResult| fr.q)
}

/// Every centered mean — of `q` and of every cluster — fits 64-bit words.
pub open spec fn spec_smooth_all_fit(s: Seq<FrameResult>, h: int, u: Seq<i32>) -> bool {
    &&& forall|idx: int|
        0 <= idx < s.len() ==> mean_fits(
            #[trigger] spec_q_values(
                s,
                spec_smooth_lo(idx, h),
                spec_smooth_hi(idx, h, s.len() as int),
            ),
        )
    &&& forall|idx: int, ci: int|
        0 <= idx < s.len() && 0 <= ci < u.len() ==> mean_fits(
            #[trigger] spec_window_values(
                s,
                spec_smooth_lo(idx, h),
                spec_smooth_hi(idx, h, s.len() as int),
                u[ci],
            ),
        )
}

/// What the smoother promises of the record it emits at position `idx`.
pub open spec fn spec_smoothed_ok(
    sr: SmoothedResult,
    s: Seq<FrameResult>,
    idx: int,
    h: int,
    u: Seq<i32>,
) -> bool {
    &&& sr.frame == s[idx].frame
    &&& sr.q_smooth == spec_mean(
        spec_q_values(s, spec_smooth_lo(idx, h), spec_smooth_hi(idx, h, s.len() as int)),
    )
    &&& sr.cluster_smooth@ == u.map(
        |ci: int, c: i32|
            (
                c,
                spec_mean(
                    spec_window_values(
                        s,
                        spec_smooth_lo(idx, h),
                        spec_smooth_hi(idx, h, s.len() as int),
                        c,
                    ),
                ),
            ),
    )
}

/// With half-window zero the centered window is the record itself, so the
/// smoothed `q` is exactly the record's `q` and every smoothed cluster
/// value is exactly the record's filling for that cluster: smoothing with
/// half-window zero reproduces the input unchanged.
pub proof fn lemma_smooth_half_zero(s: Seq<FrameResult>, idx: int, c: i32)
    requires
        0 <= idx < s.len(),
        s[idx].wf(),
    ensures
        spec_q_values(s, spec_smooth_lo(idx, 0), spec_smooth_hi(idx, 0, s.len() as int)) == seq![
            s[idx].q,
        ],
        mean_fits(spec_q_values(s, spec_smooth_lo(idx, 0), spec_smooth_hi(idx, 0, s.len() as int))),
        spec_mean(spec_q_values(s, spec_smooth_lo(idx, 0), spec_smooth_hi(idx, 0, s.len() as int)))
            == s[idx].q,
        spec_window_values(s, spec_smooth_lo(idx, 0), spec_smooth_hi(idx, 0, s.len() as int), c)
            == seq![spec_filling_of(s[idx].clusters_filling@, c)],
        mean_fits(
            spec_window_values(s, spec_smooth_lo(idx, 0), spec_smooth_hi(idx, 0, s.len() as int), c),
        ),
        spec_mean(
            spec_window_values(s, spec_smooth_lo(idx, 0), spec_smooth_hi(idx, 0, s.len() as int), c),
        ) == spec_filling_of(s[idx].clusters_filling@, c),
{
    let n = s.len() as int;
    assert(spec_smooth_lo(idx, 0) == idx);
    assert(spec_smooth_hi(idx, 0, n) == idx + 1);
    assert(s.subrange(idx, idx + 1) =~= seq![s[idx]]);
    assert(spec_q_values(s, idx, idx + 1) =~= seq![s[idx].q]);
    lemma_mean_singleton(s[idx].q);
    assert(spec_window_values(s, idx, idx + 1, c) =~= seq![
        spec_filling_of(s[idx].clusters_filling@, c),
    ]);
    lemma_filling_wf(s[idx].clusters_filling@, c);
    lemma_mean_singleton(spec_filling_of(s[idx].clusters_filling@, c));
}

/// Collects the `q` values of frames `[lo, hi)`.
fn q_values(s: &Vec<FrameResult>, lo: usize, hi: usize) -> (r: Vec<Frac>)
    requires
        lo <= hi <= s@.len(),
        forall|k: int| 0 <= k < s@.len() ==> (#[trigger] s@[k]).wf(),
    ensures
        r@ == spec_q_values(s@, lo as int, hi as int),
        all_wf(r@),
        r@.len() == hi - lo,
{
    let mut out: Vec<Frac> = Vec::new();
    let mut k = lo;
    proof {
        assert(out@ =~= spec_q_values(s@, lo as int, lo as int));
    }
    while k < hi
        invariant
            lo <= k <= hi <= s@.len(),
            forall|p: int| 0 <= p < s@.len() ==> (#[trigger] s@[p]).wf(),
            out@ == spec_q_values(s@, lo as int, k as int),
            all_wf(out@),
            out@.len() == k - lo,
        decreases hi - k,
    {
        let fr = &s[k];
        out.push(fr.q);
        proof {
            assert(out@ =~= spec_q_values(s@, lo as int, k as int + 1));
        }
        k = k + 1;
    }
    out
}

/// Smooths frame records with centered running averages.
///
/// Records are sorted by frame id; each output record carries the frame
/// id of its input record, the exact mean of `q` over the centered
/// window, and for every cluster id in the input the exact mean of that
/// cluster's filling over the same window.  A `window_size` whose half is
/// zero reproduces the input values exactly.  Fails with a validation
/// error exactly when the input is empty, and with an overflow error
/// exactly when some exact mean does not fit 64-bit words.
pub fn smooth(results: Vec<FrameResult>, window_size: usize) -> (r: Result<
    Vec<SmoothedResult>,
    AnalysisError,
>)
    requires
        forall|k: int| 0 <= k < results@.len() ==> (#[trigger] results@[k]).wf(),
    ensures
        match r {
            Ok(out) => {
                &&& results@.len() > 0
                &&& spec_smooth_all_fit(
                    spec_sort_by_frame(results@),
                    (window_size / 2) as int,
                    crate::aggregate::spec_union_ids(spec_sort_by_frame(results@)),
                )
                &&& out@.len() == results@.len()
                &&& forall|idx: int|
                    0 <= idx < out@.len() ==> spec_smoothed_ok(
                        #[trigger] out@[idx],
                        spec_sort_by_frame(results@),
                        idx,
                        (window_size / 2) as int,
                        crate::aggregate::spec_union_ids(spec_sort_by_frame(results@)),
                    )
                &&& forall|idx: int| 0 <= idx < out@.len() ==> (#[trigger] out@[idx]).wf()
            },
            Err(e) => {
                &&& (e == AnalysisError::ValidationError || e == AnalysisError::NumericOverflow)
                &&& (e == AnalysisError::ValidationError <==> results@.len() == 0)
                &&& (e == AnalysisError::NumericOverflow ==> results@.len() > 0
                    && !spec_smooth_all_fit(
                    spec_sort_by_frame(results@),
                    (window_size / 2) as int,
                    crate::aggregate::spec_union_ids(spec_sort_by_frame(results@)),
                ))
            },
        },
{
    let ghost input = results@;
    if results.len() == 0 {
        return Err(AnalysisError::ValidationError);
    }
    let sorted = sort_by_frame(results);
    proof {
        crate::results::lemma_sort_preserves_all(input, |fr: FrameResult| fr.wf());
        assert(forall|k: int| 0 <= k < sorted@.len() ==> (#[trigger] sorted@[k]).wf());
    }
    let u = crate::aggregate::union_ids(&sorted);
    let n = sorted.len();
    let nu = u.len();
    let h = window_size / 2;
    let ghost su = sorted@;
    let ghost uu = u@;
    let mut out: Vec<SmoothedResult> = Vec::new();
    let mut idx: usize = 0;
    while idx < n
        invariant
            idx <= n,
            0 < n == su.len(),
            nu == uu.len(),
            h == window_size / 2,
            sorted@ == su,
            u@ == uu,
            input == results@,
            input.len() == su.len(),
            su == spec_sort_by_frame(input),
            uu == crate::aggregate::spec_union_ids(su),
            keys_sorted(uu),
            forall|k: int| 0 <= k < su.len() ==> (#[trigger] su[k]).wf(),
            out@.len() == idx,
            forall|p: int|
                0 <= p < idx ==> spec_smoothed_ok(#[trigger] out@[p], su, p, h as int, uu),
            forall|p: int| 0 <= p < idx ==> (#[trigger] out@[p]).wf(),
            forall|p: int|
                0 <= p < idx ==> mean_fits(
                    #[trigger] spec_q_values(
                        su,
                        spec_smooth_lo(p, h as int),
                        spec_smooth_hi(p, h as int, su.len() as int),
                    ),
                ),
            forall|p: int, ci: int|
                0 <= p < idx && 0 <= ci < uu.len() ==> mean_fits(
                    #[trigger] spec_window_values(
                        su,
                        spec_smooth_lo(p, h as int),
                        spec_smooth_hi(p, h as int, su.len() as int),
                        uu[ci],
                    ),
                ),
        decreases n - idx,
    {
        let lo = if idx >= h {
            idx - h
        } else {
            0
        };
        let hi = if n - idx - 1 <= h {
            n
        } else {
            idx + h + 1
        };
        proof {
            assert(lo as int == spec_smooth_lo(idx as int, h as int));
            assert(hi as int == spec_smooth_hi(idx as int, h as int, su.len() as int));
            assert(lo <= idx < hi <= n);
        }
        let frame_id = sorted[idx].frame_key();
        let qv = q_values(&sorted, lo, hi);
        let q_smooth = match frac_mean(&qv) {
            Ok(m) => m,
            Err(_) => {
                proof {
                    assert(!spec_smooth_all_fit(su, h as int, uu)) by {
                        if spec_smooth_all_fit(su, h as int, uu) {
                            assert(mean_fits(
                                spec_q_values(
                                    su,
                                    spec_smooth_lo(idx as int, h as int),
                                    spec_smooth_hi(idx as int, h as int, su.len() as int),
                                ),
                            ));
                        }
                    }
                }
                return Err(AnalysisError::NumericOverflow);
            },
        };
        let mut means: Vec<(i32, Frac)> = Vec::new();
        let mut ci: usize = 0;
        proof {
            assert(means@ =~= uu.take(0).map(
                |p: int, c: i32|
                    (
                        c,
                        spec_mean(
                            spec_window_values(
                                su,
                                spec_smooth_lo(idx as int, h as int),
                                spec_smooth_hi(idx as int, h as int, su.len() as int),
                                c,
                            ),
                        ),
                    ),
            ));
        }
        while ci < nu
            invariant
                ci <= nu,
                nu == uu.len(),
                0 < n == su.len(),
                idx < n,
                h == window_size / 2,
                sorted@ == su,
                u@ == uu,
                input == results@,
                input.len() == su.len(),
                su == spec_sort_by_frame(input),
                uu == crate::aggregate::spec_union_ids(su),
                keys_sorted(uu),
                lo as int == spec_smooth_lo(idx as int, h as int),
                hi as int == spec_smooth_hi(idx as int, h as int, su.len() as int),
                lo < hi <= n,
                forall|k: int| 0 <= k < su.len() ==> (#[trigger] su[k]).wf(),
                means@ == uu.take(ci as int).map(
                    |p: int, c: i32|
                        (
                            c,
                            spec_mean(
                                spec_window_values(
                                    su,
                                    spec_smooth_lo(idx as int, h as int),
                                    spec_smooth_hi(idx as int, h as int, su.len() as int),
                                    c,
                                ),
                            ),
                        ),
                ),
                forall|p: int| 0 <= p < means@.len() ==> ((#[trigger] means@[p]).1).wf(),
                forall|cj: int|
                    0 <= cj < ci ==> mean_fits(
                        #[trigger] spec_window_values(
                            su,
                            spec_smooth_lo(idx as int, h as int),
                            spec_smooth_hi(idx as int, h as int, su.len() as int),
                            uu[cj],
                        ),
                    ),
            decreases nu - ci,
        {
            let c = u[ci];
            let values = crate::aggregate::window_values(&sorted, lo, hi, c);
            let m = match frac_mean(&values) {
                Ok(m) => m,
                Err(_) => {
                    proof {
                        assert(!spec_smooth_all_fit(su, h as int, uu)) by {
                            if spec_smooth_all_fit(su, h as int, uu) {
                                assert(mean_fits(
                                    spec_window_values(
                                        su,
                                        spec_smooth_lo(idx as int, h as int),
                                        spec_smooth_hi(idx as int, h as int, su.len() as int),
                                        uu[ci as int],
                                    ),
                                ));
                            }
                        }
                    }
                    return Err(AnalysisError::NumericOverflow);
                },
            };
            means.push((c, m));
            proof {
                assert(means@ =~= uu.take(ci as int + 1).map(
                    |p: int, c2: i32|
                        (
                            c2,
                            spec_mean(
                                spec_window_values(
                                    su,
                                    spec_smooth_lo(idx as int, h as int),
                                    spec_smooth_hi(idx as int, h as int, su.len() as int),
                                    c2,
                                ),
                            ),
                        ),
                ));
            }
            ci = ci + 1;
        }
        proof {
            assert(uu.take(nu as int) =~= uu);
            assert(frac_map_wf(means@)) by {
                assert forall|a: int, b: int| 0 <= a < b < means@.len() implies (
                #[trigger] means@[a]).0 < (#[trigger] means@[b]).0 by {
                    assert(means@[a].0 == uu[a]);
                    assert(means@[b].0 == uu[b]);
                }
            }
        }
        let sr = SmoothedResult { frame: frame_id, q_smooth, cluster_smooth: means };
        proof {
            assert(sr.cluster_smooth@ =~= uu.map(
                |ci2: int, c2: i32|
                    (
                        c2,
                        spec_mean(
                            spec_window_values(
                                su,
                                spec_smooth_lo(idx as int, h as int),
                                spec_smooth_hi(idx as int, h as int, su.len() as int),
                                c2,
                            ),
                        ),
                    ),
            ));
            assert(spec_smoothed_ok(sr, su, idx as int, h as int, uu));
        }
        out.push(sr);
        idx = idx + 1;
    }
    Ok(out)
}

} // verus!
