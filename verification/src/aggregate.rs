//! The window aggregator.
//!
//! Frame records are sorted by frame id and cut into contiguous windows
//! of `window_size` frames (the last window may be shorter).  For every
//! cluster id seen anywhere in the input, each window reports the exact
//! arithmetic mean of that cluster's filling fraction, or — when a cutoff
//! is given — one when the mean reaches the cutoff and zero otherwise.

use crate::errors::AnalysisError;
use crate::numbers::{all_wf, frac_mean, mean_fits, spec_mean, Frac};
use crate::pairmap::{key_insert, keys_sorted, spec_key_insert};
use crate::results::{
    filling_of, frac_map_wf, lemma_filling_wf, sort_by_frame, spec_filling_of, spec_sort_by_frame,
    FrameKeyed, FrameResult, WindowSummary,
};
use vstd::prelude::*;
use vstd::arithmetic::div_mod::lemma_fundamental_div_mod;

verus! {

/// All cluster ids of one filling map added to an accumulator set.
pub open spec fn spec_add_keys(acc: Seq<i32>, m: Seq<(i32, Frac)>) -> Seq<i32>
    decreases m.len(),
{
    if m.len() == 0 {
        acc
    } else {
        spec_key_insert(spec_add_keys(acc, m.drop_last()), m.last().0)
    }
}

/// The sorted union of all cluster ids over a record sequence.
pub open spec fn spec_union_ids(s: Seq<FrameResult>) -> Seq<i32>
    decreases s.len(),
{
    if s.len() == 0 {
        Seq::empty()
    } else {
        spec_add_keys(spec_union_ids(s.drop_last()), s.last().clusters_filling@)
    }
}

/// Ceiling division: how many windows of `w` frames cover `n` frames.
pub open spec fn spec_num_windows(n: int, w: int) -> int {
    n / w + if n % w == 0 {
        0int
    } else {
        1int
    }
}

/// First frame position of window `wi`.
pub open spec fn spec_window_lo(wi: int, w: int) -> int {
    wi * w
}

/// One past the last frame position of window `wi`.
pub open spec fn spec_window_hi(wi: int, w: int, n: int) -> int {
    if wi * w + w <= n {
        wi * w + w
    } else {
        n
    }
}

/// The filling fractions of cluster `c` across frames `[lo, hi)`.
pub open spec fn spec_window_values(s: Seq<FrameResult>, lo: int, hi: int, c: i32) -> Seq<Frac> {
    s.subrange(lo, hi).map(|k: int, fr: FrameResult| spec_filling_of(fr.clusters_filling@, c))
}

/// The aggregated value for one cluster and one window: the exact mean,
/// binarized against the cutoff when one is given.
pub open spec fn spec_agg_value(
    s: Seq<FrameResult>,
    lo: int,
    hi: int,
    c: i32,
    cutoff: Option<Frac>,
) -> Frac {
    let m = spec_mean(spec_window_values(s, lo, hi, c));
    match cutoff {
        None => m,
        Some(ct) => if m.spec_ge(ct) {
            Frac::spec_one()
        } else {
            Frac::spec_zero()
        },
    }
}

/// Every window mean of every cluster fits 64-bit words.
pub open spec fn spec_agg_all_fit(s: Seq<FrameResult>, w: int, u: Seq<i32>) -> bool {
    forall|wi: int, ci: int|
        0 <= wi < spec_num_windows(s.len() as int, w) && 0 <= ci < u.len() ==> mean_fits(
            #[trigger] spec_window_values(s, spec_window_lo(wi, w), spec_window_hi(wi, w, s.len() as int), u[ci]),
        )
}

/// What the aggregator promises of the summary it emits for window `wi`.
pub open spec fn spec_window_summary_ok(
    ws: WindowSummary,
    s: Seq<FrameResult>,
    wi: int,
    w: int,
    u: Seq<i32>,
    cutoff: Option<Frac>,
) -> bool {
    &&& ws.frame == s[spec_window_lo(wi, w)].frame
    &&& ws.cluster_means@ == u.map(
        |ci: int, c: i32|
            (c, spec_agg_value(s, spec_window_lo(wi, w), spec_window_hi(wi, w, s.len() as int), c, cutoff)),
    )
}

/// Window bounds are sane: each window starts inside the sequence, ends
/// no later than the sequence, and is non-empty.
pub proof fn lemma_window_bounds(n: int, w: int, wi: int)
    requires
        n >= 1,
        w >= 1,
        0 <= wi < spec_num_windows(n, w),
    ensures
        spec_window_lo(wi, w) < n,
        spec_window_lo(wi, w) < spec_window_hi(wi, w, n) <= n,
        spec_window_hi(wi, w, n) - spec_window_lo(wi, w) <= w,
        spec_num_windows(n, w) >= 1,
{
    lemma_fundamental_div_mod(n, w);
    let q = n / w;
    let r = n % w;
    if r == 0 {
        assert(wi <= q - 1);
        assert(wi * w <= (q - 1) * w) by (nonlinear_arith)
            requires
                wi <= q - 1,
                w >= 1,
        ;
        assert((q - 1) * w == q * w - w) by (nonlinear_arith);
        assert(q * w == n) by (nonlinear_arith)
            requires
                n == w * q + r,
                r == 0,
        ;
    } else {
        assert(wi <= q);
        assert(wi * w <= q * w) by (nonlinear_arith)
            requires
                wi <= q,
                w >= 1,
        ;
        assert(q * w == n - r) by (nonlinear_arith)
            requires
                n == w * q + r,
        ;
    }
}

/// Aggregating exactly `window_size` frames yields a single window that
/// covers the whole input, so each reported cluster value is the exact
/// arithmetic mean of that cluster's per-frame fractions — and, with a
/// cutoff, it is one exactly when that mean reaches the cutoff.
pub proof fn lemma_single_window(s: Seq<FrameResult>, w: int, c: i32, cutoff: Frac)
    requires
        s.len() == w,
        w >= 1,
    ensures
        spec_num_windows(s.len() as int, w) == 1,
        spec_window_lo(0, w) == 0,
        spec_window_hi(0, w, s.len() as int) == s.len(),
        spec_window_values(s, 0, s.len() as int, c).len() == s.len(),
        forall|k: int|
            0 <= k < s.len() ==> spec_window_values(s, 0, s.len() as int, c)[k]
                == spec_filling_of(#[trigger] s[k].clusters_filling@, c),
        spec_agg_value(s, 0, s.len() as int, c, Some(cutoff)) == (if spec_mean(
            spec_window_values(s, 0, s.len() as int, c),
        ).spec_ge(cutoff) {
            Frac::spec_one()
        } else {
            Frac::spec_zero()
        }),
        spec_agg_value(s, 0, s.len() as int, c, None) == spec_mean(
            spec_window_values(s, 0, s.len() as int, c),
        ),
{
    let n = s.len() as int;
    vstd::arithmetic::div_mod::lemma_mod_self_0(w);
    vstd::arithmetic::div_mod::lemma_div_by_self(w);
    assert(spec_window_lo(0, w) == 0) by (nonlinear_arith);
    assert(spec_window_hi(0, w, n) == n) by {
        assert(0 * w == 0) by (nonlinear_arith);
    }
    assert(s.subrange(0, n) =~= s);
}

/// Collects the sorted union of cluster ids over all records.
pub fn union_ids(s: &Vec<FrameResult>) -> (r: Vec<i32>)
    ensures
        r@ == spec_union_ids(s@),
        keys_sorted(r@),
{
    let n = s.len();
    let mut out: Vec<i32> = Vec::new();
    let mut k: usize = 0;
    proof {
        assert(s@.take(0) =~= Seq::<FrameResult>::empty());
    }
    while k < n
        invariant
            k <= n,
            n == s@.len(),
            out@ == spec_union_ids(s@.take(k as int)),
            keys_sorted(out@),
        decreases n - k,
    {
        let fr = &s[k];
        let m = fr.clusters_filling.len();
        let mut j: usize = 0;
        proof {
            assert(fr.clusters_filling@.take(0) =~= Seq::<(i32, Frac)>::empty());
            assert(spec_add_keys(out@, fr.clusters_filling@.take(0)) == out@);
        }
        let ghost acc0 = out@;
        while j < m
            invariant
                j <= m,
                m == fr.clusters_filling@.len(),
                out@ == spec_add_keys(acc0, fr.clusters_filling@.take(j as int)),
                keys_sorted(out@),
            decreases m - j,
        {
            proof {
                assert(fr.clusters_filling@.take(j as int + 1).drop_last()
                    =~= fr.clusters_filling@.take(j as int));
                assert(fr.clusters_filling@.take(j as int + 1).last() == fr.clusters_filling@[j as int]);
            }
            key_insert(&mut out, fr.clusters_filling[j].0);
            j = j + 1;
        }
        proof {
            assert(fr.clusters_filling@.take(m as int) =~= fr.clusters_filling@);
            assert(s@.take(k as int + 1).drop_last() =~= s@.take(k as int));
            assert(s@.take(k as int + 1).last() == s@[k as int]);
        }
        k = k + 1;
    }
    proof {
        assert(s@.take(n as int) =~= s@);
    }
    out
}

/// Collects the filling fractions of cluster `c` over frames `[lo, hi)`.
pub fn window_values(s: &Vec<FrameResult>, lo: usize, hi: usize, c: i32) -> (r: Vec<Frac>)
    requires
        lo <= hi <= s@.len(),
        forall|k: int| 0 <= k < s@.len() ==> (#[trigger] s@[k]).wf(),
    ensures
        r@ == spec_window_values(s@, lo as int, hi as int, c),
        all_wf(r@),
        r@.len() == hi - lo,
{
    let mut out: Vec<Frac> = Vec::new();
    let mut k = lo;
    proof {
        assert(out@ =~= spec_window_values(s@, lo as int, lo as int, c));
    }
    while k < hi
        invariant
            lo <= k <= hi <= s@.len(),
            forall|p: int| 0 <= p < s@.len() ==> (#[trigger] s@[p]).wf(),
            out@ == spec_window_values(s@, lo as int, k as int, c),
            all_wf(out@),
            out@.len() == k - lo,
        decreases hi - k,
    {
        let fr = &s[k];
        let v = filling_of(&fr.clusters_filling, c);
        proof {
            lemma_filling_wf(fr.clusters_filling@, c);
        }
        out.push(v);
        proof {
            assert(out@ =~= spec_window_values(s@, lo as int, k as int + 1, c));
        }
        k = k + 1;
    }
    out
}

/// Aggregates frame records into per-window cluster means.
///
/// Records are sorted by frame id and cut into windows of `window_size`
/// frames (ceiling division; the last window may be shorter).  Each
/// window reports the frame id of its first member and, for every cluster
/// id in the input, the exact mean of that cluster's filling over the
/// window — thresholded to one or zero against `cutoff` after averaging,
/// when a cutoff is given.  Fails with a validation error exactly when
/// the input is empty, and with an overflow error exactly when some exact
/// window mean does not fit 64-bit words.
pub fn aggregate_windows(results: Vec<FrameResult>, window_size: usize, cutoff: Option<Frac>) -> (r:
    Result<Vec<WindowSummary>, AnalysisError>)
    requires
        window_size >= 1,
        forall|k: int| 0 <= k < results@.len() ==> (#[trigger] results@[k]).wf(),
    ensures
        match r {
            Ok(out) => {
                &&& results@.len() > 0
                &&& spec_agg_all_fit(
                    spec_sort_by_frame(results@),
                    window_size as int,
                    spec_union_ids(spec_sort_by_frame(results@)),
                )
                &&& out@.len() == spec_num_windows(results@.len() as int, window_size as int)
                &&& forall|wi: int|
                    0 <= wi < out@.len() ==> spec_window_summary_ok(
                        #[trigger] out@[wi],
                        spec_sort_by_frame(results@),
                        wi,
                        window_size as int,
                        spec_union_ids(spec_sort_by_frame(results@)),
                        cutoff,
                    )
                &&& forall|wi: int| 0 <= wi < out@.len() ==> (#[trigger] out@[wi]).wf()
            },
            Err(e) => {
                &&& (e == AnalysisError::ValidationError || e == AnalysisError::NumericOverflow)
                &&& (e == AnalysisError::ValidationError <==> results@.len() == 0)
                &&& (e == AnalysisError::NumericOverflow ==> results@.len() > 0
                    && !spec_agg_all_fit(
                    spec_sort_by_frame(results@),
                    window_size as int,
                    spec_union_ids(spec_sort_by_frame(results@)),
                ))
            },
        },
{
    let ghost input = results@;
    if results.len() == 0 {
        return Err(AnalysisError::ValidationError);
    }
    let sorted = sort_by_frame(results);
    proof {
        crate::results::lemma_sort_preserves_all(input, |fr: FrameResult| fr.wf());
        assert(forall|k: int|
            0 <= k < sorted@.len() ==> (#[trigger] sorted@[k]).wf());
    }
    let u = union_ids(&sorted);
    let n = sorted.len();
    let nu = u.len();
    let w = window_size;
    proof {
        assert(n >= 1);
    }
    let nw = if n % w == 0 {
        n / w
    } else {
        proof {
            lemma_fundamental_div_mod(n as int, w as int);
            assert((n as int / w as int) <= (n as int / w as int) * (w as int)) by (nonlinear_arith)
                requires
                    n as int / w as int >= 0,
                    w as int >= 1,
            ;
        }
        n / w + 1
    };
    let ghost su = sorted@;
    let ghost uu = u@;
    let mut out: Vec<WindowSummary> = Vec::new();
    let mut wi: usize = 0;
    while wi < nw
        invariant
            wi <= nw,
            0 < n == su.len(),
            nu == uu.len(),
            w == window_size >= 1,
            sorted@ == su,
            u@ == uu,
            nw == spec_num_windows(n as int, w as int),
            input == results@,
            su == spec_sort_by_frame(input),
            uu == spec_union_ids(su),
            keys_sorted(uu),
            forall|k: int| 0 <= k < su.len() ==> (#[trigger] su[k]).wf(),
            out@.len() == wi,
            forall|p: int|
                0 <= p < wi ==> spec_window_summary_ok(
                    #[trigger] out@[p],
                    su,
                    p,
                    w as int,
                    uu,
                    cutoff,
                ),
            forall|p: int| 0 <= p < wi ==> (#[trigger] out@[p]).wf(),
            forall|p: int, ci: int|
                0 <= p < wi && 0 <= ci < uu.len() ==> mean_fits(
                    #[trigger] spec_window_values(
                        su,
                        spec_window_lo(p, w as int),
                        spec_window_hi(p, w as int, n as int),
                        uu[ci],
                    ),
                ),
        decreases nw - wi,
    {
        proof {
            lemma_window_bounds(n as int, w as int, wi as int);
        }
        let lo = wi * w;
        let hi = if n - lo <= w {
            n
        } else {
            lo + w
        };
        proof {
            assert(lo as int == spec_window_lo(wi as int, w as int));
            assert(hi as int == spec_window_hi(wi as int, w as int, n as int));
        }
        let frame_id = sorted[lo].frame_key();
        let mut means: Vec<(i32, Frac)> = Vec::new();
        let mut ci: usize = 0;
        proof {
            assert(means@ =~= uu.take(0).map(
                |p: int, c: i32|
                    (
                        c,
                        spec_agg_value(
                            su,
                            spec_window_lo(wi as int, w as int),
                            spec_window_hi(wi as int, w as int, n as int),
                            c,
                            cutoff,
                        ),
                    ),
            ));
        }
        while ci < nu
            invariant
                ci <= nu,
                nu == uu.len(),
                0 < n == su.len(),
                w == window_size >= 1,
                sorted@ == su,
                u@ == uu,
                lo as int == spec_window_lo(wi as int, w as int),
                hi as int == spec_window_hi(wi as int, w as int, n as int),
                lo < hi <= n,
                (wi as int) < spec_num_windows(su.len() as int, w as int),
                input == results@,
                su == spec_sort_by_frame(input),
                uu == spec_union_ids(su),
                keys_sorted(uu),
                forall|k: int| 0 <= k < su.len() ==> (#[trigger] su[k]).wf(),
                means@ == uu.take(ci as int).map(
                    |p: int, c: i32|
                        (
                            c,
                            spec_agg_value(
                                su,
                                spec_window_lo(wi as int, w as int),
                                spec_window_hi(wi as int, w as int, n as int),
                                c,
                                cutoff,
                            ),
                        ),
                ),
                forall|p: int| 0 <= p < means@.len() ==> ((#[trigger] means@[p]).1).wf(),
                forall|cj: int|
                    0 <= cj < ci ==> mean_fits(
                        #[trigger] spec_window_values(
                            su,
                            spec_window_lo(wi as int, w as int),
                            spec_window_hi(wi as int, w as int, n as int),
                            uu[cj],
                        ),
                    ),
            decreases nu - ci,
        {
            let c = u[ci];
            let values = window_values(&sorted, lo, hi, c);
            let m = match frac_mean(&values) {
                Ok(m) => m,
                Err(_) => {
                    proof {
                        assert(!spec_agg_all_fit(su, w as int, uu)) by {
                            if spec_agg_all_fit(su, w as int, uu) {
                                assert(mean_fits(
                                    spec_window_values(
                                        su,
                                        spec_window_lo(wi as int, w as int),
                                        spec_window_hi(wi as int, w as int, su.len() as int),
                                        uu[ci as int],
                                    ),
                                ));
                            }
                        }
                    }
                    return Err(AnalysisError::NumericOverflow);
                },
            };
            let v = match &cutoff {
                None => m,
                Some(ct) => {
                    if m.ge(ct) {
                        Frac::one()
                    } else {
                        Frac::zero()
                    }
                },
            };
            means.push((c, v));
            proof {
                assert(means@ =~= uu.take(ci as int + 1).map(
                    |p: int, c2: i32|
                        (
                            c2,
                            spec_agg_value(
                                su,
                                spec_window_lo(wi as int, w as int),
                                spec_window_hi(wi as int, w as int, n as int),
                                c2,
                                cutoff,
                            ),
                        ),
                ));
            }
            ci = ci + 1;
        }
        proof {
            assert(uu.take(nu as int) =~= uu);
            assert(frac_map_wf(means@)) by {
                assert forall|a: int, b: int| 0 <= a < b < means@.len() implies (
                #[trigger] means@[a]).0 < (#[trigger] means@[b]).0 by {
                    assert(means@[a].0 == uu[a]);
                    assert(means@[b].0 == uu[b]);
                }
            }
        }
        let ws = WindowSummary { frame: frame_id, cluster_means: means };
        proof {
            assert(ws.cluster_means@ =~= uu.map(
                |ci2: int, c2: i32|
                    (
                        c2,
                        spec_agg_value(
                            su,
                            spec_window_lo(wi as int, w as int),
                            spec_window_hi(wi as int, w as int, n as int),
                            c2,
                            cutoff,
                        ),
                    ),
            ));
            assert(spec_window_summary_ok(ws, su, wi as int, w as int, uu, cutoff));
        }
        out.push(ws);
        wi = wi + 1;
    }
    Ok(out)
}

} // verus!
