//! The per-frame native-contact evaluator.
//!
//! For each frame of a parsed trajectory, a contact `(i, j, r, cluster)`
//! is formed exactly when both residues have coordinates in the frame and
//! their distance is strictly below `r * cutoff`.  The frame's record
//! carries the formed count, the global progress fraction `q`, the formed
//! pairs, and the per-cluster filling fraction for every cluster of the
//! native set.

use crate::contacts::{contacts_wf, Contact};
use crate::geometry::{frame_data_wf, spec_within_cutoff, Coordinate, CUTOFF_LIMIT};
use crate::numbers::Frac;
use crate::pairmap::{
    key_insert, keys_sorted, map_get_copy, pairs_sorted, spec_key_insert, spec_lookup,
};
use crate::results::{frac_map_wf, FrameResult};
use crate::trajectory::{trajectory_wf, TrajectoryData};
use vstd::prelude::*;

verus! {

/// Whether contact `c` is formed in the frame table `fd` under `cutoff`
/// (milli-units): both residues present, distance strictly below
/// `c.r * cutoff`.
pub open spec fn spec_formed(c: Contact, fd: Seq<(i32, Coordinate)>, cutoff: u64) -> bool {
    match (spec_lookup(fd, c.i), spec_lookup(fd, c.j)) {
        (Some(ci), Some(cj)) => spec_within_cutoff(ci.spec_dist_sq(cj), c.r, cutoff),
        _ => false,
    }
}

/// How many of the contacts are formed.
pub open spec fn spec_formed_count(s: Seq<Contact>, fd: Seq<(i32, Coordinate)>, cutoff: u64) -> nat
    decreases s.len(),
{
    if s.len() == 0 {
        0
    } else {
        spec_formed_count(s.drop_last(), fd, cutoff) + if spec_formed(s.last(), fd, cutoff) {
            1nat
        } else {
            0nat
        }
    }
}

/// The formed contacts as `(i, j)` pairs, in native-set order.
pub open spec fn spec_formed_list(s: Seq<Contact>, fd: Seq<(i32, Coordinate)>, cutoff: u64) -> Seq<
    (i32, i32),
>
    decreases s.len(),
{
    if s.len() == 0 {
        Seq::empty()
    } else {
        spec_formed_list(s.drop_last(), fd, cutoff) + if spec_formed(s.last(), fd, cutoff) {
            seq![(s.last().i, s.last().j)]
        } else {
            Seq::empty()
        }
    }
}

/// How many formed contacts belong to cluster `c`.
pub open spec fn spec_cluster_formed_count(
    s: Seq<Contact>,
    fd: Seq<(i32, Coordinate)>,
    cutoff: u64,
    c: i32,
) -> nat
    decreases s.len(),
{
    if s.len() == 0 {
        0
    } else {
        spec_cluster_formed_count(s.drop_last(), fd, cutoff, c) + if s.last().cluster == c
            && spec_formed(s.last(), fd, cutoff) {
            1nat
        } else {
            0nat
        }
    }
}

/// How many native contacts belong to cluster `c`.
pub open spec fn spec_cluster_size(s: Seq<Contact>, c: i32) -> nat
    decreases s.len(),
{
    if s.len() == 0 {
        0
    } else {
        spec_cluster_size(s.drop_last(), c) + if s.last().cluster == c {
            1nat
        } else {
            0nat
        }
    }
}

/// The sorted distinct cluster ids of the native set.
pub open spec fn spec_cluster_ids(s: Seq<Contact>) -> Seq<i32>
    decreases s.len(),
{
    if s.len() == 0 {
        Seq::empty()
    } else {
        spec_key_insert(spec_cluster_ids(s.drop_last()), s.last().cluster)
    }
}

/// The filling fraction of cluster `c`: formed over native count, zero
/// when the cluster has no native contacts.
pub open spec fn spec_cluster_frac(
    s: Seq<Contact>,
    fd: Seq<(i32, Coordinate)>,
    cutoff: u64,
    c: i32,
) -> Frac {
    if spec_cluster_size(s, c) == 0 {
        Frac::spec_zero()
    } else {
        Frac {
            num: spec_cluster_formed_count(s, fd, cutoff, c) as u64,
            den: spec_cluster_size(s, c) as u64,
        }
    }
}

/// The whole filling map of a frame: one entry per cluster id.
pub open spec fn spec_filling_pairs(
    ids: Seq<i32>,
    s: Seq<Contact>,
    fd: Seq<(i32, Coordinate)>,
    cutoff: u64,
) -> Seq<(i32, Frac)> {
    ids.map(|u: int, c: i32| (c, spec_cluster_frac(s, fd, cutoff, c)))
}

/// The global progress fraction of a frame: formed contacts over the
/// whole native set (zero for an empty native set).
pub open spec fn spec_q(s: Seq<Contact>, fd: Seq<(i32, Coordinate)>, cutoff: u64) -> Frac {
    if s.len() == 0 {
        Frac::spec_zero()
    } else {
        Frac { num: spec_formed_count(s, fd, cutoff) as u64, den: s.len() as u64 }
    }
}

/// What the evaluator promises of the record it emits for frame `k`.
pub open spec fn spec_frame_result_ok(
    r: FrameResult,
    frame: i32,
    s: Seq<Contact>,
    fd: Seq<(i32, Coordinate)>,
    cutoff: u64,
) -> bool {
    &&& r.frame == frame
    &&& r.contacts == spec_formed_count(s, fd, cutoff)
    &&& r.q == spec_q(s, fd, cutoff)
    &&& r.contact_list@ == spec_formed_list(s, fd, cutoff)
    &&& r.clusters_filling@ == spec_filling_pairs(spec_cluster_ids(s), s, fd, cutoff)
}

/// In every frame record, `q` is exactly the number of formed contacts
/// over the size of the whole native set — never cluster-restricted — and
/// as a well-formed fraction it lies in `[0, 1]`.
pub proof fn lemma_q_exact(s: Seq<Contact>, fd: Seq<(i32, Coordinate)>, cutoff: u64)
    requires
        s.len() <= u64::MAX,
    ensures
        s.len() > 0 ==> spec_q(s, fd, cutoff) == (Frac {
            num: spec_formed_count(s, fd, cutoff) as u64,
            den: s.len() as u64,
        }),
        s.len() == 0 ==> spec_q(s, fd, cutoff) == Frac::spec_zero(),
        spec_q(s, fd, cutoff).wf(),
{
    lemma_counts_bounded(s, fd, cutoff, 0);
}

/// Looking a cluster up in a frame's filling map yields its exact
/// fraction when the cluster is in the universe, and nothing otherwise.
proof fn lemma_lookup_filling_pairs(
    ids: Seq<i32>,
    s: Seq<Contact>,
    fd: Seq<(i32, Coordinate)>,
    cutoff: u64,
    c: i32,
)
    ensures
        spec_lookup(spec_filling_pairs(ids, s, fd, cutoff), c) == (if ids.contains(c) {
            Some(spec_cluster_frac(s, fd, cutoff, c))
        } else {
            None::<Frac>
        }),
    decreases ids.len(),
{
    let m = spec_filling_pairs(ids, s, fd, cutoff);
    if ids.len() == 0 {
        assert(!ids.contains(c));
    } else {
        assert(m[0] == (ids[0], spec_cluster_frac(s, fd, cutoff, ids[0])));
        if ids[0] == c {
            assert(ids.contains(c)) by {
                assert(ids[0] == c);
            }
        } else {
            lemma_lookup_filling_pairs(ids.skip(1), s, fd, cutoff, c);
            assert(m.skip(1) =~= spec_filling_pairs(ids.skip(1), s, fd, cutoff));
            assert(spec_lookup(m, c) == spec_lookup(m.skip(1), c));
            assert(ids.contains(c) <==> ids.skip(1).contains(c)) by {
                if ids.contains(c) {
                    let w = choose|w: int| 0 <= w < ids.len() && ids[w] == c;
                    assert(ids.skip(1)[w - 1] == c);
                }
                if ids.skip(1).contains(c) {
                    let w = choose|w: int| 0 <= w < ids.skip(1).len() && ids.skip(1)[w] == c;
                    assert(ids[w + 1] == c);
                }
            }
        }
    }
}

/// A cluster with no native contacts reads as the zero fraction in every
/// frame's filling map.
pub proof fn lemma_empty_cluster_filling(
    s: Seq<Contact>,
    fd: Seq<(i32, Coordinate)>,
    cutoff: u64,
    c: i32,
)
    requires
        spec_cluster_size(s, c) == 0,
    ensures
        crate::results::spec_filling_of(
            spec_filling_pairs(spec_cluster_ids(s), s, fd, cutoff),
            c,
        ) == Frac::spec_zero(),
{
    lemma_lookup_filling_pairs(spec_cluster_ids(s), s, fd, cutoff, c);
    if spec_cluster_ids(s).contains(c) {
        assert(spec_cluster_frac(s, fd, cutoff, c) == Frac::spec_zero());
    }
}

/// Counts are bounded by the number of contacts considered.
proof fn lemma_counts_bounded(s: Seq<Contact>, fd: Seq<(i32, Coordinate)>, cutoff: u64, c: i32)
    ensures
        spec_formed_count(s, fd, cutoff) <= s.len(),
        spec_cluster_formed_count(s, fd, cutoff, c) <= spec_cluster_size(s, c),
        spec_cluster_size(s, c) <= s.len(),
    decreases s.len(),
{
    if s.len() > 0 {
        lemma_counts_bounded(s.drop_last(), fd, cutoff, c);
    }
}

/// Computes the sorted distinct cluster ids of the native set.
fn cluster_ids(contacts: &Vec<Contact>) -> (r: Vec<i32>)
    ensures
        r@ == spec_cluster_ids(contacts@),
        keys_sorted(r@),
{
    let mut ids: Vec<i32> = Vec::new();
    let n = contacts.len();
    let mut t: usize = 0;
    proof {
        assert(contacts@.take(0) =~= Seq::<Contact>::empty());
    }
    while t < n
        invariant
            t <= n,
            n == contacts@.len(),
            ids@ == spec_cluster_ids(contacts@.take(t as int)),
            keys_sorted(ids@),
        decreases n - t,
    {
        proof {
            assert(contacts@.take(t as int + 1).drop_last() =~= contacts@.take(t as int));
            assert(contacts@.take(t as int + 1).last() == contacts@[t as int]);
        }
        key_insert(&mut ids, contacts[t].cluster);
        t = t + 1;
    }
    proof {
        assert(contacts@.take(n as int) =~= contacts@);
    }
    ids
}

/// Counts, for cluster `c`, the formed contacts and the native size.
fn cluster_counts(
    contacts: &Vec<Contact>,
    fd: &Vec<(i32, Coordinate)>,
    cutoff: u64,
    c: i32,
) -> (r: (usize, usize))
    requires
        contacts_wf(contacts@),
        frame_data_wf(fd@),
        cutoff <= CUTOFF_LIMIT,
    ensures
        r.0 == spec_cluster_formed_count(contacts@, fd@, cutoff, c),
        r.1 == spec_cluster_size(contacts@, c),
        r.0 <= r.1 <= contacts@.len(),
{
    let n = contacts.len();
    let mut cnt: usize = 0;
    let mut size: usize = 0;
    let mut t: usize = 0;
    proof {
        assert(contacts@.take(0) =~= Seq::<Contact>::empty());
    }
    while t < n
        invariant
            t <= n,
            n == contacts@.len(),
            contacts_wf(contacts@),
            frame_data_wf(fd@),
            cutoff <= CUTOFF_LIMIT,
            cnt == spec_cluster_formed_count(contacts@.take(t as int), fd@, cutoff, c),
            size == spec_cluster_size(contacts@.take(t as int), c),
            cnt <= size <= t,
        decreases n - t,
    {
        let ct = contacts[t];
        proof {
            assert(contacts@[t as int].wf());
            assert(contacts@.take(t as int + 1).drop_last() =~= contacts@.take(t as int));
            assert(contacts@.take(t as int + 1).last() == contacts@[t as int]);
        }
        if ct.cluster == c {
            size = size + 1;
            if contact_formed(&ct, fd, cutoff) {
                cnt = cnt + 1;
            }
        }
        t = t + 1;
    }
    proof {
        assert(contacts@.take(n as int) =~= contacts@);
    }
    (cnt, size)
}

/// Decides whether one contact is formed in the frame.
fn contact_formed(c: &Contact, fd: &Vec<(i32, Coordinate)>, cutoff: u64) -> (r: bool)
    requires
        c.wf(),
        frame_data_wf(fd@),
        cutoff <= CUTOFF_LIMIT,
    ensures
        r == spec_formed(*c, fd@, cutoff),
{
    let ci = map_get_copy(fd, c.i);
    let cj = map_get_copy(fd, c.j);
    match (ci, cj) {
        (Some(pi), Some(pj)) => {
            proof {
                lemma_lookup_coord_wf(fd@, c.i);
                lemma_lookup_coord_wf(fd@, c.j);
            }
            let d = pi.dist_sq(&pj);
            crate::geometry::within_cutoff(d, c.r, cutoff)
        },
        _ => false,
    }
}

/// Coordinates looked up in a well-formed frame table are in range.
proof fn lemma_lookup_coord_wf(fd: Seq<(i32, Coordinate)>, key: i32)
    requires
        frame_data_wf(fd),
        spec_lookup(fd, key) is Some,
    ensures
        (spec_lookup(fd, key) matches Some(v) ==> v.wf()),
    decreases fd.len(),
{
    if fd.len() > 0 && fd[0].0 != key {
        assert(forall|k: int| 0 <= k < fd.skip(1).len() ==> (#[trigger] fd.skip(1)[k]) == fd[k + 1]);
        assert forall|i: int, j: int| 0 <= i < j < fd.skip(1).len() implies (#[trigger] fd.skip(
            1,
        )[i]).0 < (#[trigger] fd.skip(1)[j]).0 by {
            assert(fd.skip(1)[i] == fd[i + 1]);
            assert(fd.skip(1)[j] == fd[j + 1]);
        }
        lemma_lookup_coord_wf(fd.skip(1), key);
    }
}

/// Evaluates the native contacts on every frame of a parsed trajectory.
///
/// One record per frame, in ascending frame order (the trajectory table
/// is already frame-sorted).  For each frame: the number of formed
/// contacts, `q` as formed over the full native-set size, the list of
/// formed pairs, and for every cluster id of the native set the fraction
/// of that cluster's contacts formed (zero-sized clusters read as zero).
pub fn evaluate_contacts(traj: &TrajectoryData, contacts: &Vec<Contact>, cutoff: u64) -> (r: Vec<
    FrameResult,
>)
    requires
        trajectory_wf(traj@),
        contacts_wf(contacts@),
        cutoff <= CUTOFF_LIMIT,
    ensures
        r@.len() == traj@.len(),
        forall|k: int|
            0 <= k < traj@.len() ==> spec_frame_result_ok(
                #[trigger] r@[k],
                traj@[k].0,
                contacts@,
                traj@[k].1@,
                cutoff,
            ),
        forall|k: int| 0 <= k < traj@.len() ==> (#[trigger] r@[k]).wf(),
{
    let ids = cluster_ids(contacts);
    let total = contacts.len();
    let nf = traj.len();
    let mut out: Vec<FrameResult> = Vec::new();
    let mut k: usize = 0;
    while k < nf
        invariant
            k <= nf,
            nf == traj@.len(),
            trajectory_wf(traj@),
            contacts_wf(contacts@),
            cutoff <= CUTOFF_LIMIT,
            total == contacts@.len(),
            ids@ == spec_cluster_ids(contacts@),
            keys_sorted(ids@),
            out@.len() == k,
            forall|p: int|
                0 <= p < k ==> spec_frame_result_ok(
                    #[trigger] out@[p],
                    traj@[p].0,
                    contacts@,
                    traj@[p].1@,
                    cutoff,
                ),
            forall|p: int| 0 <= p < k ==> (#[trigger] out@[p]).wf(),
        decreases nf - k,
    {
        let pair = &traj[k];
        let frame_id = pair.0;
        let fd = &pair.1;
        proof {
            assert(frame_data_wf(fd@));
        }
        // formed count and formed pair list over the native set
        let mut formed_list: Vec<(i32, i32)> = Vec::new();
        let mut formed: usize = 0;
        let mut t: usize = 0;
        proof {
            assert(contacts@.take(0) =~= Seq::<Contact>::empty());
        }
        while t < total
            invariant
                t <= total,
                total == contacts@.len(),
                contacts_wf(contacts@),
                frame_data_wf(fd@),
                cutoff <= CUTOFF_LIMIT,
                formed == spec_formed_count(contacts@.take(t as int), fd@, cutoff),
                formed_list@ == spec_formed_list(contacts@.take(t as int), fd@, cutoff),
                formed <= t,
            decreases total - t,
        {
            let ct = contacts[t];
            proof {
                assert(contacts@[t as int].wf());
                assert(contacts@.take(t as int + 1).drop_last() =~= contacts@.take(t as int));
                assert(contacts@.take(t as int + 1).last() == contacts@[t as int]);
            }
            if contact_formed(&ct, fd, cutoff) {
                formed_list.push((ct.i, ct.j));
                formed = formed + 1;
            }
            t = t + 1;
        }
        proof {
            assert(contacts@.take(total as int) =~= contacts@);
        }
        // the global progress fraction
        let q = if total == 0 {
            Frac::zero()
        } else {
            Frac::new(formed as u64, total as u64)
        };
        // per-cluster fillings over the sorted cluster universe
        let mut filling: Vec<(i32, Frac)> = Vec::new();
        let nids = ids.len();
        let mut u: usize = 0;
        proof {
            assert(ids@.take(0) =~= Seq::<i32>::empty());
            assert(filling@ =~= spec_filling_pairs(ids@.take(0), contacts@, fd@, cutoff));
        }
        while u < nids
            invariant
                u <= nids,
                nids == ids@.len(),
                ids@ == spec_cluster_ids(contacts@),
                keys_sorted(ids@),
                contacts_wf(contacts@),
                frame_data_wf(fd@),
                cutoff <= CUTOFF_LIMIT,
                filling@ == spec_filling_pairs(ids@.take(u as int), contacts@, fd@, cutoff),
            decreases nids - u,
        {
            let c = ids[u];
            let (cnt, size) = cluster_counts(contacts, fd, cutoff, c);
            let f = if size == 0 {
                Frac::zero()
            } else {
                Frac::new(cnt as u64, size as u64)
            };
            filling.push((c, f));
            proof {
                assert(filling@ =~= spec_filling_pairs(
                    ids@.take(u as int + 1),
                    contacts@,
                    fd@,
                    cutoff,
                ));
            }
            u = u + 1;
        }
        proof {
            assert(ids@.take(nids as int) =~= ids@);
            lemma_counts_bounded(contacts@, fd@, cutoff, 0);
            assert(frac_map_wf(filling@)) by {
                assert forall|a: int| 0 <= a < filling@.len() implies ((#[trigger] filling@[a]).1).wf() by {
                    assert(filling@[a] == (ids@[a], spec_cluster_frac(contacts@, fd@, cutoff, ids@[a])));
                    lemma_counts_bounded(contacts@, fd@, cutoff, ids@[a]);
                }
                assert forall|a: int, b: int| 0 <= a < b < filling@.len() implies (
                #[trigger] filling@[a]).0 < (#[trigger] filling@[b]).0 by {
                    assert(filling@[a].0 == ids@[a]);
                    assert(filling@[b].0 == ids@[b]);
                }
            }
        }
        let fr = FrameResult {
            frame: frame_id,
            contacts: formed,
            q,
            contact_list: formed_list,
            clusters_filling: filling,
        };
        out.push(fr);
        k = k + 1;
    }
    out
}

} // verus!
