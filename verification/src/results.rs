//! The per-frame, per-window and smoothed records the pipeline exchanges,
//! and the stable frame-order sort every consumer applies first.

use crate::numbers::Frac;
use crate::pairmap::{pairs_sorted, spec_lookup, map_get_copy};
use vstd::prelude::*;

verus! {

/// Result of evaluating the native contacts on one frame.
#[derive(Clone, Debug)]
pub struct FrameResult {
    /// Frame id from the trajectory.
    pub frame: i32,
    /// Number of native contacts formed in this frame.
    pub contacts: usize,
    /// Fraction of all native contacts formed: `contacts / total`.
    pub q: Frac,
    /// The formed contacts, as `(i, j)` residue pairs in native-set order.
    pub contact_list: Vec<(i32, i32)>,
    /// For every cluster of the native set, the fraction of its contacts
    /// formed in this frame; keys strictly sorted.
    pub clusters_filling: Vec<(i32, Frac)>,
}

/// Key-sorted fraction maps with well-formed values.
pub open spec fn frac_map_wf(s: Seq<(i32, Frac)>) -> bool {
    pairs_sorted(s) && forall|k: int| 0 <= k < s.len() ==> ((#[trigger] s[k]).1).wf()
}

impl FrameResult {
    pub open spec fn wf(self) -> bool {
        self.q.wf() && frac_map_wf(self.clusters_filling@)
    }
}

/// Mean cluster fillings over one window of frames.
#[derive(Clone, Debug)]
pub struct WindowSummary {
    /// Frame id of the first frame of the window.
    pub frame: i32,
    /// Mean (or binarized) filling fraction per cluster; keys strictly
    /// sorted.
    pub cluster_means: Vec<(i32, Frac)>,
}

impl WindowSummary {
    pub open spec fn wf(self) -> bool {
        frac_map_wf(self.cluster_means@)
    }
}

/// Centered running averages at one frame.
#[derive(Clone, Debug)]
pub struct SmoothedResult {
    pub frame: i32,
    /// Running average of `q` over the centered window.
    pub q_smooth: Frac,
    /// Running average per cluster; keys strictly sorted.
    pub cluster_smooth: Vec<(i32, Frac)>,
}

impl SmoothedResult {
    pub open spec fn wf(self) -> bool {
        self.q_smooth.wf() && frac_map_wf(self.cluster_smooth@)
    }
}

/// The filling bound to cluster `c`, taking zero when the key is absent.
pub open spec fn spec_filling_of(s: Seq<(i32, Frac)>, c: i32) -> Frac {
    match spec_lookup(s, c) {
        Some(f) => f,
        None => Frac::spec_zero(),
    }
}

/// Looks a cluster up in a fraction map, defaulting to zero.
pub fn filling_of(m: &Vec<(i32, Frac)>, c: i32) -> (r: Frac)
    ensures
        r == spec_filling_of(m@, c),
{
    match map_get_copy(m, c) {
        Some(f) => f,
        None => Frac::zero(),
    }
}

/// A missing key always reads as the zero fraction, which is well-formed;
/// so lookups into a well-formed map always yield well-formed fractions.
pub proof fn lemma_filling_wf(s: Seq<(i32, Frac)>, c: i32)
    requires
        frac_map_wf(s),
    ensures
        spec_filling_of(s, c).wf(),
    decreases s.len(),
{
    if s.len() > 0 && s[0].0 != c {
        assert(forall|k: int| 0 <= k < s.skip(1).len() ==> (#[trigger] s.skip(1)[k]) == s[k + 1]);
        assert forall|i: int, j: int| 0 <= i < j < s.skip(1).len() implies (#[trigger] s.skip(
            1,
        )[i]).0 < (#[trigger] s.skip(1)[j]).0 by {
            assert(s.skip(1)[i] == s[i + 1]);
            assert(s.skip(1)[j] == s[j + 1]);
        }
        lemma_filling_wf(s.skip(1), c);
    }
}

/// Records that carry a frame id, so one stable sort serves every record
/// kind.
pub trait FrameKeyed: Sized {
    /// The frame id, at the specification level.
    spec fn fkey(&self) -> i32;

    /// The frame id.
    fn frame_key(&self) -> (r: i32)
        ensures
            r == self.fkey(),
    ;
}

impl FrameKeyed for FrameResult {
    open spec fn fkey(&self) -> i32 {
        self.frame
    }

    fn frame_key(&self) -> (r: i32)
        ensures
            r == self.fkey(),
    {
        self.frame
    }
}

impl FrameKeyed for WindowSummary {
    open spec fn fkey(&self) -> i32 {
        self.frame
    }

    fn frame_key(&self) -> (r: i32)
        ensures
            r == self.fkey(),
    {
        self.frame
    }
}

/// Frame ids never decrease along the sequence.
pub open spec fn sorted_by_frame<T: FrameKeyed>(s: Seq<T>) -> bool {
    forall|i: int, j: int| 0 <= i < j < s.len() ==> (#[trigger] s[i]).fkey() <= (#[trigger] s[j]).fkey()
}

/// Stable insertion: the new record goes before the first record with a
/// strictly greater frame id, so equal ids keep their relative order.
pub open spec fn spec_insert_by_frame<T: FrameKeyed>(s: Seq<T>, x: T) -> Seq<T>
    decreases s.len(),
{
    if s.len() == 0 {
        seq![x]
    } else if x.fkey() < s[0].fkey() {
        seq![x] + s
    } else {
        seq![s[0]] + spec_insert_by_frame(s.skip(1), x)
    }
}

/// Stable insertion sort by frame id, processing records left to right.
pub open spec fn spec_sort_by_frame<T: FrameKeyed>(s: Seq<T>) -> Seq<T>
    decreases s.len(),
{
    if s.len() == 0 {
        Seq::empty()
    } else {
        spec_insert_by_frame(spec_sort_by_frame(s.drop_last()), s.last())
    }
}

/// Where a stable insertion lands: before the first strictly greater key.
proof fn lemma_insert_by_frame_shape<T: FrameKeyed>(s: Seq<T>, x: T, i: int)
    requires
        0 <= i <= s.len(),
        forall|j: int| 0 <= j < i ==> (#[trigger] s[j]).fkey() <= x.fkey(),
        i < s.len() ==> s[i].fkey() > x.fkey(),
    ensures
        spec_insert_by_frame(s, x) == s.take(i) + seq![x] + s.skip(i),
    decreases s.len(),
{
    if i == 0 {
        if s.len() == 0 {
            assert(spec_insert_by_frame(s, x) =~= s.take(0) + seq![x] + s.skip(0));
        } else {
            assert(x.fkey() < s[0].fkey());
            assert(seq![x] + s =~= s.take(0) + seq![x] + s.skip(0));
        }
    } else {
        let tail = s.skip(1);
        assert(forall|a: int| 0 <= a < tail.len() ==> (#[trigger] tail[a]) == s[a + 1]);
        lemma_insert_by_frame_shape(tail, x, i - 1);
        assert(s[0].fkey() <= x.fkey());
        assert(!(x.fkey() < s[0].fkey()));
        assert(spec_insert_by_frame(s, x) == seq![s[0]] + spec_insert_by_frame(tail, x));
        assert(seq![s[0]] + (tail.take(i - 1) + seq![x] + tail.skip(i - 1)) =~= s.take(i) + seq![x]
            + s.skip(i));
    }
}

/// Stable insertion keeps the sequence sorted.
pub proof fn lemma_insert_by_frame_sorted<T: FrameKeyed>(s: Seq<T>, x: T)
    requires
        sorted_by_frame(s),
    ensures
        sorted_by_frame(spec_insert_by_frame(s, x)),
    decreases s.len(),
{
    let r = spec_insert_by_frame(s, x);
    if s.len() == 0 {
    } else if x.fkey() < s[0].fkey() {
        assert forall|i: int, j: int| 0 <= i < j < r.len() implies (#[trigger] r[i]).fkey() <= (
        #[trigger] r[j]).fkey() by {
            if i > 0 {
                assert(r[i] == s[i - 1]);
                assert(r[j] == s[j - 1]);
            } else {
                assert(r[j] == s[j - 1]);
                if j > 1 {
                    assert(s[0].fkey() <= s[j - 1].fkey());
                }
            }
        }
    } else {
        let tail = s.skip(1);
        assert(forall|a: int| 0 <= a < tail.len() ==> (#[trigger] tail[a]) == s[a + 1]);
        assert(sorted_by_frame(tail));
        lemma_insert_by_frame_sorted(tail, x);
        let rt = spec_insert_by_frame(tail, x);
        assert(r == seq![s[0]] + rt);
        lemma_insert_by_frame_lower_bound(tail, x, s[0].fkey());
        assert forall|i: int, j: int| 0 <= i < j < r.len() implies (#[trigger] r[i]).fkey() <= (
        #[trigger] r[j]).fkey() by {
            if i > 0 {
                assert(r[i] == rt[i - 1]);
                assert(r[j] == rt[j - 1]);
            } else {
                assert(r[j] == rt[j - 1]);
            }
        }
    }
}

/// Keys at least `bound` stay at least `bound` after inserting a record
/// whose key is at least `bound`.
proof fn lemma_insert_by_frame_lower_bound<T: FrameKeyed>(s: Seq<T>, x: T, bound: i32)
    requires
        bound <= x.fkey(),
        forall|i: int| 0 <= i < s.len() ==> bound <= (#[trigger] s[i]).fkey(),
    ensures
        forall|i: int|
            0 <= i < spec_insert_by_frame(s, x).len() ==> bound <= (#[trigger] spec_insert_by_frame(
                s,
                x,
            )[i]).fkey(),
    decreases s.len(),
{
    let r = spec_insert_by_frame(s, x);
    if s.len() == 0 {
    } else if x.fkey() < s[0].fkey() {
        assert(forall|i: int| 1 <= i < r.len() ==> (#[trigger] r[i]) == s[i - 1]);
    } else {
        let tail = s.skip(1);
        assert(forall|a: int| 0 <= a < tail.len() ==> (#[trigger] tail[a]) == s[a + 1]);
        lemma_insert_by_frame_lower_bound(tail, x, bound);
        assert(forall|i: int|
            1 <= i < r.len() ==> (#[trigger] r[i]) == spec_insert_by_frame(tail, x)[i - 1]);
    }
}

/// Sorting an already frame-ordered sequence leaves it unchanged.
pub proof fn lemma_sort_of_sorted<T: FrameKeyed>(s: Seq<T>)
    requires
        sorted_by_frame(s),
    ensures
        spec_sort_by_frame(s) == s,
    decreases s.len(),
{
    if s.len() > 0 {
        let p = s.drop_last();
        assert(forall|i: int| 0 <= i < p.len() ==> (#[trigger] p[i]) == s[i]);
        assert(sorted_by_frame(p));
        lemma_sort_of_sorted(p);
        assert(forall|j: int| 0 <= j < p.len() ==> (#[trigger] p[j]).fkey() <= s.last().fkey());
        lemma_insert_by_frame_shape(p, s.last(), p.len() as int);
        assert(p.take(p.len() as int) =~= p);
        assert(spec_insert_by_frame(p, s.last()) =~= s);
    }
}

/// Stable insertion grows the length by one.
pub proof fn lemma_insert_by_frame_len<T: FrameKeyed>(s: Seq<T>, x: T)
    ensures
        spec_insert_by_frame(s, x).len() == s.len() + 1,
    decreases s.len(),
{
    if s.len() > 0 && !(x.fkey() < s[0].fkey()) {
        lemma_insert_by_frame_len(s.skip(1), x);
    }
}

/// The stable sort keeps the length.
pub proof fn lemma_sort_by_frame_len<T: FrameKeyed>(s: Seq<T>)
    ensures
        spec_sort_by_frame(s).len() == s.len(),
    decreases s.len(),
{
    if s.len() > 0 {
        lemma_sort_by_frame_len(s.drop_last());
        lemma_insert_by_frame_len(spec_sort_by_frame(s.drop_last()), s.last());
    }
}

/// Stable insertion only rearranges: a property of every member holds
/// afterwards if it held of every member and of the inserted record.
proof fn lemma_insert_preserves_all<T: FrameKeyed>(s: Seq<T>, x: T, p: spec_fn(T) -> bool)
    requires
        forall|i: int| 0 <= i < s.len() ==> p(#[trigger] s[i]),
        p(x),
    ensures
        forall|i: int|
            0 <= i < spec_insert_by_frame(s, x).len() ==> p(#[trigger] spec_insert_by_frame(s, x)[i]),
    decreases s.len(),
{
    let r = spec_insert_by_frame(s, x);
    if s.len() == 0 {
    } else if x.fkey() < s[0].fkey() {
        assert(forall|i: int| 1 <= i < r.len() ==> (#[trigger] r[i]) == s[i - 1]);
    } else {
        let tail = s.skip(1);
        assert(forall|a: int| 0 <= a < tail.len() ==> (#[trigger] tail[a]) == s[a + 1]);
        lemma_insert_preserves_all(tail, x, p);
        assert(forall|i: int|
            1 <= i < r.len() ==> (#[trigger] r[i]) == spec_insert_by_frame(tail, x)[i - 1]);
    }
}

/// Sorting only rearranges: a property of every member survives the sort,
/// and the length is unchanged.
pub proof fn lemma_sort_preserves_all<T: FrameKeyed>(s: Seq<T>, p: spec_fn(T) -> bool)
    requires
        forall|i: int| 0 <= i < s.len() ==> p(#[trigger] s[i]),
    ensures
        spec_sort_by_frame(s).len() == s.len(),
        forall|i: int|
            0 <= i < spec_sort_by_frame(s).len() ==> p(#[trigger] spec_sort_by_frame(s)[i]),
    decreases s.len(),
{
    lemma_sort_by_frame_len(s);
    if s.len() > 0 {
        let prefix = s.drop_last();
        assert(forall|i: int| 0 <= i < prefix.len() ==> (#[trigger] prefix[i]) == s[i]);
        lemma_sort_preserves_all(prefix, p);
        lemma_insert_preserves_all(spec_sort_by_frame(prefix), s.last(), p);
    }
}

/// Reads the frame key of the record at `i`.
fn key_at<T: FrameKeyed>(v: &Vec<T>, i: usize) -> (r: i32)
    requires
        i < v@.len(),
    ensures
        r == v@[i as int].fkey(),
{
    let x: &T = &v[i];
    x.frame_key()
}

/// Sorts records by frame id with a stable insertion sort, consuming the
/// input.
pub fn sort_by_frame<T: FrameKeyed>(input: Vec<T>) -> (r: Vec<T>)
    ensures
        r@ == spec_sort_by_frame(input@),
        sorted_by_frame(r@),
{
    let ghost orig: Seq<T> = input@;
    let mut rest = input;
    let mut out: Vec<T> = Vec::new();
    let mut k: usize = 0;
    let n = rest.len();
    proof {
        assert(orig.take(0) =~= Seq::<T>::empty());
    }
    while k < n
        invariant
            k <= n,
            n == orig.len(),
            rest@ == orig.skip(k as int),
            out@ == spec_sort_by_frame(orig.take(k as int)),
            sorted_by_frame(out@),
        decreases n - k,
    {
        let x = rest.remove(0);
        proof {
            assert(orig.skip(k as int)[0] == orig[k as int]);
            assert(orig.skip(k as int).skip(1) =~= orig.skip(k as int + 1));
        }
        // find the stable insertion point
        let m = out.len();
        let mut i: usize = 0;
        let xk = x.frame_key();
        while i < m && key_at(&out, i) <= xk
            invariant
                i <= m,
                m == out@.len(),
                xk == x.fkey(),
                forall|j: int| 0 <= j < i ==> (#[trigger] out@[j]).fkey() <= x.fkey(),
            decreases m - i,
        {
            i = i + 1;
        }
        let ghost prev = out@;
        proof {
            lemma_insert_by_frame_shape(prev, x, i as int);
            lemma_insert_by_frame_sorted(prev, x);
            assert(orig.take(k as int + 1).drop_last() =~= orig.take(k as int));
            assert(orig.take(k as int + 1).last() == orig[k as int]);
        }
        out.insert(i, x);
        proof {
            assert(out@ =~= prev.take(i as int) + seq![x] + prev.skip(i as int));
        }
        k = k + 1;
    }
    proof {
        assert(orig.take(n as int) =~= orig);
    }
    out
}

} // verus!
