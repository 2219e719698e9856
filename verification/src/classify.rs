//! The formation-order classifier.
//!
//! Given a binarized per-window summary, the classifier finds the first
//! window where every non-background cluster is formed (or, failing that,
//! the first window with the most clusters formed), then walks backwards
//! recording each cluster the first time it is seen to break; clusters
//! still formed at the first window are taken to have formed before the
//! observation began.  The reverse of that record is the formation order,
//! earliest-formed cluster first.

use crate::errors::AnalysisError;
use crate::numbers::Frac;
use crate::results::{sort_by_frame, spec_filling_of, spec_sort_by_frame, WindowSummary};
use vstd::prelude::*;

verus! {

/// The classifier's universe: the non-background cluster ids named by the
/// first record, in their (sorted) key order.
pub open spec fn spec_nonzero_keys(s: Seq<(i32, Frac)>) -> Seq<i32>
    decreases s.len(),
{
    if s.len() == 0 {
        Seq::empty()
    } else {
        spec_nonzero_keys(s.drop_last()) + if s.last().0 != 0 {
            seq![s.last().0]
        } else {
            Seq::empty()
        }
    }
}

/// A cluster is formed in a window when its value reaches one.
pub open spec fn spec_is_formed(w: Seq<(i32, Frac)>, c: i32) -> bool {
    spec_filling_of(w, c).spec_ge(Frac::spec_one())
}

/// The clusters of the universe formed in window `w`, in universe order.
pub open spec fn spec_formed_ids(w: Seq<(i32, Frac)>, u: Seq<i32>) -> Seq<i32>
    decreases u.len(),
{
    if u.len() == 0 {
        Seq::empty()
    } else {
        spec_formed_ids(w, u.drop_last()) + if spec_is_formed(w, u.last()) {
            seq![u.last()]
        } else {
            Seq::empty()
        }
    }
}

/// The members of `cf` that appear neither in `f` nor in `rec`, in `cf`
/// order: the clusters newly seen to break at a window.
pub open spec fn spec_break_list(cf: Seq<i32>, f: Seq<i32>, rec: Seq<i32>) -> Seq<i32>
    decreases cf.len(),
{
    if cf.len() == 0 {
        Seq::empty()
    } else {
        spec_break_list(cf.drop_last(), f, rec) + if !f.contains(cf.last()) && !rec.contains(
            cf.last(),
        ) {
            seq![cf.last()]
        } else {
            Seq::empty()
        }
    }
}

/// How many universe clusters are formed in window `i` of `s`.
pub open spec fn spec_window_count(s: Seq<WindowSummary>, u: Seq<i32>, i: int) -> nat {
    spec_formed_ids(s[i].cluster_means@, u).len()
}

/// The first window index at or after `i` where the whole universe is
/// formed.
pub open spec fn spec_first_full_from(s: Seq<WindowSummary>, u: Seq<i32>, i: int) -> Option<int>
    decreases s.len() - i,
{
    if i < 0 || i >= s.len() {
        None
    } else if spec_window_count(s, u, i) == u.len() {
        Some(i)
    } else {
        spec_first_full_from(s, u, i + 1)
    }
}

/// The forward scan over the first `n` windows: the maximum formed count
/// seen and the first window index attaining it (zero and window zero
/// before anything is seen).
pub open spec fn spec_scan_max(s: Seq<WindowSummary>, u: Seq<i32>, n: int) -> (nat, int)
    decreases n,
{
    if n <= 0 {
        (0nat, 0int)
    } else {
        let prev = spec_scan_max(s, u, n - 1);
        if spec_window_count(s, u, n - 1) > prev.0 {
            (spec_window_count(s, u, n - 1), n - 1)
        } else {
            prev
        }
    }
}

/// The window the backward walk starts from: the first all-formed window,
/// or the first window with the most clusters formed.
pub open spec fn spec_start_idx(s: Seq<WindowSummary>, u: Seq<i32>) -> int {
    match spec_first_full_from(s, u, 0) {
        Some(i) => i,
        None => spec_scan_max(s, u, s.len() as int).1,
    }
}

/// No window forms any universe cluster: the input cannot be classified.
pub open spec fn spec_no_cluster_ever_formed(s: Seq<WindowSummary>, u: Seq<i32>) -> bool {
    forall|i: int| 0 <= i < s.len() ==> spec_window_count(s, u, i) == 0
}

/// One backward step per window from `i` down to window zero: record the
/// newly broken clusters, replace the formed set, and stop early once
/// every universe cluster is recorded.  Yields the final formed set and
/// the record of breaks.
pub open spec fn spec_walk(
    s: Seq<WindowSummary>,
    u: Seq<i32>,
    i: int,
    cf: Seq<i32>,
    rec: Seq<i32>,
) -> (Seq<i32>, Seq<i32>)
    decreases i + 1,
{
    if i < 0 {
        (cf, rec)
    } else {
        let f = spec_formed_ids(s[i].cluster_means@, u);
        let rec2 = rec + spec_break_list(cf, f, rec);
        if rec2.len() == u.len() || i == 0 {
            (f, rec2)
        } else {
            spec_walk(s, u, i - 1, f, rec2)
        }
    }
}

/// The classifier's result on well-shaped input: breaks recorded walking
/// backward from the start window, clusters formed throughout appended,
/// the whole reversed.
pub open spec fn spec_formation_order(summary: Seq<WindowSummary>) -> Seq<i32> {
    let u = spec_nonzero_keys(summary[0].cluster_means@);
    let s = spec_sort_by_frame(summary);
    let start = spec_start_idx(s, u);
    let cf0 = spec_formed_ids(s[start].cluster_means@, u);
    let walked = spec_walk(s, u, start, cf0, Seq::empty());
    let breaks = walked.1 + spec_break_list(walked.0, Seq::empty(), walked.1);
    breaks.reverse()
}

/// A zero maximum over the scanned prefix means no scanned window formed
/// anything, and the other way round.
proof fn lemma_scan_max_zero(s: Seq<WindowSummary>, u: Seq<i32>, n: int)
    requires
        0 <= n <= s.len(),
    ensures
        (spec_scan_max(s, u, n).0 == 0) <==> (forall|i: int|
            0 <= i < n ==> spec_window_count(s, u, i) == 0),
    decreases n,
{
    if n > 0 {
        lemma_scan_max_zero(s, u, n - 1);
    }
}

/// Collects the non-background cluster ids of the first record.
fn nonzero_keys(m: &Vec<(i32, Frac)>) -> (r: Vec<i32>)
    ensures
        r@ == spec_nonzero_keys(m@),
{
    let n = m.len();
    let mut out: Vec<i32> = Vec::new();
    let mut i: usize = 0;
    proof {
        assert(m@.take(0) =~= Seq::<(i32, Frac)>::empty());
    }
    while i < n
        invariant
            i <= n,
            n == m@.len(),
            out@ == spec_nonzero_keys(m@.take(i as int)),
        decreases n - i,
    {
        proof {
            assert(m@.take(i as int + 1).drop_last() =~= m@.take(i as int));
            assert(m@.take(i as int + 1).last() == m@[i as int]);
        }
        let k = m[i].0;
        if k != 0 {
            out.push(k);
        }
        i = i + 1;
    }
    proof {
        assert(m@.take(n as int) =~= m@);
    }
    out
}

/// Collects the universe clusters formed in a window.
fn formed_ids(w: &Vec<(i32, Frac)>, u: &Vec<i32>) -> (r: Vec<i32>)
    ensures
        r@ == spec_formed_ids(w@, u@),
{
    let n = u.len();
    let one = Frac::one();
    let mut out: Vec<i32> = Vec::new();
    let mut i: usize = 0;
    proof {
        assert(u@.take(0) =~= Seq::<i32>::empty());
    }
    while i < n
        invariant
            i <= n,
            n == u@.len(),
            one == Frac::spec_one(),
            out@ == spec_formed_ids(w@, u@.take(i as int)),
        decreases n - i,
    {
        proof {
            assert(u@.take(i as int + 1).drop_last() =~= u@.take(i as int));
            assert(u@.take(i as int + 1).last() == u@[i as int]);
        }
        let c = u[i];
        let v = crate::results::filling_of(w, c);
        if v.ge(&one) {
            out.push(c);
        }
        i = i + 1;
    }
    proof {
        assert(u@.take(n as int) =~= u@);
    }
    out
}

/// Whether a plain vector contains an id.
fn vec_contains(v: &Vec<i32>, k: i32) -> (r: bool)
    ensures
        r == v@.contains(k),
{
    let n = v.len();
    let mut i: usize = 0;
    while i < n
        invariant
            i <= n,
            n == v@.len(),
            forall|j: int| 0 <= j < i ==> v@[j] != k,
        decreases n - i,
    {
        if v[i] == k {
            return true;
        }
        i = i + 1;
    }
    false
}

/// Collects the members of `cf` in neither `f` nor `rec`.
fn break_list(cf: &Vec<i32>, f: &Vec<i32>, rec: &Vec<i32>) -> (r: Vec<i32>)
    ensures
        r@ == spec_break_list(cf@, f@, rec@),
{
    let n = cf.len();
    let mut out: Vec<i32> = Vec::new();
    let mut i: usize = 0;
    proof {
        assert(cf@.take(0) =~= Seq::<i32>::empty());
    }
    while i < n
        invariant
            i <= n,
            n == cf@.len(),
            out@ == spec_break_list(cf@.take(i as int), f@, rec@),
        decreases n - i,
    {
        proof {
            assert(cf@.take(i as int + 1).drop_last() =~= cf@.take(i as int));
            assert(cf@.take(i as int + 1).last() == cf@[i as int]);
        }
        let c = cf[i];
        if !vec_contains(f, c) && !vec_contains(rec, c) {
            out.push(c);
        }
        i = i + 1;
    }
    proof {
        assert(cf@.take(n as int) =~= cf@);
    }
    out
}

/// Infers the order in which the non-background clusters formed, from a
/// binarized window summary.
///
/// Fails with a validation error exactly when the summary is empty, when
/// its first record names no non-background cluster, or when no window
/// ever has a formed cluster.  Otherwise the result is the formation
/// order, earliest-formed first.
pub fn classify_formation_order(summary: Vec<WindowSummary>) -> (r: Result<
    Vec<i32>,
    AnalysisError,
>)
    ensures
        match r {
            Ok(order) => {
                &&& summary@.len() > 0
                &&& spec_nonzero_keys(summary@[0].cluster_means@).len() > 0
                &&& !spec_no_cluster_ever_formed(
                    spec_sort_by_frame(summary@),
                    spec_nonzero_keys(summary@[0].cluster_means@),
                )
                &&& order@ == spec_formation_order(summary@)
            },
            Err(e) => {
                &&& e == AnalysisError::ValidationError
                &&& (summary@.len() == 0 || spec_nonzero_keys(summary@[0].cluster_means@).len()
                    == 0 || spec_no_cluster_ever_formed(
                    spec_sort_by_frame(summary@),
                    spec_nonzero_keys(summary@[0].cluster_means@),
                ))
            },
        },
{
    let ghost input = summary@;
    if summary.len() == 0 {
        return Err(AnalysisError::ValidationError);
    }
    let u = nonzero_keys(&summary[0].cluster_means);
    let nu = u.len();
    if nu == 0 {
        return Err(AnalysisError::ValidationError);
    }
    let sorted = sort_by_frame(summary);
    let n = sorted.len();
    proof {
        assert(spec_sort_by_frame(input).len() == input.len()) by {
            crate::results::lemma_sort_by_frame_len(input);
        }
        assert(n > 0);
    }
    // forward scan: first all-formed window, and the first maximum
    let mut start: usize = 0;
    let mut found_full = false;
    let mut max_count: usize = 0;
    let mut max_idx: usize = 0;
    let mut t: usize = 0;
    while t < n && !found_full
        invariant
            t <= n,
            0 < n == sorted@.len(),
            0 < nu == u@.len(),
            max_idx < n,
            !found_full ==> {
                &&& spec_first_full_from(sorted@, u@, 0) == spec_first_full_from(
                    sorted@,
                    u@,
                    t as int,
                )
                &&& (max_count as nat, max_idx as int) == spec_scan_max(sorted@, u@, t as int)
            },
            found_full ==> {
                &&& spec_first_full_from(sorted@, u@, 0) == Some(start as int)
                &&& start < n
                &&& spec_window_count(sorted@, u@, start as int) == nu
                &&& max_count > 0
            },
        decreases n - t,
    {
        let w = &sorted[t];
        let formed = formed_ids(&w.cluster_means, &u);
        let count = formed.len();
        proof {
            lemma_formed_ids_len_le(w.cluster_means@, u@);
            assert(count as nat == spec_window_count(sorted@, u@, t as int));
            if count as nat == u@.len() {
                assert(spec_first_full_from(sorted@, u@, t as int) == Some(t as int));
            } else {
                assert(spec_first_full_from(sorted@, u@, t as int) == spec_first_full_from(
                    sorted@,
                    u@,
                    t as int + 1,
                ));
            }
            assert(spec_scan_max(sorted@, u@, t as int + 1) == (if spec_window_count(
                sorted@,
                u@,
                t as int,
            ) > spec_scan_max(sorted@, u@, t as int).0 {
                (spec_window_count(sorted@, u@, t as int), t as int)
            } else {
                spec_scan_max(sorted@, u@, t as int)
            }));
        }
        if count > max_count {
            max_count = count;
            max_idx = t;
        }
        if count == nu {
            start = t;
            found_full = true;
        }
        t = t + 1;
    }
    if !found_full {
        start = max_idx;
    }
    if max_count == 0 {
        proof {
            lemma_scan_max_zero(sorted@, u@, n as int);
        }
        return Err(AnalysisError::ValidationError);
    }
    proof {
        if !found_full {
            assert(spec_first_full_from(sorted@, u@, 0) == None::<int>);
            lemma_scan_max_zero(sorted@, u@, n as int);
        }
        assert(spec_start_idx(sorted@, u@) == start as int);
        assert(!spec_no_cluster_ever_formed(sorted@, u@)) by {
            lemma_scan_max_zero(sorted@, u@, n as int);
            if found_full {
                assert(spec_window_count(sorted@, u@, start as int) == nu);
            } else {
                assert(spec_scan_max(sorted@, u@, n as int).0 > 0);
            }
        }
    }
    // backward walk from the start window
    let ghost cf0 = spec_formed_ids(sorted@[start as int].cluster_means@, u@);
    let mut cf = formed_ids(&sorted[start].cluster_means, &u);
    let mut rec: Vec<i32> = Vec::new();
    let mut i = start;
    let mut done = false;
    while !done
        invariant
            n == sorted@.len(),
            nu == u@.len(),
            i <= start < n,
            !done ==> spec_walk(sorted@, u@, start as int, cf0, Seq::empty()) == spec_walk(
                sorted@,
                u@,
                i as int,
                cf@,
                rec@,
            ),
            done ==> (cf@, rec@) == spec_walk(sorted@, u@, start as int, cf0, Seq::empty()),
        decreases i + 1, (if done { 0int } else { 1int }),
    {
        let w = &sorted[i];
        let f = formed_ids(&w.cluster_means, &u);
        let broken = break_list(&cf, &f, &rec);
        let mut broken_mut = broken;
        rec.append(&mut broken_mut);
        cf = f;
        if rec.len() == nu || i == 0 {
            done = true;
        } else {
            i = i - 1;
        }
    }
    // clusters formed throughout the walk were formed before observation
    let empty_f: Vec<i32> = Vec::new();
    let still = break_list(&cf, &empty_f, &rec);
    let mut still_mut = still;
    rec.append(&mut still_mut);
    // reverse: earliest-formed cluster first
    let m = rec.len();
    let mut order: Vec<i32> = Vec::new();
    let mut p: usize = 0;
    while p < m
        invariant
            p <= m,
            m == rec@.len(),
            order@.len() == p,
            forall|a: int| 0 <= a < p ==> order@[a] == rec@[m - 1 - a],
        decreases m - p,
    {
        order.push(rec[m - 1 - p]);
        p = p + 1;
    }
    proof {
        assert(order@ =~= rec@.reverse());
    }
    Ok(order)
}

/// A window never forms more clusters than the universe holds.
proof fn lemma_formed_ids_len_le(w: Seq<(i32, Frac)>, u: Seq<i32>)
    ensures
        spec_formed_ids(w, u).len() <= u.len(),
    decreases u.len(),
{
    if u.len() > 0 {
        lemma_formed_ids_len_le(w, u.drop_last());
    }
}

/// Membership in the tiny id lists the two-cluster law walks through.
proof fn lemma_contains_small(x: i32, y: i32, z: i32)
    ensures
        seq![x].contains(x),
        seq![x, y].contains(x),
        seq![x, y].contains(y),
        z != x ==> !seq![x].contains(z),
        (z != x && z != y) ==> !seq![x, y].contains(z),
        !Seq::<i32>::empty().contains(z),
{
    assert(seq![x][0] == x);
    assert(seq![x, y][0] == x);
    assert(seq![x, y][1] == y);
    assert(z != x ==> !seq![x].contains(z)) by {
        if z != x && seq![x].contains(z) {
            let w = choose|w: int| 0 <= w < seq![x].len() && seq![x][w] == z;
            assert(w == 0);
        }
    }
    assert((z != x && z != y) ==> !seq![x, y].contains(z)) by {
        if z != x && z != y && seq![x, y].contains(z) {
            let w = choose|w: int| 0 <= w < seq![x, y].len() && seq![x, y][w] == z;
            assert(w == 0 || w == 1);
        }
    }
    assert(!Seq::<i32>::empty().contains(z)) by {
        if Seq::<i32>::empty().contains(z) {
            let w = choose|w: int| 0 <= w < Seq::<i32>::empty().len() && Seq::<i32>::empty()[w]
                == z;
        }
    }
}

/// The formed set over a two-member universe, by cases.
proof fn lemma_formed_ids_pair(w: Seq<(i32, Frac)>, a: i32, b: i32)
    ensures
        spec_formed_ids(w, seq![a, b]) == (if spec_is_formed(w, a) && spec_is_formed(w, b) {
            seq![a, b]
        } else if spec_is_formed(w, a) {
            seq![a]
        } else if spec_is_formed(w, b) {
            seq![b]
        } else {
            Seq::<i32>::empty()
        }),
{
    reveal_with_fuel(spec_formed_ids, 3);
    let u = seq![a, b];
    assert(u.drop_last() =~= seq![a]);
    assert(u.last() == b);
    assert(seq![a].drop_last() =~= Seq::<i32>::empty());
    assert(seq![a].last() == a);
    assert(spec_formed_ids(w, u) == spec_formed_ids(w, seq![a]) + (if spec_is_formed(w, b) {
        seq![b]
    } else {
        Seq::<i32>::empty()
    }));
    assert(spec_formed_ids(w, seq![a]) == spec_formed_ids(w, Seq::<i32>::empty()) + (
    if spec_is_formed(w, a) {
        seq![a]
    } else {
        Seq::<i32>::empty()
    }));
    if spec_is_formed(w, a) && spec_is_formed(w, b) {
        assert(spec_formed_ids(w, u) =~= seq![a, b]);
    } else if spec_is_formed(w, a) {
        assert(spec_formed_ids(w, u) =~= seq![a]);
    } else if spec_is_formed(w, b) {
        assert(spec_formed_ids(w, u) =~= seq![b]);
    } else {
        assert(spec_formed_ids(w, u) =~= Seq::<i32>::empty());
    }
}

/// The break list over the tiny formed sets of the two-cluster law.
proof fn lemma_break_small(a: i32, b: i32, f: Seq<i32>, rec: Seq<i32>)
    ensures
        spec_break_list(seq![a, b], f, rec) == (if !f.contains(a) && !rec.contains(a) {
            seq![a]
        } else {
            Seq::<i32>::empty()
        }) + (if !f.contains(b) && !rec.contains(b) {
            seq![b]
        } else {
            Seq::<i32>::empty()
        }),
        spec_break_list(seq![a], f, rec) == (if !f.contains(a) && !rec.contains(a) {
            seq![a]
        } else {
            Seq::<i32>::empty()
        }),
        spec_break_list(Seq::<i32>::empty(), f, rec) == Seq::<i32>::empty(),
{
    reveal_with_fuel(spec_break_list, 3);
    let u = seq![a, b];
    assert(u.drop_last() =~= seq![a]);
    assert(u.last() == b);
    assert(seq![a].drop_last() =~= Seq::<i32>::empty());
    assert(seq![a].last() == a);
    assert(spec_break_list(u, f, rec) == spec_break_list(seq![a], f, rec) + (if !f.contains(b)
        && !rec.contains(b) {
        seq![b]
    } else {
        Seq::<i32>::empty()
    }));
    assert(spec_break_list(seq![a], f, rec) == spec_break_list(Seq::<i32>::empty(), f, rec) + (
    if !f.contains(a) && !rec.contains(a) {
        seq![a]
    } else {
        Seq::<i32>::empty()
    }));
    assert(spec_break_list(seq![a], f, rec) =~= spec_break_list(Seq::<i32>::empty(), f, rec) + (
    if !f.contains(a) && !rec.contains(a) {
        seq![a]
    } else {
        Seq::<i32>::empty()
    }));
}

/// Cluster `c` is formed in the windows from position `t` on, and in none
/// before.
pub open spec fn spec_forms_at(s: Seq<WindowSummary>, c: i32, t: int) -> bool {
    forall|i: int|
        0 <= i < s.len() ==> (spec_is_formed((#[trigger] s[i]).cluster_means@, c) <==> i >= t)
}

/// In the two-cluster setting, every window at or before `tb` that is
/// searched forward finds `tb` as the first all-formed window.
proof fn lemma_first_full_two(
    s: Seq<WindowSummary>,
    a: i32,
    b: i32,
    ta: int,
    tb: int,
    i: int,
)
    requires
        a != b,
        0 <= ta < tb < s.len(),
        spec_forms_at(s, a, ta),
        spec_forms_at(s, b, tb),
        0 <= i <= tb,
    ensures
        spec_first_full_from(s, seq![a, b], i) == Some(tb),
    decreases tb - i,
{
    let u = seq![a, b];
    lemma_formed_ids_pair(s[i].cluster_means@, a, b);
    if i == tb {
        assert(spec_window_count(s, u, i) == 2);
    } else {
        assert(!spec_is_formed(s[i].cluster_means@, b));
        assert(spec_window_count(s, u, i) <= 1);
        lemma_first_full_two(s, a, b, ta, tb, i + 1);
    }
}

/// The backward walk below `tb` with `a` still formed and `b` already
/// recorded: it records `a` at the window before `ta`, or keeps `a` as
/// formed-throughout when the observation starts formed.
proof fn lemma_walk_two_low(s: Seq<WindowSummary>, a: i32, b: i32, ta: int, tb: int, i: int)
    requires
        a != b,
        0 <= ta < tb < s.len(),
        spec_forms_at(s, a, ta),
        spec_forms_at(s, b, tb),
        0 <= i <= tb - 1,
        ta - 1 <= i,
    ensures
        spec_walk(s, seq![a, b], i, seq![a], seq![b]) == (if ta == 0 {
            (seq![a], seq![b])
        } else {
            (Seq::<i32>::empty(), seq![b, a])
        }),
    decreases i + 1,
{
    reveal_with_fuel(spec_walk, 2);
    let u = seq![a, b];
    let w = s[i].cluster_means@;
    lemma_formed_ids_pair(w, a, b);
    lemma_contains_small(a, b, a);
    lemma_contains_small(a, b, b);
    if i >= ta {
        // `a` stays formed here: nothing breaks
        assert(spec_formed_ids(w, u) == seq![a]);
        lemma_break_small(a, b, seq![a], seq![b]);
        assert(seq![a].contains(a));
        assert(spec_break_list(seq![a], seq![a], seq![b]) =~= Seq::<i32>::empty());
        assert(seq![b] + Seq::<i32>::empty() =~= seq![b]);
        if i == 0 {
            assert(ta == 0);
        } else {
            lemma_walk_two_low(s, a, b, ta, tb, i - 1);
        }
    } else {
        // the window before `ta`: `a` breaks and the record is complete
        assert(i == ta - 1);
        assert(!spec_is_formed(w, a));
        assert(!spec_is_formed(w, b));
        assert(spec_formed_ids(w, u) == Seq::<i32>::empty());
        lemma_break_small(a, b, Seq::<i32>::empty(), seq![b]);
        assert(!Seq::<i32>::empty().contains(a));
        assert(!seq![b].contains(a));
        assert(spec_break_list(seq![a], Seq::<i32>::empty(), seq![b]) =~= seq![a]);
        assert(seq![b] + seq![a] =~= seq![b, a]);
        assert(seq![b, a].len() == u.len());
    }
}

/// With exactly two clusters in the universe, where `a` becomes and stays
/// formed from window `ta` on and `b` from a strictly later window `tb`
/// on, the inferred formation order is `a` first, `b` second.
pub proof fn lemma_two_cluster_order(s: Seq<WindowSummary>, a: i32, b: i32, ta: int, tb: int)
    requires
        crate::results::sorted_by_frame(s),
        s.len() > 0,
        spec_nonzero_keys(s[0].cluster_means@) == seq![a, b],
        a != b,
        0 <= ta < tb < s.len(),
        spec_forms_at(s, a, ta),
        spec_forms_at(s, b, tb),
    ensures
        spec_formation_order(s) == seq![a, b],
{
    reveal_with_fuel(spec_walk, 3);
    let u = seq![a, b];
    crate::results::lemma_sort_of_sorted(s);
    // the scan starts at the first all-formed window, `tb`
    lemma_first_full_two(s, a, b, ta, tb, 0);
    assert(spec_start_idx(s, u) == tb);
    lemma_formed_ids_pair(s[tb].cluster_means@, a, b);
    assert(spec_formed_ids(s[tb].cluster_means@, u) == seq![a, b]);
    // the first backward step sees both formed and records nothing
    lemma_contains_small(a, b, a);
    lemma_contains_small(a, b, b);
    lemma_break_small(a, b, seq![a, b], Seq::<i32>::empty());
    assert(spec_break_list(seq![a, b], seq![a, b], Seq::<i32>::empty()) =~= Seq::<i32>::empty());
    assert(Seq::<i32>::empty() + Seq::<i32>::empty() =~= Seq::<i32>::empty());
    // the next window down drops `b`
    let w1 = s[tb - 1].cluster_means@;
    lemma_formed_ids_pair(w1, a, b);
    assert(spec_is_formed(w1, a));
    assert(!spec_is_formed(w1, b));
    assert(spec_formed_ids(w1, u) == seq![a]);
    lemma_break_small(a, b, seq![a], Seq::<i32>::empty());
    assert(spec_break_list(seq![a, b], seq![a], Seq::<i32>::empty()) =~= seq![b]);
    assert(Seq::<i32>::empty() + seq![b] =~= seq![b]);
    let walked = spec_walk(s, u, tb, seq![a, b], Seq::<i32>::empty());
    if tb - 1 == 0 {
        // the walk bottoms out with `a` formed throughout
        assert(ta == 0);
        assert(walked == (seq![a], seq![b]));
    } else {
        lemma_walk_two_low(s, a, b, ta, tb, tb - 2);
        assert(walked == (if ta == 0 {
            (seq![a], seq![b])
        } else {
            (Seq::<i32>::empty(), seq![b, a])
        }));
    }
    // clusters formed throughout are appended, and the list is reversed
    if ta == 0 {
        lemma_break_small(a, b, Seq::<i32>::empty(), seq![b]);
        assert(!Seq::<i32>::empty().contains(a));
        assert(!seq![b].contains(a));
        assert(spec_break_list(seq![a], Seq::<i32>::empty(), seq![b]) =~= seq![a]);
        assert(seq![b] + seq![a] =~= seq![b, a]);
    } else {
        lemma_break_small(a, b, Seq::<i32>::empty(), seq![b, a]);
        assert(spec_break_list(Seq::<i32>::empty(), Seq::<i32>::empty(), seq![b, a]) =~= Seq::<
            i32,
        >::empty());
        assert(seq![b, a] + Seq::<i32>::empty() =~= seq![b, a]);
    }
    assert(seq![b, a].reverse() =~= seq![a, b]);
}

} // verus!
