//! Association lists with strictly increasing integer keys.
//!
//! Every mapping in the pipeline (residue to coordinate, cluster to
//! fraction, frame to frame data) is held as a vector of key/value pairs
//! sorted by key, so iteration order is deterministic and no reliance is
//! placed on the iteration order of an associative container.

use vstd::prelude::*;

verus! {

/// Keys strictly increase, so they are unique and the order is canonical.
pub open spec fn pairs_sorted<V>(s: Seq<(i32, V)>) -> bool {
    forall|i: int, j: int| 0 <= i < j < s.len() ==> (#[trigger] s[i]).0 < (#[trigger] s[j]).0
}

/// The value bound to `key`, if any.
pub open spec fn spec_lookup<V>(s: Seq<(i32, V)>, key: i32) -> Option<V>
    decreases s.len(),
{
    if s.len() == 0 {
        None
    } else if s[0].0 == key {
        Some(s[0].1)
    } else {
        spec_lookup(s.skip(1), key)
    }
}

/// Whether `key` is bound in the list.
pub open spec fn spec_has_key<V>(s: Seq<(i32, V)>, key: i32) -> bool {
    spec_lookup(s, key) is Some
}

/// Insert-or-replace that keeps keys in strictly increasing order.
pub open spec fn spec_insert<V>(s: Seq<(i32, V)>, key: i32, val: V) -> Seq<(i32, V)>
    decreases s.len(),
{
    if s.len() == 0 {
        seq![(key, val)]
    } else if key < s[0].0 {
        seq![(key, val)] + s
    } else if key == s[0].0 {
        seq![(key, val)] + s.skip(1)
    } else {
        seq![s[0]] + spec_insert(s.skip(1), key, val)
    }
}

/// Dropping the head of a sorted list keeps it sorted.
proof fn lemma_sorted_skip<V>(s: Seq<(i32, V)>)
    requires
        pairs_sorted(s),
        s.len() > 0,
    ensures
        pairs_sorted(s.skip(1)),
{
    assert forall|i: int, j: int| 0 <= i < j < s.skip(1).len() implies (#[trigger] s.skip(1)[i]).0
        < (#[trigger] s.skip(1)[j]).0 by {
        assert(s.skip(1)[i] == s[i + 1]);
        assert(s.skip(1)[j] == s[j + 1]);
    }
}

/// Where the inserted pair lands: before the first key not below `key`,
/// replacing it when the keys are equal.
pub proof fn lemma_insert_sorted_shape<V>(s: Seq<(i32, V)>, key: i32, val: V, i: int)
    requires
        pairs_sorted(s),
        0 <= i <= s.len(),
        forall|j: int| 0 <= j < i ==> (#[trigger] s[j]).0 < key,
        i < s.len() ==> s[i].0 >= key,
    ensures
        i < s.len() && s[i].0 == key ==> spec_insert(s, key, val) == s.take(i) + seq![(key, val)]
            + s.skip(i + 1),
        !(i < s.len() && s[i].0 == key) ==> spec_insert(s, key, val) == s.take(i) + seq![
            (key, val),
        ] + s.skip(i),
    decreases s.len(),
{
    if i == 0 {
        if s.len() == 0 {
            assert(spec_insert(s, key, val) =~= s.take(0) + seq![(key, val)] + s.skip(0));
        } else if key < s[0].0 {
            assert(seq![(key, val)] + s =~= s.take(0) + seq![(key, val)] + s.skip(0));
        } else if key == s[0].0 {
            assert(seq![(key, val)] + s.skip(1) =~= s.take(0) + seq![(key, val)] + s.skip(1));
        } else {
            assert(false);
        }
    } else {
        let tail = s.skip(1);
        lemma_sorted_skip(s);
        assert(forall|a: int| 0 <= a < tail.len() ==> (#[trigger] tail[a]) == s[a + 1]);
        lemma_insert_sorted_shape(tail, key, val, i - 1);
        assert(s[0].0 < key);
        assert(spec_insert(s, key, val) == seq![s[0]] + spec_insert(tail, key, val));
        assert(s.take(i) =~= seq![s[0]] + tail.take(i - 1));
        if i < s.len() && s[i].0 == key {
            assert(tail[i - 1] == s[i]);
            assert(spec_insert(tail, key, val) == tail.take(i - 1) + seq![(key, val)] + tail.skip(
            i));
            assert(tail.skip(i) =~= s.skip(i + 1));
            assert(seq![s[0]] + (tail.take(i - 1) + seq![(key, val)] + tail.skip(i)) =~= s.take(i)
                + seq![(key, val)] + s.skip(i + 1));
        } else {
            assert(spec_insert(tail, key, val) == tail.take(i - 1) + seq![(key, val)] + tail.skip(
            i - 1));
            assert(tail.skip(i - 1) =~= s.skip(i));
            assert(seq![s[0]] + (tail.take(i - 1) + seq![(key, val)] + tail.skip(i - 1)) =~= s.take(
            i) + seq![(key, val)] + s.skip(i));
        }
    }
}

/// Inserting preserves sortedness; the inserted key is bound to the new
/// value and every other key keeps its binding.
pub proof fn lemma_insert_props<V>(s: Seq<(i32, V)>, key: i32, val: V)
    requires
        pairs_sorted(s),
    ensures
        pairs_sorted(spec_insert(s, key, val)),
        spec_lookup(spec_insert(s, key, val), key) == Some(val),
        forall|k2: i32|
            k2 != key ==> spec_lookup(spec_insert(s, key, val), k2) == spec_lookup(s, k2),
    decreases s.len(),
{
    let r = spec_insert(s, key, val);
    if s.len() == 0 {
        assert(r == seq![(key, val)]);
        assert(r.skip(1) =~= Seq::<(i32, V)>::empty());
        assert forall|k2: i32| k2 != key implies spec_lookup(r, k2) == spec_lookup(s, k2) by {
            assert(spec_lookup(r, k2) == spec_lookup(r.skip(1), k2));
        }
    } else if key < s[0].0 {
        assert(r == seq![(key, val)] + s);
        assert(r.skip(1) =~= s);
        assert forall|k2: i32| k2 != key implies spec_lookup(r, k2) == spec_lookup(s, k2) by {
            assert(spec_lookup(r, k2) == spec_lookup(r.skip(1), k2));
        }
        assert(pairs_sorted(r)) by {
            assert forall|i: int, j: int| 0 <= i < j < r.len() implies (#[trigger] r[i]).0 < (
            #[trigger] r[j]).0 by {
                if i > 0 {
                    assert(r[i] == s[i - 1]);
                    assert(r[j] == s[j - 1]);
                } else {
                    assert(r[0].0 == key);
                    assert(r[j] == s[j - 1]);
                    if j > 1 {
                        assert(s[0].0 < s[j - 1].0);
                    }
                }
            }
        }
    } else if key == s[0].0 {
        assert(r == seq![(key, val)] + s.skip(1));
        assert(r.skip(1) =~= s.skip(1));
        lemma_sorted_skip(s);
        assert forall|k2: i32| k2 != key implies spec_lookup(r, k2) == spec_lookup(s, k2) by {
            assert(spec_lookup(r, k2) == spec_lookup(r.skip(1), k2));
            assert(spec_lookup(s, k2) == spec_lookup(s.skip(1), k2));
        }
        assert(pairs_sorted(r)) by {
            assert forall|i: int, j: int| 0 <= i < j < r.len() implies (#[trigger] r[i]).0 < (
            #[trigger] r[j]).0 by {
                if i > 0 {
                    assert(r[i] == s.skip(1)[i - 1]);
                    assert(r[j] == s.skip(1)[j - 1]);
                    assert(s.skip(1)[i - 1] == s[i]);
                    assert(s.skip(1)[j - 1] == s[j]);
                } else {
                    assert(r[j] == s.skip(1)[j - 1]);
                    assert(s.skip(1)[j - 1] == s[j]);
                }
            }
        }
    } else {
        let tail = s.skip(1);
        lemma_sorted_skip(s);
        lemma_insert_props(tail, key, val);
        assert(forall|a: int| 0 <= a < tail.len() ==> (#[trigger] tail[a]) == s[a + 1]);
        assert(r == seq![s[0]] + spec_insert(tail, key, val));
        let rt = spec_insert(tail, key, val);
        assert(r.skip(1) =~= rt);
        assert(r[0] == s[0]);
        // every key in rt is either `key` or a key of tail, all above s[0].0
        assert(pairs_sorted(r)) by {
            lemma_insert_keys_lower_bound(tail, key, val, s[0].0);
            assert forall|i: int, j: int| 0 <= i < j < r.len() implies (#[trigger] r[i]).0 < (
            #[trigger] r[j]).0 by {
                if i > 0 {
                    assert(r[i] == rt[i - 1]);
                    assert(r[j] == rt[j - 1]);
                } else {
                    assert(r[j] == rt[j - 1]);
                }
            }
        }
        assert(spec_lookup(r, key) == spec_lookup(rt, key));
        assert forall|k2: i32| k2 != key implies spec_lookup(r, k2) == spec_lookup(s, k2) by {
            if k2 == s[0].0 {
                assert(spec_lookup(r, k2) == Some(s[0].1));
                assert(spec_lookup(s, k2) == Some(s[0].1));
            } else {
                assert(spec_lookup(r, k2) == spec_lookup(rt, k2));
                assert(spec_lookup(rt, k2) == spec_lookup(tail, k2));
                assert(spec_lookup(s, k2) == spec_lookup(tail, k2));
            }
        }
    }
}

/// If every key of a sorted list is above `bound` and `key` is above
/// `bound`, every key of the inserted list is above `bound`.
proof fn lemma_insert_keys_lower_bound<V>(s: Seq<(i32, V)>, key: i32, val: V, bound: i32)
    requires
        pairs_sorted(s),
        bound < key,
        forall|i: int| 0 <= i < s.len() ==> bound < (#[trigger] s[i]).0,
    ensures
        forall|i: int|
            0 <= i < spec_insert(s, key, val).len() ==> bound < (#[trigger] spec_insert(
                s,
                key,
                val,
            )[i]).0,
    decreases s.len(),
{
    let r = spec_insert(s, key, val);
    if s.len() == 0 {
    } else if key < s[0].0 {
        assert(forall|i: int| 1 <= i < r.len() ==> (#[trigger] r[i]) == s[i - 1]);
    } else if key == s[0].0 {
        assert(forall|i: int| 1 <= i < r.len() ==> (#[trigger] r[i]) == s.skip(1)[i - 1]);
        assert(forall|a: int| 0 <= a < s.skip(1).len() ==> (#[trigger] s.skip(1)[a]) == s[a + 1]);
    } else {
        let tail = s.skip(1);
        lemma_sorted_skip(s);
        assert(forall|a: int| 0 <= a < tail.len() ==> (#[trigger] tail[a]) == s[a + 1]);
        lemma_insert_keys_lower_bound(tail, key, val, bound);
        assert(forall|i: int|
            1 <= i < r.len() ==> (#[trigger] r[i]) == spec_insert(tail, key, val)[i - 1]);
    }
}

/// Folding a run of inserts over an accumulator, left to right.
pub open spec fn spec_insert_all<V>(acc: Seq<(i32, V)>, s: Seq<(i32, V)>) -> Seq<(i32, V)>
    decreases s.len(),
{
    if s.len() == 0 {
        acc
    } else {
        spec_insert_all(spec_insert(acc, s[0].0, s[0].1), s.skip(1))
    }
}

/// Inserting an ascending run of strictly larger keys just appends it.
pub proof fn lemma_insert_all_append<V>(acc: Seq<(i32, V)>, s: Seq<(i32, V)>)
    requires
        pairs_sorted(acc),
        pairs_sorted(s),
        forall|a: int, b: int|
            0 <= a < acc.len() && 0 <= b < s.len() ==> (#[trigger] acc[a]).0 < (#[trigger] s[b]).0,
    ensures
        spec_insert_all(acc, s) == acc + s,
    decreases s.len(),
{
    if s.len() == 0 {
        assert(spec_insert_all(acc, s) =~= acc + s);
    } else {
        lemma_insert_sorted_shape(acc, s[0].0, s[0].1, acc.len() as int);
        assert(acc.take(acc.len() as int) =~= acc);
        let acc2 = spec_insert(acc, s[0].0, s[0].1);
        assert(acc2 =~= acc + seq![s[0]]);
        lemma_insert_props(acc, s[0].0, s[0].1);
        let tail = s.skip(1);
        assert(forall|b: int| 0 <= b < tail.len() ==> (#[trigger] tail[b]) == s[b + 1]);
        assert(pairs_sorted(tail));
        assert(forall|a: int, b: int|
            0 <= a < acc2.len() && 0 <= b < tail.len() ==> (#[trigger] acc2[a]).0 < (
            #[trigger] tail[b]).0);
        lemma_insert_all_append(acc2, tail);
        assert(acc2 + tail =~= acc + s);
    }
}

/// Inserting keeps a property that holds of every stored value and of
/// the inserted value.
pub proof fn lemma_map_insert_values<V>(s: Seq<(i32, V)>, key: i32, val: V, p: spec_fn(V) -> bool)
    requires
        forall|i: int| 0 <= i < s.len() ==> p((#[trigger] s[i]).1),
        p(val),
    ensures
        forall|i: int|
            0 <= i < spec_insert(s, key, val).len() ==> p(
                (#[trigger] spec_insert(s, key, val)[i]).1,
            ),
    decreases s.len(),
{
    let r = spec_insert(s, key, val);
    if s.len() == 0 {
    } else if key < s[0].0 {
        assert(forall|i: int| 1 <= i < r.len() ==> (#[trigger] r[i]) == s[i - 1]);
    } else if key == s[0].0 {
        assert(forall|i: int| 1 <= i < r.len() ==> (#[trigger] r[i]) == s.skip(1)[i - 1]);
        assert(forall|a: int| 0 <= a < s.skip(1).len() ==> (#[trigger] s.skip(1)[a]) == s[a + 1]);
    } else {
        let tail = s.skip(1);
        assert(forall|a: int| 0 <= a < tail.len() ==> (#[trigger] tail[a]) == s[a + 1]);
        lemma_map_insert_values(tail, key, val, p);
        assert(forall|i: int|
            1 <= i < r.len() ==> (#[trigger] r[i]) == spec_insert(tail, key, val)[i - 1]);
    }
}

/// Strictly increasing list of ids: a canonical finite set.
pub open spec fn keys_sorted(s: Seq<i32>) -> bool {
    forall|i: int, j: int| 0 <= i < j < s.len() ==> s[i] < s[j]
}

/// Insert an id, keeping the list strictly sorted (no-op when present).
pub open spec fn spec_key_insert(s: Seq<i32>, k: i32) -> Seq<i32>
    decreases s.len(),
{
    if s.len() == 0 {
        seq![k]
    } else if k < s[0] {
        seq![k] + s
    } else if k == s[0] {
        s
    } else {
        seq![s[0]] + spec_key_insert(s.skip(1), k)
    }
}

/// Inserting keeps the list strictly sorted; the id is now a member and
/// membership of every other id is unchanged.
pub proof fn lemma_key_insert_props(s: Seq<i32>, k: i32)
    requires
        keys_sorted(s),
    ensures
        keys_sorted(spec_key_insert(s, k)),
        spec_key_insert(s, k).contains(k),
        forall|k2: i32| k2 != k ==> (spec_key_insert(s, k).contains(k2) <==> s.contains(k2)),
    decreases s.len(),
{
    let r = spec_key_insert(s, k);
    if s.len() == 0 {
        assert(r[0] == k);
        assert forall|k2: i32| k2 != k implies (r.contains(k2) <==> s.contains(k2)) by {
            assert(forall|i: int| 0 <= i < r.len() ==> r[i] == k);
        }
    } else if k < s[0] {
        assert(r == seq![k] + s);
        assert(r[0] == k);
        assert forall|i: int, j: int| 0 <= i < j < r.len() implies r[i] < r[j] by {
            if i > 0 {
                assert(r[i] == s[i - 1]);
                assert(r[j] == s[j - 1]);
            } else {
                assert(r[j] == s[j - 1]);
                if j > 1 {
                    assert(s[0] < s[j - 1]);
                }
            }
        }
        assert forall|k2: i32| k2 != k implies (r.contains(k2) <==> s.contains(k2)) by {
            if r.contains(k2) {
                let i = choose|i: int| 0 <= i < r.len() && r[i] == k2;
                assert(r[i] == s[i - 1]);
                assert(s.contains(k2));
            }
            if s.contains(k2) {
                let i = choose|i: int| 0 <= i < s.len() && s[i] == k2;
                assert(r[i + 1] == s[i]);
                assert(r.contains(k2));
            }
        }
    } else if k == s[0] {
        assert(r.contains(k)) by {
            assert(r[0] == k);
        }
    } else {
        let tail = s.skip(1);
        assert(forall|a: int| 0 <= a < tail.len() ==> tail[a] == s[a + 1]);
        assert(keys_sorted(tail));
        lemma_key_insert_props(tail, k);
        let rt = spec_key_insert(tail, k);
        assert(r == seq![s[0]] + rt);
        assert(forall|a: int| 0 <= a < rt.len() ==> r[a + 1] == rt[a]);
        lemma_key_insert_lower_bound(tail, k, s[0]);
        assert forall|i: int, j: int| 0 <= i < j < r.len() implies r[i] < r[j] by {
            if i > 0 {
                assert(r[i] == rt[i - 1]);
                assert(r[j] == rt[j - 1]);
            } else {
                assert(r[j] == rt[j - 1]);
            }
        }
        assert(r.contains(k)) by {
            let i = choose|i: int| 0 <= i < rt.len() && rt[i] == k;
            assert(r[i + 1] == k);
        }
        assert forall|k2: i32| k2 != k implies (r.contains(k2) <==> s.contains(k2)) by {
            if r.contains(k2) {
                let i = choose|i: int| 0 <= i < r.len() && r[i] == k2;
                if i == 0 {
                    assert(s[0] == k2);
                } else {
                    assert(rt.contains(k2));
                    assert(tail.contains(k2));
                    let a = choose|a: int| 0 <= a < tail.len() && tail[a] == k2;
                    assert(s[a + 1] == k2);
                }
                assert(s.contains(k2));
            }
            if s.contains(k2) {
                let i = choose|i: int| 0 <= i < s.len() && s[i] == k2;
                if i == 0 {
                    assert(r[0] == k2);
                } else {
                    assert(tail[i - 1] == k2);
                    assert(tail.contains(k2));
                    assert(rt.contains(k2));
                    let a = choose|a: int| 0 <= a < rt.len() && rt[a] == k2;
                    assert(r[a + 1] == k2);
                }
                assert(r.contains(k2));
            }
        }
    }
}

/// Ids above a bound stay above it after inserting an id above it.
proof fn lemma_key_insert_lower_bound(s: Seq<i32>, k: i32, bound: i32)
    requires
        keys_sorted(s),
        bound < k,
        forall|i: int| 0 <= i < s.len() ==> bound < s[i],
    ensures
        forall|i: int| 0 <= i < spec_key_insert(s, k).len() ==> bound < spec_key_insert(s, k)[i],
    decreases s.len(),
{
    let r = spec_key_insert(s, k);
    if s.len() == 0 {
    } else if k < s[0] {
        assert(forall|i: int| 1 <= i < r.len() ==> r[i] == s[i - 1]);
    } else if k == s[0] {
    } else {
        let tail = s.skip(1);
        assert(forall|a: int| 0 <= a < tail.len() ==> tail[a] == s[a + 1]);
        assert(keys_sorted(tail));
        lemma_key_insert_lower_bound(tail, k, bound);
        assert(forall|i: int| 1 <= i < r.len() ==> r[i] == spec_key_insert(tail, k)[i - 1]);
    }
}

/// Where the inserted id lands in a sorted list.
proof fn lemma_key_insert_shape(s: Seq<i32>, k: i32, i: int)
    requires
        keys_sorted(s),
        0 <= i <= s.len(),
        forall|j: int| 0 <= j < i ==> s[j] < k,
        i < s.len() ==> s[i] >= k,
    ensures
        i < s.len() && s[i] == k ==> spec_key_insert(s, k) == s,
        !(i < s.len() && s[i] == k) ==> spec_key_insert(s, k) == s.take(i) + seq![k] + s.skip(i),
    decreases s.len(),
{
    if i == 0 {
        if s.len() == 0 {
            assert(spec_key_insert(s, k) =~= s.take(0) + seq![k] + s.skip(0));
        } else if k < s[0] {
            assert(seq![k] + s =~= s.take(0) + seq![k] + s.skip(0));
        }
    } else {
        let tail = s.skip(1);
        assert(forall|a: int| 0 <= a < tail.len() ==> tail[a] == s[a + 1]);
        assert(keys_sorted(tail));
        lemma_key_insert_shape(tail, k, i - 1);
        assert(s[0] < k);
        assert(spec_key_insert(s, k) == seq![s[0]] + spec_key_insert(tail, k));
        if i < s.len() && s[i] == k {
            assert(tail[i - 1] == s[i]);
            assert(seq![s[0]] + tail =~= s);
        } else {
            assert(seq![s[0]] + (tail.take(i - 1) + seq![k] + tail.skip(i - 1)) =~= s.take(i)
                + seq![k] + s.skip(i));
        }
    }
}

/// Inserts an id into a strictly sorted vector (no-op when present).
pub fn key_insert(v: &mut Vec<i32>, k: i32)
    requires
        keys_sorted(old(v)@),
    ensures
        final(v)@ == spec_key_insert(old(v)@, k),
        keys_sorted(final(v)@),
{
    proof {
        lemma_key_insert_props(old(v)@, k);
    }
    let n = v.len();
    let mut i: usize = 0;
    while i < n && v[i] < k
        invariant
            i <= n,
            n == v@.len(),
            v@ == old(v)@,
            forall|j: int| 0 <= j < i ==> v@[j] < k,
        decreases n - i,
    {
        i = i + 1;
    }
    proof {
        lemma_key_insert_shape(old(v)@, k, i as int);
    }
    if i < n && v[i] == k {
        return ;
    }
    v.insert(i, k);
    proof {
        assert(v@ =~= old(v)@.take(i as int) + seq![k] + old(v)@.skip(i as int));
    }
}

/// Whether a sorted id list contains `k`.
pub fn key_contains(v: &Vec<i32>, k: i32) -> (r: bool)
    ensures
        r == v@.contains(k),
{
    let n = v.len();
    let mut i: usize = 0;
    while i < n
        invariant
            i <= n,
            n == v@.len(),
            forall|j: int| 0 <= j < i ==> v@[j] != k,
        decreases n - i,
    {
        if v[i] == k {
            return true;
        }
        i = i + 1;
    }
    false
}

/// Linear lookup of a copyable value.
pub fn map_get_copy<V: Copy>(m: &Vec<(i32, V)>, key: i32) -> (r: Option<V>)
    ensures
        r == spec_lookup(m@, key),
{
    let n = m.len();
    let mut i: usize = 0;
    proof {
        assert(m@.skip(0) =~= m@);
    }
    while i < n
        invariant
            i <= n,
            n == m@.len(),
            spec_lookup(m@, key) == spec_lookup(m@.skip(i as int), key),
        decreases n - i,
    {
        let p = m[i];
        proof {
            assert(m@.skip(i as int)[0] == m@[i as int]);
            assert(m@.skip(i as int).skip(1) =~= m@.skip(i as int + 1));
        }
        if p.0 == key {
            return Some(p.1);
        }
        i = i + 1;
    }
    proof {
        assert(m@.skip(n as int) =~= Seq::<(i32, V)>::empty());
    }
    None
}

/// Insert-or-replace into a key-sorted vector, keeping it sorted.
pub fn map_insert<V>(m: &mut Vec<(i32, V)>, key: i32, val: V)
    requires
        pairs_sorted(old(m)@),
    ensures
        final(m)@ == spec_insert(old(m)@, key, val),
        pairs_sorted(final(m)@),
        spec_lookup(final(m)@, key) == Some(val),
        forall|k2: i32| k2 != key ==> spec_lookup(final(m)@, k2) == spec_lookup(old(m)@, k2),
{
    proof {
        lemma_insert_props(old(m)@, key, val);
    }
    let n = m.len();
    let mut i: usize = 0;
    while i < n && m[i].0 < key
        invariant
            i <= n,
            n == m@.len(),
            m@ == old(m)@,
            forall|j: int| 0 <= j < i ==> (#[trigger] m@[j]).0 < key,
        decreases n - i,
    {
        i = i + 1;
    }
    proof {
        lemma_insert_sorted_shape(old(m)@, key, val, i as int);
    }
    if i < n && m[i].0 == key {
        let _ = m.remove(i);
        m.insert(i, (key, val));
        proof {
            assert(m@ =~= old(m)@.take(i as int) + seq![(key, val)] + old(m)@.skip(i as int + 1));
        }
    } else {
        m.insert(i, (key, val));
        proof {
            assert(m@ =~= old(m)@.take(i as int) + seq![(key, val)] + old(m)@.skip(i as int));
        }
    }
}

} // verus!
