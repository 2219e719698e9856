//! The tabular text formats the pipeline writes and reads back.
//!
//! A fraction is written `num/den`, a formed-contact list
//! `[(i, j), (i, j)]`, and a filling map `{c: num/den, c: num/den}` with
//! cluster ids ascending.  Re-reading a written per-frame table restores
//! frame, contact count, `q` and the filling map exactly; the contact
//! list is intentionally not reloaded.

use crate::errors::AnalysisError;
use crate::numbers::Frac;
use crate::pairmap::{pairs_sorted, spec_insert, spec_insert_all, map_insert};
use crate::results::{frac_map_wf, FrameResult, SmoothedResult, WindowSummary, spec_filling_of};
use crate::text::{
    is_digit, lemma_u64_digits_value, parse_i32_bytes, parse_i32_range, parse_u64_bytes,
    push_u64_digits, spec_i32_digits, spec_parse_i32, spec_parse_u64, spec_skip_ws, spec_trim_end,
    spec_u64_digits, i32_digits, trim_range, u64_digits,
};
use vstd::prelude::*;

verus! {

/// The first occurrence of byte `b` in `[i, e)` of `t`.
pub open spec fn spec_find_byte(t: Seq<u8>, b: u8, i: int, e: int) -> Option<int>
    decreases e - i,
{
    if i < 0 || i >= e || e > t.len() {
        None
    } else if t[i] == b {
        Some(i)
    } else {
        spec_find_byte(t, b, i + 1, e)
    }
}

/// Finds the first occurrence of byte `b` in `[i, e)` of `l`.
pub fn find_byte(l: &Vec<u8>, b: u8, i: usize, e: usize) -> (r: Option<usize>)
    requires
        i <= e <= l@.len(),
    ensures
        match r {
            Some(p) => i <= p < e && spec_find_byte(l@, b, i as int, e as int) == Some(p as int),
            None => spec_find_byte(l@, b, i as int, e as int) is None,
        },
{
    let mut k = i;
    while k < e
        invariant
            i <= k <= e <= l@.len(),
            spec_find_byte(l@, b, i as int, e as int) == spec_find_byte(l@, b, k as int, e as int),
        decreases e - k,
    {
        if l[k] == b {
            return Some(k);
        }
        k = k + 1;
    }
    None
}

/// A fraction written `num/den`.
pub open spec fn spec_frac_bytes(f: Frac) -> Seq<u8> {
    spec_u64_digits(f.num) + seq![47u8] + spec_u64_digits(f.den)
}

/// Renders a fraction as `num/den`.
pub fn frac_bytes(f: &Frac) -> (r: Vec<u8>)
    ensures
        r@ == spec_frac_bytes(*f),
{
    let mut out = u64_digits(f.num);
    out.push(47);
    push_u64_digits(f.den, &mut out);
    proof {
        assert(out@ =~= spec_frac_bytes(*f));
    }
    out
}

/// A whole byte run read back as a well-formed fraction: digits, one
/// slash, digits, with a positive denominator at least the numerator.
pub open spec fn spec_parse_frac(t: Seq<u8>) -> Option<Frac> {
    match spec_find_byte(t, 47, 0, t.len() as int) {
        None => None,
        Some(p) => {
            let ns = t.take(p);
            let ds = t.skip(p + 1);
            match (spec_parse_u64(ns), spec_parse_u64(ds)) {
                (Some(num), Some(den)) => if 0 < den && num <= den {
                    Some(Frac { num, den })
                } else {
                    None
                },
                _ => None,
            }
        },
    }
}

/// Parses the run `[s, e)` of `l` as a fraction.
pub fn parse_frac_range(l: &Vec<u8>, s: usize, e: usize) -> (r: Option<Frac>)
    requires
        s <= e <= l@.len(),
    ensures
        r == spec_parse_frac(l@.subrange(s as int, e as int)),
        (r matches Some(f) ==> f.wf()),
{
    let ghost t = l@.subrange(s as int, e as int);
    // locate the slash within the run
    let mut k = s;
    let mut slash: Option<usize> = None;
    while k < e && slash.is_none()
        invariant
            s <= k <= e <= l@.len(),
            t == l@.subrange(s as int, e as int),
            match slash {
                None => spec_find_byte(t, 47, 0, t.len() as int) == spec_find_byte(
                    t,
                    47,
                    k - s,
                    t.len() as int,
                ),
                Some(p) => s <= p < e && spec_find_byte(t, 47, 0, t.len() as int) == Some(
                    p - s,
                ),
            },
        decreases e - k, (if slash is None { 1int } else { 0int }),
    {
        proof {
            assert(t[k - s] == l@[k as int]);
        }
        if l[k] == 47 {
            slash = Some(k);
        } else {
            k = k + 1;
        }
    }
    match slash {
        None => None,
        Some(p) => {
            let mut nsb: Vec<u8> = Vec::new();
            let mut a = s;
            while a < p
                invariant
                    s <= a <= p < e <= l@.len(),
                    nsb@ == l@.subrange(s as int, a as int),
                decreases p - a,
            {
                nsb.push(l[a]);
                proof {
                    assert(nsb@ =~= l@.subrange(s as int, a as int + 1));
                }
                a = a + 1;
            }
            let mut dsb: Vec<u8> = Vec::new();
            let mut c = p + 1;
            while c < e
                invariant
                    p < c <= e <= l@.len(),
                    s <= p,
                    dsb@ == l@.subrange(p as int + 1, c as int),
                decreases e - c,
            {
                dsb.push(l[c]);
                proof {
                    assert(dsb@ =~= l@.subrange(p as int + 1, c as int + 1));
                }
                c = c + 1;
            }
            proof {
                assert(nsb@ =~= t.take(p - s));
                assert(dsb@ =~= t.skip(p - s + 1));
            }
            match (parse_u64_bytes(&nsb), parse_u64_bytes(&dsb)) {
                (Some(num), Some(den)) => {
                    if 0 < den && num <= den {
                        Some(Frac { num, den })
                    } else {
                        None
                    }
                },
                _ => None,
            }
        },
    }
}

/// Rendering a well-formed fraction and reading it back yields the same
/// fraction.
pub proof fn lemma_frac_round_trip(f: Frac)
    requires
        f.wf(),
    ensures
        spec_parse_frac(spec_frac_bytes(f)) == Some(f),
{
    let t = spec_frac_bytes(f);
    let nd = spec_u64_digits(f.num);
    let dd = spec_u64_digits(f.den);
    lemma_u64_digits_value(f.num);
    lemma_u64_digits_value(f.den);
    assert(t.len() == nd.len() + 1 + dd.len());
    lemma_find_after_digits(t, nd.len() as int);
    assert(t.take(nd.len() as int) =~= nd);
    assert(t.skip(nd.len() as int + 1) =~= dd);
}

/// In a run whose first `p` bytes are digits and whose byte at `p` is a
/// slash, the first slash is at `p`.
proof fn lemma_find_after_digits(t: Seq<u8>, p: int)
    requires
        0 <= p < t.len(),
        t[p] == 47,
        forall|i: int| 0 <= i < p ==> is_digit(#[trigger] t[i]),
    ensures
        spec_find_byte(t, 47, 0, t.len() as int) == Some(p),
{
    assert(forall|k: int| 0 <= k < p ==> t[k] != 47);
    lemma_find_byte_exact(t, 47, 0, t.len() as int, p);
}

/// The first match is at `p` when nothing before `p` matches.
proof fn lemma_find_byte_exact(t: Seq<u8>, b: u8, i: int, e: int, p: int)
    requires
        0 <= i <= p < e <= t.len(),
        t[p] == b,
        forall|k: int| i <= k < p ==> (#[trigger] t[k]) != b,
    ensures
        spec_find_byte(t, b, i, e) == Some(p),
    decreases p - i,
{
    if i < p {
        lemma_find_byte_exact(t, b, i + 1, e, p);
    }
}

/// No byte of the region matches, so the search fails.
proof fn lemma_find_byte_none(t: Seq<u8>, b: u8, i: int, e: int)
    requires
        0 <= i,
        e <= t.len(),
        forall|k: int| i <= k < e ==> (#[trigger] t[k]) != b,
    ensures
        spec_find_byte(t, b, i, e) is None,
    decreases e - i,
{
    if i < e {
        lemma_find_byte_none(t, b, i + 1, e);
    }
}

/// A formed-contact list written `[(i, j), (i, j)]`.
pub open spec fn spec_contact_entry_bytes(p: (i32, i32)) -> Seq<u8> {
    seq![40u8] + spec_i32_digits(p.0) + seq![44u8, 32u8] + spec_i32_digits(p.1) + seq![41u8]
}

/// The bracketed, comma-separated list body.
pub open spec fn spec_contact_list_body(s: Seq<(i32, i32)>) -> Seq<u8>
    decreases s.len(),
{
    if s.len() == 0 {
        Seq::empty()
    } else if s.len() == 1 {
        spec_contact_entry_bytes(s[0])
    } else {
        spec_contact_list_body(s.drop_last()) + seq![44u8, 32u8] + spec_contact_entry_bytes(
            s.last(),
        )
    }
}

/// The whole serialized contact list.
pub open spec fn spec_contact_list_bytes(s: Seq<(i32, i32)>) -> Seq<u8> {
    seq![91u8] + spec_contact_list_body(s) + seq![93u8]
}

/// Renders the formed-contact list.
pub fn contact_list_bytes(s: &Vec<(i32, i32)>) -> (r: Vec<u8>)
    ensures
        r@ == spec_contact_list_bytes(s@),
{
    let mut out: Vec<u8> = Vec::new();
    out.push(91);
    let n = s.len();
    let mut k: usize = 0;
    while k < n
        invariant
            k <= n,
            n == s@.len(),
            out@ == seq![91u8] + spec_contact_list_body(s@.take(k as int)),
        decreases n - k,
    {
        proof {
            assert(s@.take(k as int + 1).drop_last() =~= s@.take(k as int));
            assert(s@.take(k as int + 1).last() == s@[k as int]);
        }
        if k > 0 {
            out.push(44);
            out.push(32);
        }
        let p = s[k];
        out.push(40);
        let id = i32_digits(p.0);
        let mut id_mut = id;
        out.append(&mut id_mut);
        out.push(44);
        out.push(32);
        let jd = i32_digits(p.1);
        let mut jd_mut = jd;
        out.append(&mut jd_mut);
        out.push(41);
        proof {
            assert(out@ =~= seq![91u8] + spec_contact_list_body(s@.take(k as int + 1)));
        }
        k = k + 1;
    }
    out.push(93);
    proof {
        assert(s@.take(n as int) =~= s@);
        assert(out@ =~= spec_contact_list_bytes(s@));
    }
    out
}

/// A filling map written `{c: num/den, c: num/den}`, ids ascending.
pub open spec fn spec_filling_entry_bytes(p: (i32, Frac)) -> Seq<u8> {
    spec_i32_digits(p.0) + seq![58u8, 32u8] + spec_frac_bytes(p.1)
}

/// The brace-enclosed, comma-separated map body.
pub open spec fn spec_fillings_body(s: Seq<(i32, Frac)>) -> Seq<u8>
    decreases s.len(),
{
    if s.len() == 0 {
        Seq::empty()
    } else if s.len() == 1 {
        spec_filling_entry_bytes(s[0])
    } else {
        spec_fillings_body(s.drop_last()) + seq![44u8, 32u8] + spec_filling_entry_bytes(s.last())
    }
}

/// The whole serialized filling map.
pub open spec fn spec_fillings_bytes(s: Seq<(i32, Frac)>) -> Seq<u8> {
    seq![123u8] + spec_fillings_body(s) + seq![125u8]
}

/// Renders the filling map.
pub fn fillings_bytes(s: &Vec<(i32, Frac)>) -> (r: Vec<u8>)
    ensures
        r@ == spec_fillings_bytes(s@),
{
    let mut out: Vec<u8> = Vec::new();
    out.push(123);
    let n = s.len();
    let mut k: usize = 0;
    while k < n
        invariant
            k <= n,
            n == s@.len(),
            out@ == seq![123u8] + spec_fillings_body(s@.take(k as int)),
        decreases n - k,
    {
        proof {
            assert(s@.take(k as int + 1).drop_last() =~= s@.take(k as int));
            assert(s@.take(k as int + 1).last() == s@[k as int]);
        }
        if k > 0 {
            out.push(44);
            out.push(32);
        }
        let p = s[k];
        let id = i32_digits(p.0);
        let mut id_mut = id;
        out.append(&mut id_mut);
        out.push(58);
        out.push(32);
        let fb = frac_bytes(&p.1);
        let mut fb_mut = fb;
        out.append(&mut fb_mut);
        proof {
            assert(out@ =~= seq![123u8] + spec_fillings_body(s@.take(k as int + 1)));
        }
        k = k + 1;
    }
    out.push(125);
    proof {
        assert(s@.take(n as int) =~= s@);
        assert(out@ =~= spec_fillings_bytes(s@));
    }
    out
}

/// One `key: value` entry of a serialized filling map, read over the
/// trimmed run `[s, e)`: exactly one colon, an integer key, a fraction
/// value.  An all-whitespace entry is skipped; anything else malformed is
/// fatal.
pub open spec fn spec_parse_entry(t: Seq<u8>, s: int, e: int, acc: Seq<(i32, Frac)>) -> Option<
    Seq<(i32, Frac)>,
> {
    let ts = spec_skip_ws(t, s, e);
    let te = spec_trim_end(t, ts, e);
    if ts == te {
        Some(acc)
    } else {
        match spec_find_byte(t, 58, ts, te) {
            None => None,
            Some(p) => if spec_find_byte(t, 58, p + 1, te) is Some {
                None
            } else {
                let ks = spec_skip_ws(t, ts, p);
                let ke = spec_trim_end(t, ks, p);
                let vs = spec_skip_ws(t, p + 1, te);
                let ve = spec_trim_end(t, vs, te);
                match (spec_parse_i32(t.subrange(ks, ke)), spec_parse_frac(
                    t.subrange(vs, ve),
                )) {
                    (Some(k), Some(f)) => Some(spec_insert(acc, k, f)),
                    _ => None,
                }
            },
        }
    }
}

/// The comma-separated entries of the region `[i, e)`, folded into `acc`.
pub open spec fn spec_parse_entries(t: Seq<u8>, i: int, e: int, acc: Seq<(i32, Frac)>) -> Option<
    Seq<(i32, Frac)>,
>
    decreases e - i,
{
    if i < 0 || e > t.len() || i > e {
        None
    } else {
        match spec_find_byte(t, 44, i, e) {
            None => spec_parse_entry(t, i, e, acc),
            Some(p) => if p < i || p >= e {
                None
            } else {
                match spec_parse_entry(t, i, p, acc) {
                    None => None,
                    Some(acc2) => spec_parse_entries(t, p + 1, e, acc2),
                }
            },
        }
    }
}

/// A whole byte run read back as a filling map: braces around
/// comma-separated `key: value` entries, later keys overwriting earlier
/// ones.
pub open spec fn spec_parse_fillings(t: Seq<u8>) -> Option<Seq<(i32, Frac)>> {
    let ts = spec_skip_ws(t, 0, t.len() as int);
    let te = spec_trim_end(t, ts, t.len() as int);
    if te - ts < 2 || t[ts] != 123 || t[te - 1] != 125 {
        None
    } else {
        spec_parse_entries(t, ts + 1, te - 1, Seq::empty())
    }
}

/// Parses one entry of `[s, e)` into the map.
fn parse_entry(l: &Vec<u8>, s: usize, e: usize, map: &mut Vec<(i32, Frac)>) -> (ok: bool)
    requires
        s <= e <= l@.len(),
        pairs_sorted(old(map)@),
        frac_map_wf(old(map)@),
    ensures
        ok ==> spec_parse_entry(l@, s as int, e as int, old(map)@) == Some(final(map)@)
            && frac_map_wf(final(map)@),
        !ok ==> spec_parse_entry(l@, s as int, e as int, old(map)@) is None && final(map)@ == old(
            map,
        )@,
{
    let (ts, te) = trim_range(l, s, e);
    if ts == te {
        return true;
    }
    match find_byte(l, 58, ts, te) {
        None => false,
        Some(p) => {
            match find_byte(l, 58, p + 1, te) {
                Some(_) => false,
                None => {
                    let (ks, ke) = trim_range(l, ts, p);
                    let (vs, ve) = trim_range(l, p + 1, te);
                    match parse_i32_range(l, ks, ke) {
                        None => false,
                        Some(k) => {
                            match parse_frac_range(l, vs, ve) {
                                None => false,
                                Some(f) => {
                                    proof {
                                        crate::pairmap::lemma_map_insert_values(
                                            map@,
                                            k,
                                            f,
                                            |ff: Frac| ff.wf(),
                                        );
                                    }
                                    map_insert(map, k, f);
                                    true
                                },
                            }
                        },
                    }
                },
            }
        },
    }
}

/// Reads a serialized filling map back, exactly as the writer made it:
/// `{c: num/den, ...}` with any number of entries.
pub fn parse_clusters_filling(l: &Vec<u8>) -> (r: Option<Vec<(i32, Frac)>>)
    ensures
        match r {
            Some(m) => spec_parse_fillings(l@) == Some(m@) && frac_map_wf(m@),
            None => spec_parse_fillings(l@) is None,
        },
{
    let n = l.len();
    let (ts, te) = trim_range(l, 0, n);
    if te - ts < 2 {
        return None;
    }
    if l[ts] != 123 || l[te - 1] != 125 {
        return None;
    }
    let mut map: Vec<(i32, Frac)> = Vec::new();
    let mut i = ts + 1;
    let e = te - 1;
    loop
        invariant
            ts + 1 <= i <= e < te <= n == l@.len(),
            ts == spec_skip_ws(l@, 0, n as int),
            te == spec_trim_end(l@, ts as int, n as int),
            e == te - 1,
            te - ts >= 2,
            l@[ts as int] == 123,
            l@[te as int - 1] == 125,
            pairs_sorted(map@),
            frac_map_wf(map@),
            spec_parse_entries(l@, ts as int + 1, e as int, Seq::empty()) == spec_parse_entries(
                l@,
                i as int,
                e as int,
                map@,
            ),
        decreases e - i,
    {
        match find_byte(l, 44, i, e) {
            None => {
                let ok = parse_entry(l, i, e, &mut map);
                if ok {
                    return Some(map);
                } else {
                    return None;
                }
            },
            Some(p) => {
                let ok = parse_entry(l, i, p, &mut map);
                if !ok {
                    return None;
                }
                i = p + 1;
            },
        }
    }
}

/// Shape of a rendered integer: non-empty, digits after an optional
/// leading minus.
proof fn lemma_i32_digits_shape(v: i32)
    ensures
        spec_i32_digits(v).len() >= 1,
        forall|i: int|
            0 <= i < spec_i32_digits(v).len() ==> (is_digit(#[trigger] spec_i32_digits(v)[i])
                || spec_i32_digits(v)[i] == 45),
        is_digit(spec_i32_digits(v).last()),
{
    let t = spec_i32_digits(v);
    if v < 0 {
        let mag = (-(v as int)) as u64;
        lemma_u64_digits_value(mag);
        let d = spec_u64_digits(mag);
        assert(t == seq![45u8] + d);
        assert(forall|i: int| 1 <= i < t.len() ==> t[i] == d[i - 1]);
        assert(t.last() == d.last());
        assert(is_digit(d.last()));
    } else {
        lemma_u64_digits_value(v as u64);
        assert(t == spec_u64_digits(v as u64));
    }
}

/// Shape of a rendered fraction: digits around one slash, a digit at
/// either end.
proof fn lemma_frac_bytes_shape(f: Frac)
    ensures
        spec_frac_bytes(f).len() >= 3,
        forall|i: int|
            0 <= i < spec_frac_bytes(f).len() ==> (is_digit(#[trigger] spec_frac_bytes(f)[i])
                || spec_frac_bytes(f)[i] == 47),
        is_digit(spec_frac_bytes(f)[0]),
        is_digit(spec_frac_bytes(f).last()),
{
    let t = spec_frac_bytes(f);
    let nd = spec_u64_digits(f.num);
    let dd = spec_u64_digits(f.den);
    lemma_u64_digits_value(f.num);
    lemma_u64_digits_value(f.den);
    assert(t.len() == nd.len() + 1 + dd.len());
    assert forall|i: int| 0 <= i < t.len() implies (is_digit(#[trigger] t[i]) || t[i] == 47) by {
        if i < nd.len() {
            assert(t[i] == nd[i]);
        } else if i == nd.len() {
            assert(t[i] == 47);
        } else {
            assert(t[i] == dd[i - nd.len() - 1]);
        }
    }
    assert(t[0] == nd[0]);
    assert(t.last() == dd.last());
    assert(is_digit(dd.last()));
}

/// Shape of a serialized map entry: key digits, colon, space, fraction;
/// no commas, exactly one colon, non-whitespace at either end.
proof fn lemma_entry_bytes_shape(p: (i32, Frac))
    ensures
        ({
            let r = spec_filling_entry_bytes(p);
            let kl = spec_i32_digits(p.0).len() as int;
            &&& r.len() >= 6
            &&& kl >= 1
            &&& r.len() == kl + 2 + spec_frac_bytes(p.1).len()
            &&& (forall|j: int| 0 <= j < kl ==> (#[trigger] r[j]) != 58 && r[j] != 44 && !crate::text::is_ws(r[j]))
            &&& r[kl] == 58
            &&& r[kl + 1] == 32
            &&& (forall|j: int| kl + 2 <= j < r.len() ==> (#[trigger] r[j]) != 58 && r[j] != 44)
            &&& !crate::text::is_ws(r[kl + 2])
            &&& is_digit(r.last())
            &&& r.subrange(0, kl) == spec_i32_digits(p.0)
            &&& r.subrange(kl + 2, r.len() as int) == spec_frac_bytes(p.1)
        }),
{
    let r = spec_filling_entry_bytes(p);
    let kb = spec_i32_digits(p.0);
    let fb = spec_frac_bytes(p.1);
    let kl = kb.len() as int;
    lemma_i32_digits_shape(p.0);
    lemma_frac_bytes_shape(p.1);
    assert(r.len() == kl + 2 + fb.len());
    assert(forall|j: int| 0 <= j < kl ==> (#[trigger] r[j]) == kb[j]);
    assert(r[kl] == 58);
    assert(r[kl + 1] == 32);
    assert(forall|j: int| kl + 2 <= j < r.len() ==> (#[trigger] r[j]) == fb[j - kl - 2]);
    assert(r[kl + 2] == fb[0]);
    assert(r.last() == fb.last());
    assert(r.subrange(0, kl) =~= kb);
    assert(r.subrange(kl + 2, r.len() as int) =~= fb);
}

/// A well-laid-out entry in `[i + pad, e)` parses to exactly one insert.
proof fn lemma_parse_entry_exact(
    t: Seq<u8>,
    i: int,
    e: int,
    pad: int,
    key: i32,
    f: Frac,
    acc: Seq<(i32, Frac)>,
)
    requires
        0 <= i,
        0 <= pad <= 1,
        i + pad <= e <= t.len(),
        pad == 1 ==> t[i] == 32,
        t.subrange(i + pad, e) == spec_filling_entry_bytes((key, f)),
        f.wf(),
    ensures
        spec_parse_entry(t, i, e, acc) == Some(spec_insert(acc, key, f)),
{
    let o = i + pad;
    let r = spec_filling_entry_bytes((key, f));
    let kl = spec_i32_digits(key).len() as int;
    lemma_entry_bytes_shape((key, f));
    assert(e - o == r.len());
    assert forall|j: int| 0 <= j < r.len() implies t[o + j] == r[j] by {
        assert(t.subrange(o, e)[j] == t[o + j]);
    }
    let cp = o + kl;
    // the run's bounds after trimming
    assert(t[o] == r[0]);
    assert(!crate::text::is_ws(t[o]));
    assert(spec_skip_ws(t, i, e) == o);
    assert(t[e - 1] == r[r.len() - 1]);
    assert(is_digit(t[e - 1]));
    assert(spec_trim_end(t, o, e) == e);
    // exactly one colon, right after the key digits
    assert(t[cp] == r[kl]);
    assert forall|k: int| o <= k < cp implies (#[trigger] t[k]) != 58 by {
        assert(t[k] == r[k - o]);
    }
    lemma_find_byte_exact(t, 58, o, e, cp);
    assert forall|k: int| cp + 1 <= k < e implies (#[trigger] t[k]) != 58 by {
        assert(t[k] == r[k - o]);
    }
    lemma_find_byte_none(t, 58, cp + 1, e);
    // the key part is the rendered integer, untrimmed
    assert(spec_skip_ws(t, o, cp) == o);
    assert(t[cp - 1] == r[kl - 1]);
    assert(!crate::text::is_ws(t[cp - 1]));
    assert(spec_trim_end(t, o, cp) == cp);
    assert(t.subrange(o, cp) =~= spec_i32_digits(key));
    crate::text::lemma_i32_round_trip(key);
    // the value part is the rendered fraction after one space
    assert(t[cp + 1] == 32);
    assert(t[cp + 2] == r[kl + 2]);
    assert(!crate::text::is_ws(t[cp + 2]));
    assert(spec_skip_ws(t, cp + 2, e) == cp + 2);
    assert(spec_skip_ws(t, cp + 1, e) == cp + 2);
    assert(spec_trim_end(t, cp + 2, e) == e);
    assert(t.subrange(cp + 2, e) =~= spec_frac_bytes(f));
    lemma_frac_round_trip(f);
}

/// The map body taken apart at its first entry.
proof fn lemma_fillings_body_left(s: Seq<(i32, Frac)>)
    requires
        s.len() >= 2,
    ensures
        spec_fillings_body(s) == spec_filling_entry_bytes(s[0]) + seq![44u8, 32u8]
            + spec_fillings_body(s.skip(1)),
    decreases s.len(),
{
    if s.len() == 2 {
        assert(s.drop_last() =~= seq![s[0]]);
        assert(s.skip(1) =~= seq![s[1]]);
        assert(spec_fillings_body(seq![s[0]]) == spec_filling_entry_bytes(s[0]));
        assert(spec_fillings_body(seq![s[1]]) == spec_filling_entry_bytes(s[1]));
        assert(spec_fillings_body(s) =~= spec_filling_entry_bytes(s[0]) + seq![44u8, 32u8]
            + spec_fillings_body(s.skip(1)));
    } else {
        let p = s.drop_last();
        lemma_fillings_body_left(p);
        assert(p[0] == s[0]);
        assert(p.skip(1) =~= s.skip(1).drop_last());
        assert(s.skip(1).len() >= 2);
        assert(spec_fillings_body(s.skip(1)) == spec_fillings_body(s.skip(1).drop_last()) + seq![
            44u8,
            32u8,
        ] + spec_filling_entry_bytes(s.skip(1).last()));
        assert(s.skip(1).last() == s.last());
        assert(spec_fillings_body(s) =~= spec_filling_entry_bytes(s[0]) + seq![44u8, 32u8]
            + spec_fillings_body(s.skip(1)));
    }
}

/// A whole serialized body in `[i + pad, e)` parses to the run of its
/// inserts.
#[verifier::rlimit(100)]
proof fn lemma_parse_body(
    t: Seq<u8>,
    i: int,
    e: int,
    pad: int,
    s: Seq<(i32, Frac)>,
    acc: Seq<(i32, Frac)>,
)
    requires
        0 <= i,
        0 <= pad <= 1,
        i + pad <= e <= t.len(),
        pad == 1 ==> t[i] == 32,
        t.subrange(i + pad, e) == spec_fillings_body(s),
        forall|k: int| 0 <= k < s.len() ==> ((#[trigger] s[k]).1).wf(),
    ensures
        spec_parse_entries(t, i, e, acc) == Some(spec_insert_all(acc, s)),
    decreases s.len(),
{
    let o = i + pad;
    if s.len() == 0 {
        assert(e == o);
        assert forall|k: int| i <= k < e implies (#[trigger] t[k]) != 44 by {}
        lemma_find_byte_none(t, 44, i, e);
        if pad == 1 {
            assert(spec_skip_ws(t, i, e) == e);
        }
        assert(spec_trim_end(t, spec_skip_ws(t, i, e), e) == e);
        assert(spec_parse_entry(t, i, e, acc) == Some(acc));
    } else if s.len() == 1 {
        assert(spec_fillings_body(s) == spec_filling_entry_bytes(s[0]));
        lemma_entry_bytes_shape(s[0]);
        let r = spec_filling_entry_bytes(s[0]);
        assert forall|j: int| 0 <= j < r.len() implies t[o + j] == r[j] by {
            assert(t.subrange(o, e)[j] == t[o + j]);
        }
        assert forall|k: int| i <= k < e implies (#[trigger] t[k]) != 44 by {
            if k >= o {
                assert(t[k] == r[k - o]);
                let kl = spec_i32_digits(s[0].0).len() as int;
                if k - o < kl {
                } else if k - o == kl {
                } else if k - o == kl + 1 {
                } else {
                }
            }
        }
        lemma_find_byte_none(t, 44, i, e);
        lemma_parse_entry_exact(t, i, e, pad, s[0].0, s[0].1, acc);
        assert(s.skip(1) =~= Seq::<(i32, Frac)>::empty());
        assert(spec_insert_all(spec_insert(acc, s[0].0, s[0].1), Seq::<(i32, Frac)>::empty())
            == spec_insert(acc, s[0].0, s[0].1));
        assert(spec_insert_all(acc, s) == spec_insert(acc, s[0].0, s[0].1));
    } else {
        lemma_fillings_body_left(s);
        lemma_entry_bytes_shape(s[0]);
        let r0 = spec_filling_entry_bytes(s[0]);
        let body = spec_fillings_body(s);
        let rest0 = spec_fillings_body(s.skip(1));
        let cp = o + r0.len();
        assert(body.len() == r0.len() + 2 + rest0.len());
        assert(e - o == body.len());
        assert(cp + 2 + rest0.len() == e);
        assert forall|j: int| 0 <= j < body.len() implies t[o + j] == body[j] by {
            assert(t.subrange(o, e)[j] == t[o + j]);
        }
        assert(forall|j: int| 0 <= j < r0.len() ==> body[j] == (#[trigger] r0[j]));
        assert(body[r0.len() as int] == 44);
        assert(body[r0.len() as int + 1] == 32);
        let rest = spec_fillings_body(s.skip(1));
        assert(forall|j: int|
            r0.len() + 2 <= j < body.len() ==> (#[trigger] body[j]) == rest[j - r0.len() - 2]);
        // the first comma separates the first entry
        assert(t[cp] == 44);
        assert forall|k: int| i <= k < cp implies (#[trigger] t[k]) != 44 by {
            if k >= o {
                assert(t[k] == r0[k - o]);
                let kl = spec_i32_digits(s[0].0).len() as int;
                if k - o < kl {
                } else if k - o == kl {
                } else if k - o == kl + 1 {
                } else {
                }
            }
        }
        lemma_find_byte_exact(t, 44, i, e, cp);
        // the first entry parses alone
        assert(t.subrange(o, cp) =~= r0);
        lemma_parse_entry_exact(t, i, cp, pad, s[0].0, s[0].1, acc);
        // and the rest of the body follows after the separator
        assert(t[cp + 1] == 32);
        assert forall|a: int| 0 <= a < rest.len() implies t.subrange(cp + 2, e)[a] == rest[a] by {
            let j = r0.len() + 2 + a;
            assert(t[o + j] == body[j]);
            assert(body[j] == rest[a]);
            assert(t.subrange(cp + 2, e)[a] == t[cp + 2 + a]);
            assert(o + j == cp + 2 + a);
        }
        assert(t.subrange(cp + 2, e) =~= rest);
        assert(forall|k: int|
            0 <= k < s.skip(1).len() ==> ((#[trigger] s.skip(1)[k]).1).wf());
        lemma_parse_body(t, cp + 1, e, 1, s.skip(1), spec_insert(acc, s[0].0, s[0].1));
        assert(spec_insert_all(acc, s) == spec_insert_all(
            spec_insert(acc, s[0].0, s[0].1),
            s.skip(1),
        ));
    }
}

/// Writing a filling map and reading it back restores it exactly.
pub proof fn lemma_fillings_round_trip(s: Seq<(i32, Frac)>)
    requires
        frac_map_wf(s),
    ensures
        spec_parse_fillings(spec_fillings_bytes(s)) == Some(s),
{
    let t = spec_fillings_bytes(s);
    let n = t.len() as int;
    let body = spec_fillings_body(s);
    assert(t[0] == 123);
    assert(t[n - 1] == 125);
    assert(spec_skip_ws(t, 0, n) == 0);
    assert(spec_trim_end(t, 0, n) == n);
    assert(t.subrange(1, n - 1) =~= body);
    lemma_parse_body(t, 1, n - 1, 0, s, Seq::empty());
    crate::pairmap::lemma_insert_all_append(Seq::<(i32, Frac)>::empty(), s);
    assert(Seq::<(i32, Frac)>::empty() + s =~= s);
}

/// The nested view of a table: rows of byte-field cells.
pub open spec fn spec_rows_view(r: Seq<Vec<Vec<u8>>>) -> Seq<Seq<Seq<u8>>> {
    r.map(|i: int, row: Vec<Vec<u8>>| row@.map(|j: int, f: Vec<u8>| f@))
}

/// The header of a per-frame table:
/// `frame, contacts, q, contact_list, clusters_filling`.
pub open spec fn spec_frame_header() -> Seq<Seq<u8>> {
    seq![
        seq![102u8, 114u8, 97u8, 109u8, 101u8],
        seq![99u8, 111u8, 110u8, 116u8, 97u8, 99u8, 116u8, 115u8],
        seq![113u8],
        seq![99u8, 111u8, 110u8, 116u8, 97u8, 99u8, 116u8, 95u8, 108u8, 105u8, 115u8, 116u8],
        seq![
            99u8,
            108u8,
            117u8,
            115u8,
            116u8,
            101u8,
            114u8,
            115u8,
            95u8,
            102u8,
            105u8,
            108u8,
            108u8,
            105u8,
            110u8,
            103u8,
        ],
    ]
}

/// One record's row: frame, contact count, `q`, formed pairs, fillings.
pub open spec fn spec_frame_row(fr: FrameResult) -> Seq<Seq<u8>> {
    seq![
        spec_i32_digits(fr.frame),
        spec_u64_digits(fr.contacts as u64),
        spec_frac_bytes(fr.q),
        spec_contact_list_bytes(fr.contact_list@),
        spec_fillings_bytes(fr.clusters_filling@),
    ]
}

/// The whole per-frame table: header first, one row per record.
pub open spec fn spec_frame_rows(results: Seq<FrameResult>) -> Seq<Seq<Seq<u8>>> {
    seq![spec_frame_header()] + results.map(|i: int, fr: FrameResult| spec_frame_row(fr))
}

/// Renders the per-frame table as rows of byte fields.
pub fn render_frame_rows(results: &Vec<FrameResult>) -> (r: Vec<Vec<Vec<u8>>>)
    ensures
        spec_rows_view(r@) == spec_frame_rows(results@),
{
    let mut out: Vec<Vec<Vec<u8>>> = Vec::new();
    let mut header: Vec<Vec<u8>> = Vec::new();
    let mut f0: Vec<u8> = Vec::new();
    f0.push(102);
    f0.push(114);
    f0.push(97);
    f0.push(109);
    f0.push(101);
    header.push(f0);
    let mut f1: Vec<u8> = Vec::new();
    f1.push(99);
    f1.push(111);
    f1.push(110);
    f1.push(116);
    f1.push(97);
    f1.push(99);
    f1.push(116);
    f1.push(115);
    header.push(f1);
    let mut f2: Vec<u8> = Vec::new();
    f2.push(113);
    header.push(f2);
    let mut f3: Vec<u8> = Vec::new();
    f3.push(99);
    f3.push(111);
    f3.push(110);
    f3.push(116);
    f3.push(97);
    f3.push(99);
    f3.push(116);
    f3.push(95);
    f3.push(108);
    f3.push(105);
    f3.push(115);
    f3.push(116);
    header.push(f3);
    let mut f4: Vec<u8> = Vec::new();
    f4.push(99);
    f4.push(108);
    f4.push(117);
    f4.push(115);
    f4.push(116);
    f4.push(101);
    f4.push(114);
    f4.push(115);
    f4.push(95);
    f4.push(102);
    f4.push(105);
    f4.push(108);
    f4.push(108);
    f4.push(105);
    f4.push(110);
    f4.push(103);
    header.push(f4);
    proof {
        assert(header@.map(|j: int, f: Vec<u8>| f@) =~~= spec_frame_header());
    }
    out.push(header);
    let n = results.len();
    let mut k: usize = 0;
    proof {
        assert(spec_rows_view(out@) =~~= spec_frame_rows(results@.take(0)));
    }
    while k < n
        invariant
            k <= n,
            n == results@.len(),
            spec_rows_view(out@) == spec_frame_rows(results@.take(k as int)),
        decreases n - k,
    {
        let fr = &results[k];
        let mut row: Vec<Vec<u8>> = Vec::new();
        row.push(i32_digits(fr.frame));
        row.push(u64_digits(fr.contacts as u64));
        row.push(frac_bytes(&fr.q));
        row.push(contact_list_bytes(&fr.contact_list));
        row.push(fillings_bytes(&fr.clusters_filling));
        proof {
            assert(row@.map(|j: int, f: Vec<u8>| f@) =~~= spec_frame_row(results@[k as int]));
        }
        let ghost prev = out@;
        let ghost row_v = row@;
        out.push(row);
        proof {
            let target = spec_frame_rows(results@.take(k as int + 1));
            let prev_target = spec_frame_rows(results@.take(k as int));
            assert(target.len() == k + 2);
            assert(spec_rows_view(prev).len() == prev.len());
            assert(prev_target.len() == k + 1);
            assert(prev.len() == k + 1);
            assert(out@.len() == k + 2);
            assert(spec_rows_view(out@).len() == k + 2);
            assert forall|j: int| 0 <= j < k + 2 implies spec_rows_view(out@)[j] == target[j] by {
                if j < k + 1 {
                    assert(out@[j] == prev[j]);
                    assert(spec_rows_view(out@)[j] == spec_rows_view(prev)[j]);
                    if j == 0 {
                        assert(prev_target[0] == spec_frame_header());
                        assert(target[0] == spec_frame_header());
                    } else {
                        assert(prev_target[j] == spec_frame_row(results@.take(k as int)[j - 1]));
                        assert(target[j] == spec_frame_row(results@.take(k as int + 1)[j - 1]));
                        assert(results@.take(k as int)[j - 1] == results@.take(k as int + 1)[j
                            - 1]);
                    }
                    assert(spec_rows_view(prev)[j] == prev_target[j]);
                } else {
                    assert(out@[j]@ == row_v);
                    assert(spec_rows_view(out@)[j] == row_v.map(|j2: int, f: Vec<u8>| f@));
                    assert(target[j] == spec_frame_row(results@.take(k as int + 1)[k as int]));
                    assert(results@.take(k as int + 1)[k as int] == results@[k as int]);
                    assert(row_v.map(|j2: int, f: Vec<u8>| f@) =~~= row_v.map(
                        |j: int, f: Vec<u8>| f@,
                    ));
                }
            }
            assert(spec_rows_view(out@) =~= target);
        }
        k = k + 1;
    }
    proof {
        assert(results@.take(n as int) =~= results@);
    }
    out
}

/// Pushing a row extends the table view by the row's view.
proof fn lemma_rows_view_push(prev: Seq<Vec<Vec<u8>>>, row: Vec<Vec<u8>>)
    ensures
        spec_rows_view(prev.push(row)) == spec_rows_view(prev).push(
            row@.map(|j: int, f: Vec<u8>| f@),
        ),
{
    assert(spec_rows_view(prev.push(row)) =~= spec_rows_view(prev).push(
        row@.map(|j: int, f: Vec<u8>| f@),
    ));
}

/// The fields restored from one data row: frame, contact count, `q`,
/// filling map.  The contact-list column is deliberately not read back.
pub open spec fn spec_parse_frame_row(row: Seq<Seq<u8>>) -> Option<(i32, u64, Frac, Seq<(i32, Frac)>)> {
    if row.len() < 5 {
        None
    } else {
        match (spec_parse_i32(row[0]), spec_parse_u64(row[1]), spec_parse_frac(row[2]),
        spec_parse_fillings(row[4])) {
            (Some(fr), Some(c), Some(q), Some(m)) => Some((fr, c, q, m)),
            _ => None,
        }
    }
}

/// The data rows from position `i` on, all parsed.
pub open spec fn spec_parse_frame_data(rows: Seq<Seq<Seq<u8>>>, i: int) -> Option<
    Seq<(i32, u64, Frac, Seq<(i32, Frac)>)>,
>
    decreases rows.len() - i,
{
    if i < 0 || i >= rows.len() {
        Some(Seq::empty())
    } else {
        match spec_parse_frame_row(rows[i]) {
            None => None,
            Some(f) => match spec_parse_frame_data(rows, i + 1) {
                None => None,
                Some(rest) => Some(seq![f] + rest),
            },
        }
    }
}

/// A whole per-frame table read back: the first row is the header and is
/// not validated, every later row must parse.
pub open spec fn spec_parse_frame_rows(rows: Seq<Seq<Seq<u8>>>) -> Option<
    Seq<(i32, u64, Frac, Seq<(i32, Frac)>)>,
> {
    if rows.len() == 0 {
        Some(Seq::empty())
    } else {
        spec_parse_frame_data(rows, 1)
    }
}

/// The reloadable fields of a record sequence.
pub open spec fn spec_fields_of_results(results: Seq<FrameResult>) -> Seq<
    (i32, u64, Frac, Seq<(i32, Frac)>),
> {
    results.map(
        |k: int, fr: FrameResult| (fr.frame, fr.contacts as u64, fr.q, fr.clusters_filling@),
    )
}

/// The loaded records carry exactly the parsed fields, with an empty
/// contact list.
pub open spec fn frame_fields_match(
    out: Seq<FrameResult>,
    fields: Seq<(i32, u64, Frac, Seq<(i32, Frac)>)>,
) -> bool {
    &&& out.len() == fields.len()
    &&& forall|k: int|
        0 <= k < out.len() ==> {
            &&& (#[trigger] out[k]).frame == fields[k].0
            &&& out[k].contacts == fields[k].1
            &&& out[k].q == fields[k].2
            &&& out[k].clusters_filling@ == fields[k].3
            &&& out[k].contact_list@ == Seq::<(i32, i32)>::empty()
        }
}

/// The whole table parses and every contact count fits the machine.
pub open spec fn frame_rows_ok(rows: Seq<Seq<Seq<u8>>>) -> bool {
    match spec_parse_frame_rows(rows) {
        None => false,
        Some(fields) => forall|k: int| 0 <= k < fields.len() ==> ((#[trigger] fields[k]).1) <= usize::MAX,
    }
}

/// Each parsed field tuple comes from its own row.
proof fn lemma_frame_data_index(rows: Seq<Seq<Seq<u8>>>, i: int)
    requires
        0 <= i <= rows.len(),
        spec_parse_frame_data(rows, i) is Some,
    ensures
        ({
            let rest = spec_parse_frame_data(rows, i)->Some_0;
            &&& rest.len() == rows.len() - i
            &&& forall|a: int|
                0 <= a < rest.len() ==> spec_parse_frame_row(rows[i + a]) == Some(
                    #[trigger] rest[a],
                )
        }),
    decreases rows.len() - i,
{
    if i < rows.len() {
        lemma_frame_data_index(rows, i + 1);
    }
}

/// Reads a per-frame table back, exactly as the writer made it.
///
/// The first row is the header; each later row restores frame, contact
/// count, `q` and the filling map, with the contact list left empty.
/// Fails with a format error exactly when some row does not parse or a
/// contact count does not fit the machine.
pub fn parse_frame_rows(rows: &Vec<Vec<Vec<u8>>>) -> (r: Result<Vec<FrameResult>, AnalysisError>)
    ensures
        match r {
            Ok(out) => {
                &&& frame_rows_ok(spec_rows_view(rows@))
                &&& spec_parse_frame_rows(spec_rows_view(rows@)) matches Some(fields)
                    && frame_fields_match(out@, fields)
                &&& forall|k: int| 0 <= k < out@.len() ==> (#[trigger] out@[k]).wf()
            },
            Err(e) => e == AnalysisError::FormatError && !frame_rows_ok(spec_rows_view(rows@)),
        },
{
    let ghost dv = spec_rows_view(rows@);
    let n = rows.len();
    let mut out: Vec<FrameResult> = Vec::new();
    if n == 0 {
        return Ok(out);
    }
    let mut i: usize = 1;
    while i < n
        invariant
            1 <= i <= n,
            n == rows@.len(),
            dv == spec_rows_view(rows@),
            n >= 1,
            out@.len() == i - 1,
            spec_parse_frame_data(dv, 1) == match spec_parse_frame_data(dv, i as int) {
                None => None::<Seq<(i32, u64, Frac, Seq<(i32, Frac)>)>>,
                Some(rest) => Some(spec_fields_of_results(out@) + rest),
            },
            frame_fields_match(out@, spec_fields_of_results(out@)),
            forall|k: int| 0 <= k < out@.len() ==> (#[trigger] out@[k]).wf(),
        decreases n - i,
    {
        let row = &rows[i];
        proof {
            assert(dv[i as int] == row@.map(|j: int, f: Vec<u8>| f@));
            assert(dv[i as int].len() == row@.len());
        }
        if row.len() < 5 {
            proof {
                lemma_not_ok_when_none(dv);
            }
            return Err(AnalysisError::FormatError);
        }
        proof {
            assert(dv[i as int][0] == row@[0]@);
            assert(dv[i as int][1] == row@[1]@);
            assert(dv[i as int][2] == row@[2]@);
            assert(dv[i as int][4] == row@[4]@);
        }
        let frame = match parse_i32_bytes(&row[0]) {
            Some(v) => v,
            None => {
                proof {
                    lemma_not_ok_when_none(dv);
                }
                return Err(AnalysisError::FormatError);
            },
        };
        let contacts64 = match parse_u64_bytes(&row[1]) {
            Some(v) => v,
            None => {
                proof {
                    lemma_not_ok_when_none(dv);
                }
                return Err(AnalysisError::FormatError);
            },
        };
        let q = match parse_frac_range(&row[2], 0, row[2].len()) {
            Some(v) => v,
            None => {
                proof {
                    assert(row@[2]@.subrange(0, row@[2]@.len() as int) =~= row@[2]@);
                    lemma_not_ok_when_none(dv);
                }
                return Err(AnalysisError::FormatError);
            },
        };
        proof {
            assert(row@[2]@.subrange(0, row@[2]@.len() as int) =~= row@[2]@);
        }
        let filling = match parse_clusters_filling(&row[4]) {
            Some(v) => v,
            None => {
                proof {
                    lemma_not_ok_when_none(dv);
                }
                return Err(AnalysisError::FormatError);
            },
        };
        if contacts64 > usize::MAX as u64 {
            proof {
                lemma_big_count_not_ok(dv, i as int, out@);
            }
            return Err(AnalysisError::FormatError);
        }
        let fr = FrameResult {
            frame,
            contacts: contacts64 as usize,
            q,
            contact_list: Vec::new(),
            clusters_filling: filling,
        };
        out.push(fr);
        proof {
            assert(spec_parse_frame_row(dv[i as int]) == Some(
                (frame, contacts64, q, filling@),
            ));
            assert(spec_fields_of_results(out@) =~= spec_fields_of_results(out@.drop_last())
                + seq![(frame, contacts64, q, filling@)]);
            if spec_parse_frame_data(dv, i as int + 1) is Some {
                let rest2 = spec_parse_frame_data(dv, i as int + 1)->Some_0;
                assert(spec_fields_of_results(out@.drop_last()) + (seq![
                    (frame, contacts64, q, filling@),
                ] + rest2) =~= spec_fields_of_results(out@) + rest2);
            }
        }
        i = i + 1;
    }
    proof {
        assert(spec_parse_frame_data(dv, n as int) == Some(
            Seq::<(i32, u64, Frac, Seq<(i32, Frac)>)>::empty(),
        ));
        assert(spec_fields_of_results(out@) + Seq::<(i32, u64, Frac, Seq<(i32, Frac)>)>::empty()
            =~= spec_fields_of_results(out@));
    }
    Ok(out)
}

/// A failed parse means the table is not in order.
proof fn lemma_not_ok_when_none(dv: Seq<Seq<Seq<u8>>>)
    requires
        spec_parse_frame_rows(dv) is None,
    ensures
        !frame_rows_ok(dv),
{
}

/// A contact count too big for the machine means the table is not in
/// order, wherever the remaining rows stand.
proof fn lemma_big_count_not_ok(dv: Seq<Seq<Seq<u8>>>, i: int, out: Seq<FrameResult>)
    requires
        1 <= i < dv.len(),
        spec_parse_frame_row(dv[i]) matches Some(f) && f.1 > usize::MAX,
        spec_parse_frame_data(dv, 1) == match spec_parse_frame_data(dv, i) {
            None => None::<Seq<(i32, u64, Frac, Seq<(i32, Frac)>)>>,
            Some(rest) => Some(spec_fields_of_results(out) + rest),
        },
        out.len() == i - 1,
    ensures
        !frame_rows_ok(dv),
{
    if spec_parse_frame_rows(dv) is Some {
        let fields = spec_parse_frame_rows(dv)->Some_0;
        lemma_frame_data_index(dv, 1);
        assert(spec_parse_frame_row(dv[1 + (i - 1)]) == Some(fields[i - 1]));
        assert(fields[i - 1].1 > usize::MAX);
    }
}

/// Writing a record table and reading it back restores frame, contact
/// count, `q` and the filling map of every record exactly; the contact
/// list is intentionally not restored.
pub proof fn lemma_frame_rows_round_trip(results: Seq<FrameResult>)
    requires
        forall|k: int| 0 <= k < results.len() ==> (#[trigger] results[k]).wf(),
    ensures
        spec_parse_frame_rows(spec_frame_rows(results)) == Some(spec_fields_of_results(results)),
        frame_rows_ok(spec_frame_rows(results)),
{
    lemma_rendered_data(results, 1);
    let dv = spec_frame_rows(results);
    assert(spec_fields_of_results(results).skip(0) =~= spec_fields_of_results(results));
    assert(frame_rows_ok(dv)) by {
        let fields = spec_fields_of_results(results);
        assert(forall|k: int|
            0 <= k < fields.len() ==> ((#[trigger] fields[k]).1) <= usize::MAX);
    }
}

/// The rendered data rows from `i` on parse back to the matching field
/// tuples.
proof fn lemma_rendered_data(results: Seq<FrameResult>, i: int)
    requires
        forall|k: int| 0 <= k < results.len() ==> (#[trigger] results[k]).wf(),
        1 <= i <= results.len() + 1,
    ensures
        spec_parse_frame_data(spec_frame_rows(results), i) == Some(
            spec_fields_of_results(results).skip(i - 1),
        ),
    decreases results.len() + 1 - i,
{
    let dv = spec_frame_rows(results);
    assert(dv.len() == results.len() + 1);
    if i == results.len() + 1 {
        assert(spec_fields_of_results(results).skip(i - 1) =~= Seq::<
            (i32, u64, Frac, Seq<(i32, Frac)>),
        >::empty());
    } else {
        let fr = results[i - 1];
        assert(dv[i] == spec_frame_row(fr));
        crate::text::lemma_i32_round_trip(fr.frame);
        crate::text::lemma_u64_round_trip(fr.contacts as u64);
        lemma_frac_round_trip(fr.q);
        lemma_fillings_round_trip(fr.clusters_filling@);
        assert(spec_parse_frame_row(dv[i]) == Some(
            (fr.frame, fr.contacts as u64, fr.q, fr.clusters_filling@),
        ));
        lemma_rendered_data(results, i + 1);
        assert(seq![(fr.frame, fr.contacts as u64, fr.q, fr.clusters_filling@)]
            + spec_fields_of_results(results).skip(i) =~= spec_fields_of_results(results).skip(
            i - 1,
        ));
    }
}

/// The fields of one row, as byte sequences.
pub open spec fn spec_fields_view(row: Seq<Vec<u8>>) -> Seq<Seq<u8>> {
    row.map(|j: int, f: Vec<u8>| f@)
}

/// The column labels of a cluster universe.
pub open spec fn spec_cluster_cols(ids: Seq<i32>) -> Seq<Seq<u8>> {
    ids.map(|i: int, c: i32| spec_cluster_col(c))
}

/// The rendered values of one filling map over a cluster universe.
pub open spec fn spec_summary_vals(m: Seq<(i32, Frac)>, ids: Seq<i32>) -> Seq<Seq<u8>> {
    ids.map(|i: int, c: i32| spec_frac_bytes(spec_filling_of(m, c)))
}

/// The smoothed column labels of a cluster universe.
pub open spec fn spec_smoothed_cols(ids: Seq<i32>) -> Seq<Seq<u8>> {
    ids.map(|i: int, c: i32| spec_cluster_prefix() + spec_i32_digits(c) + spec_smooth_suffix())
}

/// Pushing a field extends the field view.
proof fn lemma_fields_view_push(prev: Seq<Vec<u8>>, f: Vec<u8>)
    ensures
        spec_fields_view(prev.push(f)) == spec_fields_view(prev).push(f@),
{
    assert(spec_fields_view(prev.push(f)) =~= spec_fields_view(prev).push(f@));
}

/// The `cluster_` column prefix.
pub open spec fn spec_cluster_prefix() -> Seq<u8> {
    seq![99u8, 108u8, 117u8, 115u8, 116u8, 101u8, 114u8, 95u8]
}

/// The `frame` column label.
pub open spec fn spec_frame_label() -> Seq<u8> {
    seq![102u8, 114u8, 97u8, 109u8, 101u8]
}

/// The `_smooth` column suffix.
pub open spec fn spec_smooth_suffix() -> Seq<u8> {
    seq![95u8, 115u8, 109u8, 111u8, 111u8, 116u8, 104u8]
}

/// The `q_smooth` column label.
pub open spec fn spec_q_smooth_label() -> Seq<u8> {
    seq![113u8, 95u8, 115u8, 109u8, 111u8, 111u8, 116u8, 104u8]
}

/// The column label `cluster_<id>`.
pub open spec fn spec_cluster_col(c: i32) -> Seq<u8> {
    spec_cluster_prefix() + spec_i32_digits(c)
}

/// Pushes the `cluster_` prefix.
fn push_cluster_prefix(out: &mut Vec<u8>)
    ensures
        final(out)@ == old(out)@ + spec_cluster_prefix(),
{
    out.push(99);
    out.push(108);
    out.push(117);
    out.push(115);
    out.push(116);
    out.push(101);
    out.push(114);
    out.push(95);
    proof {
        assert(out@ =~= old(out)@ + spec_cluster_prefix());
    }
}

/// Builds the `frame` label.
fn frame_label() -> (r: Vec<u8>)
    ensures
        r@ == spec_frame_label(),
{
    let mut out: Vec<u8> = Vec::new();
    out.push(102);
    out.push(114);
    out.push(97);
    out.push(109);
    out.push(101);
    proof {
        assert(out@ =~= spec_frame_label());
    }
    out
}

/// The header of a window-summary table: `frame` then one column per
/// cluster id.
pub open spec fn spec_summary_header(ids: Seq<i32>) -> Seq<Seq<u8>> {
    seq![spec_frame_label()] + spec_cluster_cols(ids)
}

/// One summary row: the window's first frame id, then each cluster's
/// value (zero when absent).
pub open spec fn spec_summary_row(ws: WindowSummary, ids: Seq<i32>) -> Seq<Seq<u8>> {
    seq![spec_i32_digits(ws.frame)] + spec_summary_vals(ws.cluster_means@, ids)
}

/// The whole window-summary table.
pub open spec fn spec_summary_rows(summaries: Seq<WindowSummary>, ids: Seq<i32>) -> Seq<
    Seq<Seq<u8>>,
> {
    seq![spec_summary_header(ids)] + summaries.map(
        |i: int, ws: WindowSummary| spec_summary_row(ws, ids),
    )
}

/// Renders the window-summary table over the given cluster universe.
pub fn render_summary_rows(summaries: &Vec<WindowSummary>, ids: &Vec<i32>) -> (r: Vec<
    Vec<Vec<u8>>,
>)
    ensures
        spec_rows_view(r@) == spec_summary_rows(summaries@, ids@),
{
    let mut out: Vec<Vec<Vec<u8>>> = Vec::new();
    let nid = ids.len();
    // header
    let mut header: Vec<Vec<u8>> = Vec::new();
    header.push(frame_label());
    let mut j: usize = 0;
    while j < nid
        invariant
            j <= nid,
            nid == ids@.len(),
            spec_fields_view(header@) == seq![spec_frame_label()] + spec_cluster_cols(
                ids@.take(j as int),
            ),
        decreases nid - j,
    {
        let mut col: Vec<u8> = Vec::new();
        push_cluster_prefix(&mut col);
        let d = i32_digits(ids[j]);
        let mut d_mut = d;
        col.append(&mut d_mut);
        proof {
            assert(col@ =~= spec_cluster_col(ids@[j as int]));
        }
        let ghost prevh = header@;
        header.push(col);
        proof {
            lemma_fields_view_push(prevh, col);
            assert(seq![spec_frame_label()] + spec_cluster_cols(ids@.take(j as int + 1)) =~= (
            seq![spec_frame_label()] + spec_cluster_cols(ids@.take(j as int))).push(col@));
        }
        j = j + 1;
    }
    proof {
        assert(ids@.take(nid as int) =~= ids@);
        assert(spec_fields_view(header@) == spec_summary_header(ids@));
        assert(spec_rows_view(Seq::<Vec<Vec<u8>>>::empty()) =~= Seq::<Seq<Seq<u8>>>::empty());
    }
    let ghost prev0 = out@;
    out.push(header);
    proof {
        lemma_rows_view_push(prev0, header);
        assert(spec_rows_view(out@) =~~= spec_summary_rows(summaries@.take(0), ids@));
    }
    // one row per summary
    let n = summaries.len();
    let mut k: usize = 0;
    while k < n
        invariant
            k <= n,
            n == summaries@.len(),
            spec_rows_view(out@) == spec_summary_rows(summaries@.take(k as int), ids@),
            nid == ids@.len(),
        decreases n - k,
    {
        let ws = &summaries[k];
        let mut row: Vec<Vec<u8>> = Vec::new();
        row.push(i32_digits(ws.frame));
        let mut j2: usize = 0;
        while j2 < nid
            invariant
                j2 <= nid,
                nid == ids@.len(),
                spec_fields_view(row@) == seq![spec_i32_digits(ws.frame)] + spec_summary_vals(
                    ws.cluster_means@,
                    ids@.take(j2 as int),
                ),
            decreases nid - j2,
        {
            let v = crate::results::filling_of(&ws.cluster_means, ids[j2]);
            let fb = frac_bytes(&v);
            let ghost prevr = row@;
            row.push(fb);
            proof {
                lemma_fields_view_push(prevr, fb);
                assert(seq![spec_i32_digits(ws.frame)] + spec_summary_vals(
                    ws.cluster_means@,
                    ids@.take(j2 as int + 1),
                ) =~= (seq![spec_i32_digits(ws.frame)] + spec_summary_vals(
                    ws.cluster_means@,
                    ids@.take(j2 as int),
                )).push(fb@));
            }
            j2 = j2 + 1;
        }
        proof {
            assert(ids@.take(nid as int) =~= ids@);
            assert(spec_fields_view(row@) == spec_summary_row(summaries@[k as int], ids@));
        }
        let ghost prev = out@;
        out.push(row);
        proof {
            lemma_rows_view_push(prev, row);
            assert(spec_summary_rows(summaries@.take(k as int + 1), ids@) =~= spec_summary_rows(
                summaries@.take(k as int),
                ids@,
            ).push(spec_summary_row(summaries@[k as int], ids@)));
        }
        k = k + 1;
    }
    proof {
        assert(summaries@.take(n as int) =~= summaries@);
    }
    out
}

/// A header column read as a cluster column, if it is one.
pub open spec fn spec_col_cluster(col: Seq<u8>) -> Option<i32> {
    if col.len() >= 8 && col.take(8) == spec_cluster_prefix() {
        spec_parse_i32(col.skip(8))
    } else {
        None
    }
}

/// The cluster columns of a header: position and id of every column of
/// the shape `cluster_<id>`.
pub open spec fn spec_header_clusters(h: Seq<Seq<u8>>) -> Seq<(int, i32)>
    decreases h.len(),
{
    if h.len() == 0 {
        Seq::empty()
    } else {
        spec_header_clusters(h.drop_last()) + match spec_col_cluster(h.last()) {
            Some(id) => seq![(h.len() - 1int, id)],
            None => Seq::empty(),
        }
    }
}

/// The first `frame` column at or after `j`.
pub open spec fn spec_frame_col_from(h: Seq<Seq<u8>>, j: int) -> Option<int>
    decreases h.len() - j,
{
    if j < 0 || j >= h.len() {
        None
    } else if h[j] == spec_frame_label() {
        Some(j)
    } else {
        spec_frame_col_from(h, j + 1)
    }
}

/// One data row's values over the cluster columns from `a` on, folded
/// into `acc`.
pub open spec fn spec_row_fill(
    row: Seq<Seq<u8>>,
    cols: Seq<(int, i32)>,
    a: int,
    acc: Seq<(i32, Frac)>,
) -> Option<Seq<(i32, Frac)>>
    decreases cols.len() - a,
{
    if a < 0 || a >= cols.len() {
        Some(acc)
    } else {
        if cols[a].0 < 0 || cols[a].0 >= row.len() {
            None
        } else {
            match spec_parse_frac(row[cols[a].0]) {
                None => None,
                Some(f) => spec_row_fill(row, cols, a + 1, spec_insert(acc, cols[a].1, f)),
            }
        }
    }
}

/// One summary data row: the frame id and the filling map.
pub open spec fn spec_parse_summary_row(
    row: Seq<Seq<u8>>,
    fcol: int,
    cols: Seq<(int, i32)>,
) -> Option<(i32, Seq<(i32, Frac)>)> {
    if fcol < 0 || fcol >= row.len() {
        None
    } else {
        match spec_parse_i32(row[fcol]) {
            None => None,
            Some(fr) => match spec_row_fill(row, cols, 0, Seq::empty()) {
                None => None,
                Some(m) => Some((fr, m)),
            },
        }
    }
}

/// The summary data rows from `i` on.
pub open spec fn spec_parse_summary_data(
    rows: Seq<Seq<Seq<u8>>>,
    i: int,
    fcol: int,
    cols: Seq<(int, i32)>,
) -> Option<Seq<(i32, Seq<(i32, Frac)>)>>
    decreases rows.len() - i,
{
    if i < 0 || i >= rows.len() {
        Some(Seq::empty())
    } else {
        match spec_parse_summary_row(rows[i], fcol, cols) {
            None => None,
            Some(f) => match spec_parse_summary_data(rows, i + 1, fcol, cols) {
                None => None,
                Some(rest) => Some(seq![f] + rest),
            },
        }
    }
}

/// A whole window-summary table read back: the header names the frame
/// column and the cluster columns, every data row must parse.
pub open spec fn spec_parse_summary_rows(rows: Seq<Seq<Seq<u8>>>) -> Option<
    Seq<(i32, Seq<(i32, Frac)>)>,
> {
    if rows.len() == 0 {
        None
    } else {
        match spec_frame_col_from(rows[0], 0) {
            None => None,
            Some(fcol) => spec_parse_summary_data(rows, 1, fcol, spec_header_clusters(rows[0])),
        }
    }
}

/// The loaded summaries carry exactly the parsed fields.
pub open spec fn summary_fields_match(
    out: Seq<WindowSummary>,
    fields: Seq<(i32, Seq<(i32, Frac)>)>,
) -> bool {
    &&& out.len() == fields.len()
    &&& forall|k: int|
        0 <= k < out.len() ==> {
            &&& (#[trigger] out[k]).frame == fields[k].0
            &&& out[k].cluster_means@ == fields[k].1
        }
}

/// The view of the found cluster columns.
pub open spec fn spec_cols_view(s: Seq<(usize, i32)>) -> Seq<(int, i32)> {
    s.map(|i: int, p: (usize, i32)| (p.0 as int, p.1))
}

/// Reads a window-summary table back: `frame` column by name, one value
/// per `cluster_<id>` column, later duplicate ids overwriting earlier
/// ones.  Fails with a format error exactly when the table is empty, the
/// frame column is missing, or some field does not parse.
pub fn parse_summary_rows(rows: &Vec<Vec<Vec<u8>>>) -> (r: Result<
    Vec<WindowSummary>,
    AnalysisError,
>)
    ensures
        match r {
            Ok(out) => {
                &&& spec_parse_summary_rows(spec_rows_view(rows@)) matches Some(fields)
                    && summary_fields_match(out@, fields)
                &&& forall|k: int| 0 <= k < out@.len() ==> (#[trigger] out@[k]).wf()
            },
            Err(e) => e == AnalysisError::FormatError && spec_parse_summary_rows(
                spec_rows_view(rows@),
            ) is None,
        },
{
    let ghost dv = spec_rows_view(rows@);
    let n = rows.len();
    if n == 0 {
        return Err(AnalysisError::FormatError);
    }
    let header = &rows[0];
    let ghost hv = dv[0];
    proof {
        assert(hv == header@.map(|j: int, f: Vec<u8>| f@));
    }
    let hn = header.len();
    // find the frame column and the cluster columns
    let mut fcol: Option<usize> = None;
    let mut cols: Vec<(usize, i32)> = Vec::new();
    let mut j: usize = 0;
    proof {
        assert(hv.take(0) =~= Seq::<Seq<u8>>::empty());
    }
    while j < hn
        invariant
            j <= hn,
            hn == header@.len(),
            hv == header@.map(|a: int, f: Vec<u8>| f@),
            hv.len() == hn,
            spec_cols_view(cols@) == spec_header_clusters(hv.take(j as int)),
            match fcol {
                None => spec_frame_col_from(hv, 0) == spec_frame_col_from(hv, j as int),
                Some(p) => p < hn && spec_frame_col_from(hv, 0) == Some(p as int),
            },
        decreases hn - j,
    {
        let col = &header[j];
        proof {
            assert(hv[j as int] == col@);
            assert(hv.take(j as int + 1).drop_last() =~= hv.take(j as int));
            assert(hv.take(j as int + 1).last() == hv[j as int]);
        }
        // is it the frame column?
        let is_frame = col.len() == 5 && col[0] == 102 && col[1] == 114 && col[2] == 97 && col[3]
            == 109 && col[4] == 101;
        proof {
            assert(is_frame == (hv[j as int] =~= spec_frame_label()));
        }
        if is_frame && fcol.is_none() {
            fcol = Some(j);
        }
        // is it a cluster column?
        if col.len() >= 8 && col[0] == 99 && col[1] == 108 && col[2] == 117 && col[3] == 115
            && col[4] == 116 && col[5] == 101 && col[6] == 114 && col[7] == 95 {
            proof {
                assert(hv[j as int].take(8) =~= spec_cluster_prefix());
            }
            match parse_i32_range(col, 8, col.len()) {
                Some(id) => {
                    proof {
                        assert(col@.subrange(8, col@.len() as int) =~= hv[j as int].skip(8));
                    }
                    cols.push((j, id));
                    proof {
                        assert(spec_cols_view(cols@) =~= spec_header_clusters(
                            hv.take(j as int + 1),
                        ));
                    }
                },
                None => {
                    proof {
                        assert(col@.subrange(8, col@.len() as int) =~= hv[j as int].skip(8));
                        assert(spec_cols_view(cols@) =~= spec_header_clusters(
                            hv.take(j as int + 1),
                        ));
                    }
                },
            }
        } else {
            proof {
                if hv[j as int].len() >= 8 {
                    assert(hv[j as int].take(8) != spec_cluster_prefix()) by {
                        if hv[j as int].take(8) == spec_cluster_prefix() {
                            assert(col@[0] == hv[j as int].take(8)[0]);
                            assert(col@[1] == hv[j as int].take(8)[1]);
                            assert(col@[2] == hv[j as int].take(8)[2]);
                            assert(col@[3] == hv[j as int].take(8)[3]);
                            assert(col@[4] == hv[j as int].take(8)[4]);
                            assert(col@[5] == hv[j as int].take(8)[5]);
                            assert(col@[6] == hv[j as int].take(8)[6]);
                            assert(col@[7] == hv[j as int].take(8)[7]);
                        }
                    }
                }
                assert(spec_cols_view(cols@) =~= spec_header_clusters(hv.take(j as int + 1)));
            }
        }
        j = j + 1;
    }
    proof {
        assert(hv.take(hn as int) =~= hv);
    }
    let fc = match fcol {
        Some(p) => p,
        None => {
            return Err(AnalysisError::FormatError);
        },
    };
    // parse the data rows
    let mut out: Vec<WindowSummary> = Vec::new();
    let mut i: usize = 1;
    while i < n
        invariant
            1 <= i <= n,
            n == rows@.len(),
            dv == spec_rows_view(rows@),
            fc < hn,
            spec_frame_col_from(dv[0], 0) == Some(fc as int),
            spec_cols_view(cols@) == spec_header_clusters(dv[0]),
            out@.len() == i - 1,
            spec_parse_summary_data(dv, 1, fc as int, spec_cols_view(cols@)) == match
                spec_parse_summary_data(dv, i as int, fc as int, spec_cols_view(cols@)) {
                None => None::<Seq<(i32, Seq<(i32, Frac)>)>>,
                Some(rest) => Some(
                    out@.map(|k: int, ws: WindowSummary| (ws.frame, ws.cluster_means@)) + rest,
                ),
            },
            forall|k: int| 0 <= k < out@.len() ==> (#[trigger] out@[k]).wf(),
        decreases n - i,
    {
        let row = &rows[i];
        proof {
            assert(dv[i as int] == row@.map(|a: int, f: Vec<u8>| f@));
        }
        if fc >= row.len() {
            return Err(AnalysisError::FormatError);
        }
        proof {
            assert(dv[i as int][fc as int] == row@[fc as int]@);
        }
        let frame = match parse_i32_bytes(&row[fc]) {
            Some(v) => v,
            None => {
                return Err(AnalysisError::FormatError);
            },
        };
        // fold the cluster columns into a map
        let mut map: Vec<(i32, Frac)> = Vec::new();
        let nc = cols.len();
        let mut a: usize = 0;
        let mut bad = false;
        while a < nc && !bad
            invariant
                a <= nc,
                nc == cols@.len(),
                dv[i as int] == row@.map(|b: int, f: Vec<u8>| f@),
                i < n == rows@.len(),
                dv == spec_rows_view(rows@),
                pairs_sorted(map@),
                frac_map_wf(map@),
                !bad ==> spec_row_fill(dv[i as int], spec_cols_view(cols@), 0, Seq::empty())
                    == spec_row_fill(dv[i as int], spec_cols_view(cols@), a as int, map@),
                bad ==> spec_row_fill(dv[i as int], spec_cols_view(cols@), 0, Seq::empty())
                    is None,
            decreases nc - a, (if bad { 0int } else { 1int }),
        {
            let (cidx, id) = cols[a];
            if cidx >= row.len() {
                bad = true;
            } else {
                proof {
                    assert(dv[i as int][cidx as int] == row@[cidx as int]@);
                }
                match parse_frac_range(&row[cidx], 0, row[cidx].len()) {
                    None => {
                        proof {
                            assert(row@[cidx as int]@.subrange(
                                0,
                                row@[cidx as int]@.len() as int,
                            ) =~= row@[cidx as int]@);
                        }
                        bad = true;
                    },
                    Some(f) => {
                        proof {
                            assert(row@[cidx as int]@.subrange(
                                0,
                                row@[cidx as int]@.len() as int,
                            ) =~= row@[cidx as int]@);
                            crate::pairmap::lemma_map_insert_values(
                                map@,
                                id,
                                f,
                                |ff: Frac| ff.wf(),
                            );
                        }
                        map_insert(&mut map, id, f);
                        a = a + 1;
                    },
                }
            }
        }
        if bad {
            return Err(AnalysisError::FormatError);
        }
        let ws = WindowSummary { frame, cluster_means: map };
        out.push(ws);
        proof {
            assert(spec_parse_summary_row(dv[i as int], fc as int, spec_cols_view(cols@)) == Some(
                (frame, ws.cluster_means@),
            ));
            if spec_parse_summary_data(dv, i as int + 1, fc as int, spec_cols_view(cols@))
                is Some {
                let rest2 = spec_parse_summary_data(
                    dv,
                    i as int + 1,
                    fc as int,
                    spec_cols_view(cols@),
                )->Some_0;
                assert(out@.drop_last().map(
                    |k: int, w: WindowSummary| (w.frame, w.cluster_means@),
                ) + (seq![(frame, ws.cluster_means@)] + rest2) =~= out@.map(
                    |k: int, w: WindowSummary| (w.frame, w.cluster_means@),
                ) + rest2);
            }
        }
        i = i + 1;
    }
    proof {
        assert(out@.map(|k: int, w: WindowSummary| (w.frame, w.cluster_means@)) + Seq::<
            (i32, Seq<(i32, Frac)>),
        >::empty() =~= out@.map(|k: int, w: WindowSummary| (w.frame, w.cluster_means@)));
    }
    Ok(out)
}

/// The header of a smoothed table: `frame`, `q_smooth`, then
/// `cluster_<id>_smooth` per cluster id.
pub open spec fn spec_smoothed_header(ids: Seq<i32>) -> Seq<Seq<u8>> {
    seq![spec_frame_label(), spec_q_smooth_label()] + spec_smoothed_cols(ids)
}

/// One smoothed row: frame, smoothed `q`, each cluster's smoothed value
/// (zero when absent).
pub open spec fn spec_smoothed_row(sr: SmoothedResult, ids: Seq<i32>) -> Seq<Seq<u8>> {
    seq![spec_i32_digits(sr.frame), spec_frac_bytes(sr.q_smooth)] + spec_summary_vals(
        sr.cluster_smooth@,
        ids,
    )
}

/// The whole smoothed table.
pub open spec fn spec_smoothed_rows(smoothed: Seq<SmoothedResult>, ids: Seq<i32>) -> Seq<
    Seq<Seq<u8>>,
> {
    seq![spec_smoothed_header(ids)] + smoothed.map(
        |i: int, sr: SmoothedResult| spec_smoothed_row(sr, ids),
    )
}

/// Pushes the `_smooth` suffix.
fn push_smooth_suffix(out: &mut Vec<u8>)
    ensures
        final(out)@ == old(out)@ + spec_smooth_suffix(),
{
    out.push(95);
    out.push(115);
    out.push(109);
    out.push(111);
    out.push(111);
    out.push(116);
    out.push(104);
    proof {
        assert(out@ =~= old(out)@ + spec_smooth_suffix());
    }
}

/// Renders the smoothed table over the given cluster universe.
pub fn render_smoothed_rows(smoothed: &Vec<SmoothedResult>, ids: &Vec<i32>) -> (r: Vec<
    Vec<Vec<u8>>,
>)
    ensures
        spec_rows_view(r@) == spec_smoothed_rows(smoothed@, ids@),
{
    let mut out: Vec<Vec<Vec<u8>>> = Vec::new();
    let nid = ids.len();
    let mut header: Vec<Vec<u8>> = Vec::new();
    header.push(frame_label());
    let mut qs: Vec<u8> = Vec::new();
    qs.push(113);
    push_smooth_suffix(&mut qs);
    proof {
        assert(qs@ =~= spec_q_smooth_label());
    }
    header.push(qs);
    let mut j: usize = 0;
    while j < nid
        invariant
            j <= nid,
            nid == ids@.len(),
            spec_fields_view(header@) == seq![spec_frame_label(), spec_q_smooth_label()]
                + spec_smoothed_cols(ids@.take(j as int)),
        decreases nid - j,
    {
        let mut col: Vec<u8> = Vec::new();
        push_cluster_prefix(&mut col);
        let d = i32_digits(ids[j]);
        let mut d_mut = d;
        col.append(&mut d_mut);
        push_smooth_suffix(&mut col);
        proof {
            assert(col@ =~= spec_cluster_prefix() + spec_i32_digits(ids@[j as int])
                + spec_smooth_suffix());
        }
        let ghost prevh = header@;
        header.push(col);
        proof {
            lemma_fields_view_push(prevh, col);
            assert(seq![spec_frame_label(), spec_q_smooth_label()] + spec_smoothed_cols(
                ids@.take(j as int + 1),
            ) =~= (seq![spec_frame_label(), spec_q_smooth_label()] + spec_smoothed_cols(
                ids@.take(j as int),
            )).push(col@));
        }
        j = j + 1;
    }
    proof {
        assert(ids@.take(nid as int) =~= ids@);
        assert(spec_fields_view(header@) == spec_smoothed_header(ids@));
        assert(spec_rows_view(Seq::<Vec<Vec<u8>>>::empty()) =~= Seq::<Seq<Seq<u8>>>::empty());
    }
    let ghost prev0 = out@;
    out.push(header);
    proof {
        lemma_rows_view_push(prev0, header);
        assert(spec_rows_view(out@) =~~= spec_smoothed_rows(smoothed@.take(0), ids@));
    }
    let n = smoothed.len();
    let mut k: usize = 0;
    while k < n
        invariant
            k <= n,
            n == smoothed@.len(),
            nid == ids@.len(),
            spec_rows_view(out@) == spec_smoothed_rows(smoothed@.take(k as int), ids@),
        decreases n - k,
    {
        let sr = &smoothed[k];
        let mut row: Vec<Vec<u8>> = Vec::new();
        row.push(i32_digits(sr.frame));
        row.push(frac_bytes(&sr.q_smooth));
        let mut j2: usize = 0;
        while j2 < nid
            invariant
                j2 <= nid,
                nid == ids@.len(),
                spec_fields_view(row@) == seq![
                    spec_i32_digits(sr.frame),
                    spec_frac_bytes(sr.q_smooth),
                ] + spec_summary_vals(sr.cluster_smooth@, ids@.take(j2 as int)),
            decreases nid - j2,
        {
            let v = crate::results::filling_of(&sr.cluster_smooth, ids[j2]);
            let fb = frac_bytes(&v);
            let ghost prevr = row@;
            row.push(fb);
            proof {
                lemma_fields_view_push(prevr, fb);
                assert(seq![spec_i32_digits(sr.frame), spec_frac_bytes(sr.q_smooth)]
                    + spec_summary_vals(sr.cluster_smooth@, ids@.take(j2 as int + 1)) =~= (seq![
                    spec_i32_digits(sr.frame),
                    spec_frac_bytes(sr.q_smooth),
                ] + spec_summary_vals(sr.cluster_smooth@, ids@.take(j2 as int))).push(fb@));
            }
            j2 = j2 + 1;
        }
        proof {
            assert(ids@.take(nid as int) =~= ids@);
            assert(spec_fields_view(row@) == spec_smoothed_row(smoothed@[k as int], ids@));
        }
        let ghost prev = out@;
        out.push(row);
        proof {
            lemma_rows_view_push(prev, row);
            assert(spec_smoothed_rows(smoothed@.take(k as int + 1), ids@) =~= spec_smoothed_rows(
                smoothed@.take(k as int),
                ids@,
            ).push(spec_smoothed_row(smoothed@[k as int], ids@)));
        }
        k = k + 1;
    }
    proof {
        assert(smoothed@.take(n as int) =~= smoothed@);
    }
    out
}

/// The record shapes this library's tables always have: every record has
/// at least one field and the first field at least one byte.  CSV text
/// carries such records through unchanged; an empty record would read
/// back as nothing.
pub open spec fn rows_shape_ok(rows: Seq<Seq<Seq<u8>>>) -> bool {
    forall|i: int| 0 <= i < rows.len() ==> (#[trigger] rows[i]).len() > 0 && rows[i][0].len() > 0
}

/// A per-frame table is always of the carried-through shape.
pub proof fn lemma_frame_rows_shape(results: Seq<FrameResult>)
    ensures
        rows_shape_ok(spec_frame_rows(results)),
{
    let rows = spec_frame_rows(results);
    assert forall|i: int| 0 <= i < rows.len() implies (#[trigger] rows[i]).len() > 0
        && rows[i][0].len() > 0 by {
        if i == 0 {
            assert(rows[0] == spec_frame_header());
            assert(rows[0][0].len() == 5);
        } else {
            assert(rows[i] == spec_frame_row(results[i - 1]));
            lemma_i32_digits_shape(results[i - 1].frame);
            assert(rows[i][0] == spec_i32_digits(results[i - 1].frame));
        }
    }
}

/// A window-summary table is always of the carried-through shape.
pub proof fn lemma_summary_rows_shape(summaries: Seq<WindowSummary>, ids: Seq<i32>)
    ensures
        rows_shape_ok(spec_summary_rows(summaries, ids)),
{
    let rows = spec_summary_rows(summaries, ids);
    assert forall|i: int| 0 <= i < rows.len() implies (#[trigger] rows[i]).len() > 0
        && rows[i][0].len() > 0 by {
        if i == 0 {
            assert(rows[0] == spec_summary_header(ids));
            assert(rows[0][0] == spec_frame_label());
        } else {
            assert(rows[i] == spec_summary_row(summaries[i - 1], ids));
            lemma_i32_digits_shape(summaries[i - 1].frame);
            assert(rows[i][0] == spec_i32_digits(summaries[i - 1].frame));
        }
    }
}

/// A smoothed table is always of the carried-through shape.
pub proof fn lemma_smoothed_rows_shape(smoothed: Seq<SmoothedResult>, ids: Seq<i32>)
    ensures
        rows_shape_ok(spec_smoothed_rows(smoothed, ids)),
{
    let rows = spec_smoothed_rows(smoothed, ids);
    assert forall|i: int| 0 <= i < rows.len() implies (#[trigger] rows[i]).len() > 0
        && rows[i][0].len() > 0 by {
        if i == 0 {
            assert(rows[0] == spec_smoothed_header(ids));
            assert(rows[0][0] == spec_frame_label());
        } else {
            assert(rows[i] == spec_smoothed_row(smoothed[i - 1], ids));
            lemma_i32_digits_shape(smoothed[i - 1].frame);
            assert(rows[i][0] == spec_i32_digits(smoothed[i - 1].frame));
        }
    }
}

/// The classification output line: the formation order, comma-separated,
/// with a final newline.
pub open spec fn spec_classification_body(order: Seq<i32>) -> Seq<u8>
    decreases order.len(),
{
    if order.len() == 0 {
        Seq::empty()
    } else if order.len() == 1 {
        spec_i32_digits(order[0])
    } else {
        spec_classification_body(order.drop_last()) + seq![44u8] + spec_i32_digits(order.last())
    }
}

/// The whole classification line.
pub open spec fn spec_classification_line(order: Seq<i32>) -> Seq<u8> {
    spec_classification_body(order) + seq![10u8]
}

/// Renders the formation order as one comma-separated line.
pub fn render_classification(order: &Vec<i32>) -> (r: Vec<u8>)
    ensures
        r@ == spec_classification_line(order@),
{
    let mut out: Vec<u8> = Vec::new();
    let n = order.len();
    let mut k: usize = 0;
    while k < n
        invariant
            k <= n,
            n == order@.len(),
            out@ == spec_classification_body(order@.take(k as int)),
        decreases n - k,
    {
        proof {
            assert(order@.take(k as int + 1).drop_last() =~= order@.take(k as int));
            assert(order@.take(k as int + 1).last() == order@[k as int]);
        }
        if k > 0 {
            out.push(44);
        }
        let d = i32_digits(order[k]);
        let mut d_mut = d;
        out.append(&mut d_mut);
        proof {
            assert(out@ =~= spec_classification_body(order@.take(k as int + 1)));
        }
        k = k + 1;
    }
    out.push(10);
    proof {
        assert(order@.take(n as int) =~= order@);
        assert(out@ =~= spec_classification_line(order@));
    }
    out
}

} // verus!
