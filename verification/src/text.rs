//! Byte-level text primitives: whitespace handling, decimal integers and
//! fixed-point decimal numbers.
//!
//! Every number in the pipeline's text formats is parsed and rendered
//! here, exactly: integers in plain decimal, lengths and multipliers as
//! decimals with at most three fractional digits, held in milli-units.

use vstd::prelude::*;

verus! {

/// ASCII decimal digit.
pub open spec fn is_digit(b: u8) -> bool {
    48 <= b <= 57
}

/// ASCII whitespace, as the trajectory format uses it.
pub open spec fn is_ws(b: u8) -> bool {
    b == 32 || b == 9 || b == 10 || b == 13 || b == 11 || b == 12
}

/// Every byte is a digit and there is at least one.
pub open spec fn all_digits(t: Seq<u8>) -> bool {
    t.len() > 0 && (forall|i: int| 0 <= i < t.len() ==> is_digit(#[trigger] t[i]))
}

/// Every byte is a digit; the empty run is allowed.
pub open spec fn all_digits0(t: Seq<u8>) -> bool {
    forall|i: int| 0 <= i < t.len() ==> is_digit(#[trigger] t[i])
}

/// The value of a digit run, most significant digit first.
pub open spec fn digits_value(t: Seq<u8>) -> int
    decreases t.len(),
{
    if t.len() == 0 {
        0
    } else {
        digits_value(t.drop_last()) * 10 + (t.last() - 48)
    }
}

/// A digit run never has a negative value.
pub proof fn lemma_digits_value_nonneg(t: Seq<u8>)
    requires
        all_digits0(t),
    ensures
        digits_value(t) >= 0,
    decreases t.len(),
{
    if t.len() > 0 {
        assert(forall|i: int| 0 <= i < t.drop_last().len() ==> t.drop_last()[i] == t[i]);
        lemma_digits_value_nonneg(t.drop_last());
    }
}

/// Digits of `n` in decimal, most significant first.
pub open spec fn spec_u64_digits(n: u64) -> Seq<u8>
    decreases n,
{
    if n < 10 {
        seq![(48 + n) as u8]
    } else {
        spec_u64_digits(n / 10) + seq![(48 + n % 10) as u8]
    }
}

/// Rendering is faithful: the digits of `n` are digits and read back as
/// `n`.
pub proof fn lemma_u64_digits_value(n: u64)
    ensures
        all_digits(spec_u64_digits(n)),
        digits_value(spec_u64_digits(n)) == n,
    decreases n,
{
    if n < 10 {
        let t = spec_u64_digits(n);
        assert(t =~= seq![(48 + n) as u8]);
        assert(t.drop_last() =~= Seq::<u8>::empty());
        assert(t.last() == (48 + n) as u8);
        assert(digits_value(t) == digits_value(t.drop_last()) * 10 + (t.last() - 48));
        assert(digits_value(Seq::<u8>::empty()) == 0);
        assert(digits_value(t) == n);
        assert(is_digit(t[0]));
    } else {
        lemma_u64_digits_value(n / 10);
        let t = spec_u64_digits(n);
        let p = spec_u64_digits(n / 10);
        assert(t.drop_last() =~= p);
        assert(t.last() == (48 + n % 10) as u8);
        assert((t.last() - 48) == n % 10);
        assert(digits_value(t) == digits_value(p) * 10 + (n % 10));
        assert(digits_value(p) == n / 10);
        assert(n as int == (n as int / 10) * 10 + (n as int % 10)) by {
            vstd::arithmetic::div_mod::lemma_fundamental_div_mod(n as int, 10);
        }
        assert(forall|i: int| 0 <= i < t.len() - 1 ==> t[i] == p[i]);
    }
}

/// Appends the decimal digits of `n`.
pub fn push_u64_digits(n: u64, out: &mut Vec<u8>)
    ensures
        final(out)@ == old(out)@ + spec_u64_digits(n),
    decreases n,
{
    if n < 10 {
        out.push(48 + n as u8);
        proof {
            assert(out@ =~= old(out)@ + spec_u64_digits(n));
        }
    } else {
        push_u64_digits(n / 10, out);
        out.push(48 + (n % 10) as u8);
        proof {
            assert(out@ =~= old(out)@ + spec_u64_digits(n));
        }
    }
}

/// The decimal digits of `n`.
pub fn u64_digits(n: u64) -> (r: Vec<u8>)
    ensures
        r@ == spec_u64_digits(n),
{
    let mut out: Vec<u8> = Vec::new();
    push_u64_digits(n, &mut out);
    proof {
        assert(out@ =~= spec_u64_digits(n));
    }
    out
}

/// The decimal digits of `v`, minus sign included.
pub open spec fn spec_i32_digits(v: i32) -> Seq<u8> {
    if v < 0 {
        seq![45u8] + spec_u64_digits((-(v as int)) as u64)
    } else {
        spec_u64_digits(v as u64)
    }
}

/// The decimal rendering of `v`, minus sign included.
pub fn i32_digits(v: i32) -> (r: Vec<u8>)
    ensures
        r@ == spec_i32_digits(v),
{
    if v < 0 {
        let mut out: Vec<u8> = Vec::new();
        out.push(45);
        let mag = (-(v as i64)) as u64;
        push_u64_digits(mag, &mut out);
        proof {
            assert(out@ =~= spec_i32_digits(v));
        }
        out
    } else {
        let r = u64_digits(v as u64);
        r
    }
}

/// A whole byte run parsed as a `u64`: all digits, value in range.
pub open spec fn spec_parse_u64(t: Seq<u8>) -> Option<u64> {
    if all_digits(t) && digits_value(t) <= u64::MAX {
        Some(digits_value(t) as u64)
    } else {
        None
    }
}

/// A whole byte run parsed as an `i32` (optional `+`/`-` sign).
pub open spec fn spec_parse_i32(t: Seq<u8>) -> Option<i32> {
    if t.len() == 0 {
        None
    } else {
        let neg = t[0] == 45;
        let d = if t[0] == 45 || t[0] == 43 {
            t.skip(1)
        } else {
            t
        };
        if !all_digits(d) {
            None
        } else if neg {
            if digits_value(d) <= 0x8000_0000 {
                Some((-digits_value(d)) as i32)
            } else {
                None
            }
        } else {
            if digits_value(d) <= 0x7fff_ffff {
                Some(digits_value(d) as i32)
            } else {
                None
            }
        }
    }
}

/// Scans the digit run `[s, e)` of `l`, reading its value saturated just
/// above `cap`; reports a non-digit byte as `None`.
fn scan_digits(l: &Vec<u8>, s: usize, e: usize, cap: u64) -> (r: Option<u128>)
    requires
        s <= e <= l@.len(),
    ensures
        ({
            let d = l@.subrange(s as int, e as int);
            match r {
                None => !all_digits0(d),
                Some(acc) => {
                    &&& all_digits0(d)
                    &&& (digits_value(d) <= cap ==> acc == digits_value(d))
                    &&& (digits_value(d) > cap ==> acc > cap)
                },
            }
        }),
{
    let ghost d = l@.subrange(s as int, e as int);
    let mut acc: u128 = 0;
    let mut k = s;
    proof {
        assert(d.take(0) =~= Seq::<u8>::empty());
    }
    while k < e
        invariant
            s <= k <= e <= l@.len(),
            d == l@.subrange(s as int, e as int),
            all_digits0(d.take(k - s)),
            digits_value(d.take(k - s)) <= cap ==> acc == digits_value(d.take(k - s)),
            digits_value(d.take(k - s)) > cap ==> acc > cap,
            acc <= (cap as u128) * 10 + 9,
        decreases e - k,
    {
        let b = l[k];
        proof {
            assert(d[k - s] == l@[k as int]);
            assert(d.take(k - s + 1).drop_last() =~= d.take(k - s));
            assert(d.take(k - s + 1).last() == d[k - s]);
            lemma_digits_value_nonneg(d.take(k - s));
        }
        if b < 48 || b > 57 {
            return None;
        }
        if acc <= cap as u128 {
            acc = acc * 10 + (b - 48) as u128;
        }
        k = k + 1;
    }
    proof {
        assert(d.take(e - s) =~= d);
    }
    Some(acc)
}

/// Parses `[s, e)` of `l` as an `i32`, exactly as `spec_parse_i32` says.
pub fn parse_i32_range(l: &Vec<u8>, s: usize, e: usize) -> (r: Option<i32>)
    requires
        s <= e <= l@.len(),
    ensures
        r == spec_parse_i32(l@.subrange(s as int, e as int)),
{
    let ghost t = l@.subrange(s as int, e as int);
    if s == e {
        return None;
    }
    let first = l[s];
    let neg = first == 45;
    let ds = if first == 45 || first == 43 {
        s + 1
    } else {
        s
    };
    proof {
        assert(t[0] == l@[s as int]);
        assert(l@.subrange(ds as int, e as int) =~= (if first == 45 || first == 43 {
            t.skip(1)
        } else {
            t
        }));
    }
    if ds == e {
        return None;
    }
    match scan_digits(l, ds, e, 0x8000_0000) {
        None => None,
        Some(acc) => {
            proof {
                lemma_digits_value_nonneg(l@.subrange(ds as int, e as int));
            }
            if neg {
                if acc <= 0x8000_0000u128 {
                    Some((-(acc as i64)) as i32)
                } else {
                    None
                }
            } else {
                if acc <= 0x7fff_ffffu128 {
                    Some(acc as i32)
                } else {
                    None
                }
            }
        },
    }
}

/// Parses a whole vector as an `i32`.
pub fn parse_i32_bytes(l: &Vec<u8>) -> (r: Option<i32>)
    ensures
        r == spec_parse_i32(l@),
{
    let n = l.len();
    let r = parse_i32_range(l, 0, n);
    proof {
        assert(l@.subrange(0, n as int) =~= l@);
    }
    r
}

/// Parses a whole vector as a `u64`.
pub fn parse_u64_bytes(l: &Vec<u8>) -> (r: Option<u64>)
    ensures
        r == spec_parse_u64(l@),
{
    let n = l.len();
    if n == 0 {
        return None;
    }
    match scan_digits(l, 0, n, u64::MAX) {
        None => {
            proof {
                assert(l@.subrange(0, n as int) =~= l@);
            }
            None
        },
        Some(acc) => {
            proof {
                assert(l@.subrange(0, n as int) =~= l@);
                lemma_digits_value_nonneg(l@);
            }
            if acc <= u64::MAX as u128 {
                Some(acc as u64)
            } else {
                None
            }
        },
    }
}

/// First position in `[i, e)` holding a non-whitespace byte (or `e`).
pub open spec fn spec_skip_ws(l: Seq<u8>, i: int, e: int) -> int
    decreases e - i,
{
    if i < e && is_ws(l[i]) {
        spec_skip_ws(l, i + 1, e)
    } else {
        i
    }
}

/// First position in `[i, e)` holding a whitespace byte (or `e`).
pub open spec fn spec_skip_tok(l: Seq<u8>, i: int, e: int) -> int
    decreases e - i,
{
    if i < e && !is_ws(l[i]) {
        spec_skip_tok(l, i + 1, e)
    } else {
        i
    }
}

/// One past the last non-whitespace byte of `[s, e)` (or `s`).
pub open spec fn spec_trim_end(l: Seq<u8>, s: int, e: int) -> int
    decreases e - s,
{
    if e > s && is_ws(l[e - 1]) {
        spec_trim_end(l, s, e - 1)
    } else {
        e
    }
}

/// Walks over leading whitespace.
pub fn skip_ws(l: &Vec<u8>, i: usize, e: usize) -> (r: usize)
    requires
        i <= e <= l@.len(),
    ensures
        r == spec_skip_ws(l@, i as int, e as int),
        i <= r <= e,
{
    let mut k = i;
    while k < e && (l[k] == 32 || l[k] == 9 || l[k] == 10 || l[k] == 13 || l[k] == 11 || l[k] == 12)
        invariant
            i <= k <= e <= l@.len(),
            spec_skip_ws(l@, i as int, e as int) == spec_skip_ws(l@, k as int, e as int),
        decreases e - k,
    {
        k = k + 1;
    }
    k
}

/// Walks over a token up to the next whitespace.
pub fn skip_tok(l: &Vec<u8>, i: usize, e: usize) -> (r: usize)
    requires
        i <= e <= l@.len(),
    ensures
        r == spec_skip_tok(l@, i as int, e as int),
        i <= r <= e,
{
    let mut k = i;
    while k < e && !(l[k] == 32 || l[k] == 9 || l[k] == 10 || l[k] == 13 || l[k] == 11 || l[k]
        == 12)
        invariant
            i <= k <= e <= l@.len(),
            spec_skip_tok(l@, i as int, e as int) == spec_skip_tok(l@, k as int, e as int),
        decreases e - k,
    {
        k = k + 1;
    }
    k
}

/// The whitespace-trimmed bounds of the field `[s, e)`.
pub fn trim_range(l: &Vec<u8>, s: usize, e: usize) -> (r: (usize, usize))
    requires
        s <= e <= l@.len(),
    ensures
        r.0 == spec_skip_ws(l@, s as int, e as int),
        r.1 == spec_trim_end(l@, r.0 as int, e as int),
        s <= r.0 <= r.1 <= e,
{
    let ts = skip_ws(l, s, e);
    let mut k = e;
    while k > ts && (l[k - 1] == 32 || l[k - 1] == 9 || l[k - 1] == 10 || l[k - 1] == 13 || l[k - 1]
        == 11 || l[k - 1] == 12)
        invariant
            ts <= k <= e <= l@.len(),
            spec_trim_end(l@, ts as int, e as int) == spec_trim_end(l@, ts as int, k as int),
        decreases k,
    {
        k = k - 1;
    }
    (ts, k)
}

/// The first `.` of `t` at or after `i`, if any.
pub open spec fn spec_find_dot(t: Seq<u8>, i: int) -> Option<int>
    decreases t.len() - i,
{
    if i < 0 || i >= t.len() {
        None
    } else if t[i] == 46 {
        Some(i)
    } else {
        spec_find_dot(t, i + 1)
    }
}

/// A digit run of at most three digits stays below a thousand.
proof fn lemma_digits_value_small(t: Seq<u8>)
    requires
        all_digits0(t),
        t.len() <= 3,
    ensures
        digits_value(t) <= 999,
        t.len() <= 2 ==> digits_value(t) <= 99,
        t.len() <= 1 ==> digits_value(t) <= 9,
    decreases t.len(),
{
    if t.len() > 0 {
        assert(forall|i: int| 0 <= i < t.drop_last().len() ==> t.drop_last()[i] == t[i]);
        lemma_digits_value_small(t.drop_last());
    }
}

/// The scale of a fractional part of the given length, so that the whole
/// number is in milli-units.
pub open spec fn spec_frac_scale(len: int) -> int {
    if len <= 0 {
        1000
    } else if len == 1 {
        100
    } else if len == 2 {
        10
    } else {
        1
    }
}

/// A whole byte run parsed as a fixed-point decimal in milli-units:
/// optional sign, digits with an optional dot and at most three
/// fractional digits, at least one digit in all, magnitude at most `cap`.
/// Anything else — including exponent forms — is rejected.
pub open spec fn spec_parse_milli(t: Seq<u8>, cap: u64) -> Option<i64> {
    if t.len() == 0 {
        None
    } else {
        let neg = t[0] == 45;
        let d = if t[0] == 45 || t[0] == 43 {
            t.skip(1)
        } else {
            t
        };
        match spec_find_dot(d, 0) {
            None => if all_digits(d) && digits_value(d) * 1000 <= cap {
                if neg {
                    Some((-(digits_value(d) * 1000)) as i64)
                } else {
                    Some((digits_value(d) * 1000) as i64)
                }
            } else {
                None
            },
            Some(p) => {
                let ip = d.take(p);
                let fp = d.skip(p + 1);
                if all_digits0(ip) && all_digits0(fp) && ip.len() + fp.len() >= 1 && fp.len() <= 3 {
                    let v = digits_value(ip) * 1000 + digits_value(fp) * spec_frac_scale(
                        fp.len() as int,
                    );
                    if v <= cap {
                        if neg {
                            Some((-v) as i64)
                        } else {
                            Some(v as i64)
                        }
                    } else {
                        None
                    }
                } else {
                    None
                }
            },
        }
    }
}

/// Parses `[s, e)` of `l` as a fixed-point decimal in milli-units.
pub fn parse_milli_range(l: &Vec<u8>, s: usize, e: usize, cap: u64) -> (r: Option<i64>)
    requires
        s <= e <= l@.len(),
        cap <= 2_000_000_000_000,
    ensures
        r == spec_parse_milli(l@.subrange(s as int, e as int), cap),
        (r matches Some(v) ==> -(cap as int) <= v <= cap as int),
{
    let ghost t = l@.subrange(s as int, e as int);
    if s == e {
        return None;
    }
    let first = l[s];
    let neg = first == 45;
    let ds = if first == 45 || first == 43 {
        s + 1
    } else {
        s
    };
    let ghost d = l@.subrange(ds as int, e as int);
    proof {
        assert(t[0] == l@[s as int]);
        assert(d =~= (if first == 45 || first == 43 {
            t.skip(1)
        } else {
            t
        }));
    }
    // find the first dot of the digit part
    let mut k = ds;
    let mut dot: Option<usize> = None;
    while k < e && dot.is_none()
        invariant
            ds <= k <= e <= l@.len(),
            d == l@.subrange(ds as int, e as int),
            match dot {
                None => spec_find_dot(d, 0) == spec_find_dot(d, k - ds),
                Some(p) => ds <= p < e && spec_find_dot(d, 0) == Some(p - ds),
            },
        decreases e - k, (if dot is None { 1int } else { 0int }),
    {
        proof {
            assert(d[k - s - (ds - s)] == l@[k as int]);
        }
        if l[k] == 46 {
            dot = Some(k);
        } else {
            k = k + 1;
        }
    }
    match dot {
        None => {
            if ds == e {
                return None;
            }
            match scan_digits(l, ds, e, cap) {
                None => None,
                Some(acc) => {
                    proof {
                        lemma_digits_value_nonneg(d);
                    }
                    if acc <= (cap / 1000) as u128 {
                        let v = (acc as u64) * 1000;
                        if neg {
                            Some(-(v as i64))
                        } else {
                            Some(v as i64)
                        }
                    } else {
                        None
                    }
                },
            }
        },
        Some(p) => {
            // fractional part: at most three digits
            if e - (p + 1) > 3 {
                proof {
                    assert(d.skip(p + 1 - ds) =~= l@.subrange(p as int + 1, e as int));
                }
                return None;
            }
            if p == ds && p + 1 == e {
                // a lone dot holds no digit at all
                proof {
                    assert(d.take(p - ds) =~= l@.subrange(ds as int, p as int));
                    assert(d.skip(p + 1 - ds) =~= l@.subrange(p as int + 1, e as int));
                }
                return None;
            }
            let ip_ok = scan_digits(l, ds, p, cap);
            let fp_ok = scan_digits(l, p + 1, e, 1000);
            proof {
                assert(d.take(p - ds) =~= l@.subrange(ds as int, p as int));
                assert(d.skip(p + 1 - ds) =~= l@.subrange(p as int + 1, e as int));
            }
            match (ip_ok, fp_ok) {
                (Some(ia), Some(fa)) => {
                    proof {
                        lemma_digits_value_nonneg(d.take(p - ds));
                        lemma_digits_value_nonneg(d.skip(p + 1 - ds));
                        lemma_digits_value_small(d.skip(p + 1 - ds));
                    }
                    let scale: u64 = if e - (p + 1) == 0 {
                        1000
                    } else if e - (p + 1) == 1 {
                        100
                    } else if e - (p + 1) == 2 {
                        10
                    } else {
                        1
                    };
                    if ia > cap as u128 {
                        return None;
                    }
                    let v = (ia as u64) as u128 * 1000 + (fa as u64 * scale) as u128;
                    if v <= cap as u128 {
                        let vv = v as u64;
                        if neg {
                            Some(-(vv as i64))
                        } else {
                            Some(vv as i64)
                        }
                    } else {
                        None
                    }
                },
                _ => None,
            }
        },
    }
}

/// Rendering a `u64` and reading it back yields the same number.
pub proof fn lemma_u64_round_trip(n: u64)
    ensures
        spec_parse_u64(spec_u64_digits(n)) == Some(n),
{
    lemma_u64_digits_value(n);
}

/// Rendering an `i32` and reading it back yields the same number.
pub proof fn lemma_i32_round_trip(v: i32)
    ensures
        spec_parse_i32(spec_i32_digits(v)) == Some(v),
{
    let t = spec_i32_digits(v);
    if v < 0 {
        let mag = (-(v as int)) as u64;
        lemma_u64_digits_value(mag);
        assert(t[0] == 45);
        assert(t.skip(1) =~= spec_u64_digits(mag));
    } else {
        lemma_u64_digits_value(v as u64);
        assert(t == spec_u64_digits(v as u64));
        assert(t[0] != 45 && t[0] != 43) by {
            lemma_u64_digits_value(v as u64);
            assert(is_digit(t[0]));
        }
    }
}

} // verus!
