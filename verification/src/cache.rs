//! The cache store's snapshot format and freshness rule.
//!
//! A snapshot is one JSON object `{"themes":[...],"timestamp":N}`; it
//! is written as a whole on every successful fetch and read back on
//! every resolution attempt.  A snapshot is stale once it is an hour
//! old; a malformed or stale snapshot reads as "no cache".  The byte
//! format is defined by the `spec` functions here, and the encoder and
//! decoder are proved to follow them exactly.

use vstd::prelude::*;

verus! {

/// Seconds for which a snapshot stays fresh.
pub open spec fn freshness_window() -> int {
    3600
}

/// A snapshot captured at `captured_at` is still fresh at `now`: less
/// than an hour has passed.
pub open spec fn spec_is_fresh(now: u64, captured_at: u64) -> bool {
    now - captured_at < freshness_window()
}

/// Decides freshness; a capture time in the future counts as fresh.
pub fn is_fresh(now: u64, captured_at: u64) -> (r: bool)
    ensures
        r == spec_is_fresh(now, captured_at),
{
    now < captured_at || now - captured_at < 3600
}

// ---------------------------------------------------------------------
// Decimal numbers
// ---------------------------------------------------------------------
/// The value of a run of decimal digit bytes.
pub open spec fn dec_val(s: Seq<u8>) -> nat
    decreases s.len(),
{
    if s.len() == 0 {
        0
    } else {
        dec_val(s.drop_last()) * 10 + (s.last() - 48) as nat
    }
}

/// The decimal digit bytes of a number, most significant first.
pub open spec fn dec_digits(n: nat) -> Seq<u8>
    decreases n,
{
    if n < 10 {
        seq![(48 + n) as u8]
    } else {
        dec_digits(n / 10).push((48 + n % 10) as u8)
    }
}

pub open spec fn pow10(n: nat) -> nat
    decreases n,
{
    if n == 0 {
        1
    } else {
        10 * pow10((n - 1) as nat)
    }
}

/// A run of digits is bounded by ten to its length.
proof fn lemma_dec_val_bound(s: Seq<u8>)
    requires
        forall|p: int| 0 <= p < s.len() ==> 48 <= #[trigger] s[p] <= 57,
    ensures
        dec_val(s) < pow10(s.len()),
    decreases s.len(),
{
    if s.len() > 0 {
        assert(forall|p: int|
            0 <= p < s.drop_last().len() ==> 48 <= #[trigger] s.drop_last()[p] <= 57);
        lemma_dec_val_bound(s.drop_last());
        assert(s.last() <= 57);
    }
}

/// First position at or after `i` that does not hold a digit.
pub open spec fn digits_end(t: Seq<u8>, i: int) -> int
    decreases t.len() - i,
{
    if 0 <= i < t.len() && 48 <= t[i] <= 57 {
        digits_end(t, i + 1)
    } else {
        i
    }
}

fn digits_end_at(t: &[u8], i: usize) -> (r: usize)
    requires
        i <= t@.len(),
    ensures
        r == digits_end(t@, i as int),
        i <= r <= t@.len(),
        forall|k: int| i <= k < r ==> 48 <= #[trigger] t@[k] <= 57,
    decreases t@.len() - i,
{
    if i < t.len() && 48 <= t[i] && t[i] <= 57 {
        digits_end_at(t, i + 1)
    } else {
        i
    }
}

/// Reads the value of the digit run `t[k..e]`, which must be short
/// enough to fit.
fn read_u64(t: &[u8], k: usize, e: usize) -> (r: u64)
    requires
        k <= e <= t@.len(),
        e - k <= 18,
        forall|p: int| k <= p < e ==> 48 <= #[trigger] t@[p] <= 57,
    ensures
        r as nat == dec_val(t@.subrange(k as int, e as int)),
{
    proof {
        lemma_pow10_18();
    }
    let mut acc: u64 = 0;
    let mut i = k;
    while i < e
        invariant
            k <= i <= e <= t@.len(),
            e - k <= 18,
            forall|p: int| k <= p < e ==> 48 <= #[trigger] t@[p] <= 57,
            acc as nat == dec_val(t@.subrange(k as int, i as int)),
            acc < pow10((i - k) as nat),
            pow10(18) == 1000000000000000000,
        decreases e - i,
    {
        proof {
            lemma_pow10_increases((i - k) as nat + 1, 18);
            assert(t@.subrange(k as int, i as int + 1).drop_last() =~= t@.subrange(
                k as int,
                i as int,
            ));
            assert(t@.subrange(k as int, i as int + 1).last() == t@[i as int]);
        }
        acc = acc * 10 + (t[i] - 48) as u64;
        i = i + 1;
    }
    proof {
        assert(t@.subrange(k as int, e as int) =~= t@.subrange(k as int, i as int));
    }
    acc
}

proof fn lemma_pow10_18()
    ensures
        pow10(18) == 1000000000000000000,
{
    reveal_with_fuel(pow10, 20);
}

/// Ten to a power does not shrink as the power grows.
proof fn lemma_pow10_increases(a: nat, b: nat)
    requires
        a <= b,
    ensures
        pow10(a) <= pow10(b),
    decreases b,
{
    if a < b {
        lemma_pow10_increases(a, (b - 1) as nat);
    }
}

/// Appends the decimal digits of `n`.
fn push_digits(out: &mut Vec<u8>, n: u64)
    ensures
        final(out)@ == old(out)@ + dec_digits(n as nat),
    decreases n,
{
    if n < 10 {
        out.push(48 + n as u8);
        proof {
            assert(out@ =~= old(out)@ + dec_digits(n as nat));
        }
    } else {
        push_digits(out, n / 10);
        out.push(48 + (n % 10) as u8);
        proof {
            assert(out@ =~= old(out)@ + dec_digits(n as nat));
        }
    }
}

// ---------------------------------------------------------------------
// The snapshot format
// ---------------------------------------------------------------------
/// The opening of a snapshot: `{"themes":[`.
pub open spec fn cache_prefix() -> Seq<u8> {
    seq![123u8, 34u8, 116u8, 104u8, 101u8, 109u8, 101u8, 115u8, 34u8, 58u8, 91u8]
}

/// Between the list and the stamp: `,"timestamp":`.
pub open spec fn cache_mid() -> Seq<u8> {
    seq![44u8, 34u8, 116u8, 105u8, 109u8, 101u8, 115u8, 116u8, 97u8, 109u8, 112u8, 34u8, 58u8]
}

/// A name with quotes and backslashes escaped.
pub open spec fn json_escape(s: Seq<u8>) -> Seq<u8>
    decreases s.len(),
{
    if s.len() == 0 {
        Seq::empty()
    } else {
        json_escape(s.drop_last()) + (if s.last() == 34 || s.last() == 92 {
            seq![92u8, s.last()]
        } else {
            seq![s.last()]
        })
    }
}

/// The rendered name list, comma separated, each name quoted.
pub open spec fn render_names(ts: Seq<Seq<u8>>) -> Seq<u8>
    decreases ts.len(),
{
    if ts.len() == 0 {
        Seq::empty()
    } else if ts.len() == 1 {
        seq![34u8] + json_escape(ts[0]) + seq![34u8]
    } else {
        render_names(ts.drop_last()) + seq![44u8, 34u8] + json_escape(ts.last()) + seq![34u8]
    }
}

/// The full snapshot text for a theme list captured at `ts`.
pub open spec fn spec_encode_cache(themes: Seq<Seq<u8>>, ts: u64) -> Seq<u8> {
    cache_prefix() + render_names(themes) + seq![93u8] + cache_mid() + dec_digits(ts as nat)
        + seq![125u8]
}

/// Serializes a snapshot: exactly `spec_encode_cache`.
pub fn encode_cache(themes: &Vec<Vec<u8>>, timestamp: u64) -> (r: Vec<u8>)
    ensures
        r@ == spec_encode_cache(themes.deep_view(), timestamp),
{
    let mut out: Vec<u8> = Vec::new();
    out.push(123);
    out.push(34);
    out.push(116);
    out.push(104);
    out.push(101);
    out.push(109);
    out.push(101);
    out.push(115);
    out.push(34);
    out.push(58);
    out.push(91);
    proof {
        assert(out@ =~= cache_prefix());
    }
    let mut i: usize = 0;
    while i < themes.len()
        invariant
            i <= themes.len(),
            out@ == cache_prefix() + render_names(themes.deep_view().subrange(0, i as int)),
        decreases themes.len() - i,
    {
        if i > 0 {
            out.push(44);
        }
        out.push(34);
        push_escaped(&mut out, vstd::slice::slice_index_get(themes.as_slice(), i).as_slice());
        out.push(34);
        proof {
            let dv = themes.deep_view();
            assert(dv[i as int] =~= themes@[i as int]@);
            let pre = dv.subrange(0, i as int);
            let post = dv.subrange(0, i as int + 1);
            assert(post.drop_last() =~= pre);
            assert(post.last() == dv[i as int]);
            assert(out@ =~= cache_prefix() + render_names(post));
        }
        i = i + 1;
    }
    proof {
        assert(themes.deep_view().subrange(0, themes.len() as int) =~= themes.deep_view());
    }
    out.push(93);
    out.push(44);
    out.push(34);
    out.push(116);
    out.push(105);
    out.push(109);
    out.push(101);
    out.push(115);
    out.push(116);
    out.push(97);
    out.push(109);
    out.push(112);
    out.push(34);
    out.push(58);
    proof {
        assert(out@ =~= cache_prefix() + render_names(themes.deep_view()) + seq![93u8]
            + cache_mid());
    }
    push_digits(&mut out, timestamp);
    out.push(125);
    proof {
        assert(out@ =~= spec_encode_cache(themes.deep_view(), timestamp));
    }
    out
}

/// Appends one name with its escapes.
fn push_escaped(out: &mut Vec<u8>, name: &[u8])
    ensures
        final(out)@ == old(out)@ + json_escape(name@),
{
    let mut i: usize = 0;
    while i < name.len()
        invariant
            i <= name@.len(),
            out@ == old(out)@ + json_escape(name@.subrange(0, i as int)),
        decreases name@.len() - i,
    {
        let b = name[i];
        if b == 34 || b == 92 {
            out.push(92);
        }
        out.push(b);
        proof {
            let pre = name@.subrange(0, i as int);
            let post = name@.subrange(0, i as int + 1);
            assert(post.drop_last() =~= pre);
            assert(post.last() == name@[i as int]);
            assert(out@ =~= old(out)@ + json_escape(post));
        }
        i = i + 1;
    }
    proof {
        assert(name@.subrange(0, name@.len() as int) =~= name@);
    }
}

// ---------------------------------------------------------------------
// Decoding
// ---------------------------------------------------------------------
/// The literal `lit` stands at `i` in `t`.
pub open spec fn has_at(t: Seq<u8>, i: int, lit: Seq<u8>) -> bool {
    0 <= i && i + lit.len() <= t.len() && t.subrange(i, i + lit.len()) == lit
}

fn match_lit(t: &[u8], i: usize, lit: &[u8]) -> (r: bool)
    requires
        i <= t@.len(),
    ensures
        r == has_at(t@, i as int, lit@),
{
    if t.len() - i < lit.len() {
        return false;
    }
    let mut k: usize = 0;
    while k < lit.len()
        invariant
            k <= lit@.len(),
            i + lit@.len() <= t@.len(),
            t@.len() <= usize::MAX,
            forall|p: int| 0 <= p < k ==> t@[i + p] == lit@[p],
        decreases lit@.len() - k,
    {
        if t[i + k] != lit[k] {
            proof {
                assert(t@.subrange(i as int, i + lit@.len())[k as int] == t@[i + k]);
            }
            return false;
        }
        k = k + 1;
    }
    proof {
        assert(t@.subrange(i as int, i + lit@.len()) =~= lit@);
    }
    true
}

/// The body of a quoted string from `i` (just past the opening quote):
/// the bytes up to the closing quote, a backslash taking the next byte
/// verbatim.  Returns the content and the position past the closing
/// quote.
pub open spec fn str_body(t: Seq<u8>, i: int) -> Option<(Seq<u8>, int)>
    decreases t.len() - i,
{
    if !(0 <= i < t.len()) {
        None
    } else if t[i] == 34 {
        Some((Seq::empty(), i + 1))
    } else if t[i] == 92 {
        if i + 1 < t.len() {
            match str_body(t, i + 2) {
                None => None,
                Some((s, j)) => Some((seq![t[i + 1]] + s, j)),
            }
        } else {
            None
        }
    } else {
        match str_body(t, i + 1) {
            None => None,
            Some((s, j)) => Some((seq![t[i]] + s, j)),
        }
    }
}

fn str_body_at(t: &[u8], i: usize) -> (r: Option<(Vec<u8>, usize)>)
    requires
        i <= t@.len(),
    ensures
        match r {
            None => str_body(t@, i as int) is None,
            Some((s, j)) => str_body(t@, i as int) == Some((s@, j as int)) && i < j <= t@.len(),
        },
    decreases t@.len() - i,
{
    if i >= t.len() {
        None
    } else if t[i] == 34 {
        Some((Vec::new(), i + 1))
    } else if t[i] == 92 {
        if i + 1 < t.len() {
            match str_body_at(t, i + 2) {
                None => None,
                Some((mut s, j)) => {
                    let ghost gs = s@;
                    s.insert(0, t[i + 1]);
                    proof {
                        assert(s@ =~= seq![t@[i as int + 1]] + gs);
                    }
                    Some((s, j))
                },
            }
        } else {
            None
        }
    } else {
        match str_body_at(t, i + 1) {
            None => None,
            Some((mut s, j)) => {
                let ghost gs = s@;
                s.insert(0, t[i]);
                proof {
                    assert(s@ =~= seq![t@[i as int]] + gs);
                }
                Some((s, j))
            },
        }
    }
}

/// A non-empty name list from `i`: quoted strings separated by commas,
/// closed by `]`.  Returns the names and the position past the `]`.
pub open spec fn names_rest(t: Seq<u8>, i: int) -> Option<(Seq<Seq<u8>>, int)>
    decreases t.len() - i,
{
    if !(0 <= i < t.len() && t[i] == 34) {
        None
    } else {
        match str_body(t, i + 1) {
            None => None,
            Some((s, j)) => if !(i < j) {
                None
            } else if j < t.len() && t[j] == 44 {
                match names_rest(t, j + 1) {
                    None => None,
                    Some((rest, m)) => Some((seq![s] + rest, m)),
                }
            } else if j < t.len() && t[j] == 93 {
                Some((seq![s], j + 1))
            } else {
                None
            },
        }
    }
}

fn names_rest_at(t: &[u8], i: usize) -> (r: Option<(Vec<Vec<u8>>, usize)>)
    requires
        i <= t@.len(),
    ensures
        match r {
            None => names_rest(t@, i as int) is None,
            Some((ns, m)) => names_rest(t@, i as int) == Some((ns.deep_view(), m as int)) && i < m
                <= t@.len(),
        },
    decreases t@.len() - i,
{
    if i >= t.len() || t[i] != 34 {
        return None;
    }
    match str_body_at(t, i + 1) {
        None => None,
        Some((s, j)) => {
            if j < t.len() && t[j] == 44 {
                match names_rest_at(t, j + 1) {
                    None => None,
                    Some((mut ns, m)) => {
                        let ghost gs = s@;
                        let ghost gns = ns.deep_view();
                        ns.insert(0, s);
                        proof {
                            assert(ns.deep_view() =~~= seq![gs] + gns);
                        }
                        Some((ns, m))
                    },
                }
            } else if j < t.len() && t[j] == 93 {
                let mut ns: Vec<Vec<u8>> = Vec::new();
                let ghost gs = s@;
                ns.push(s);
                proof {
                    assert(ns.deep_view() =~~= seq![gs]);
                }
                Some((ns, j + 1))
            } else {
                None
            }
        },
    }
}

/// What a snapshot text means: the theme names and the capture time,
/// or nothing when the text is not exactly a snapshot.
pub open spec fn spec_decode_cache(t: Seq<u8>) -> Option<(Seq<Seq<u8>>, u64)> {
    if !has_at(t, 0, cache_prefix()) {
        None
    } else {
        let i = cache_prefix().len() as int;
        let after: Option<(Seq<Seq<u8>>, int)> = if i < t.len() && t[i] == 93 {
            Some((Seq::empty(), i + 1))
        } else {
            names_rest(t, i)
        };
        match after {
            None => None,
            Some((names, j)) => if !has_at(t, j, cache_mid()) {
                None
            } else {
                let k = j + cache_mid().len();
                let e = digits_end(t, k);
                if !(k < e && e - k <= 18 && e < t.len() && t[e] == 125 && e + 1 == t.len()) {
                    None
                } else {
                    Some((names, dec_val(t.subrange(k, e)) as u64))
                }
            },
        }
    }
}

/// Parses a snapshot text.  Succeeds exactly when `spec_decode_cache`
/// accepts it, and then returns exactly the names and capture time it
/// denotes.
pub fn decode_cache(t: &[u8]) -> (r: Option<(Vec<Vec<u8>>, u64)>)
    ensures
        match r {
            None => spec_decode_cache(t@) is None,
            Some((names, ts)) => spec_decode_cache(t@) == Some((names.deep_view(), ts)),
        },
{
    let prefix: [u8; 11] = [123, 34, 116, 104, 101, 109, 101, 115, 34, 58, 91];
    proof {
        assert(prefix@ =~= cache_prefix());
    }
    if !match_lit(t, 0, prefix.as_slice()) {
        return None;
    }
    let i: usize = 11;
    let after: Option<(Vec<Vec<u8>>, usize)> = if i < t.len() && t[i] == 93 {
        Some((Vec::new(), i + 1))
    } else {
        names_rest_at(t, i)
    };
    match after {
        None => None,
        Some((names, j)) => {
            proof {
                if i < t@.len() && t@[i as int] == 93 {
                    assert(names.deep_view() =~~= Seq::<Seq<u8>>::empty());
                }
            }
            let mid: [u8; 13] = [44, 34, 116, 105, 109, 101, 115, 116, 97, 109, 112, 34, 58];
            proof {
                assert(mid@ =~= cache_mid());
            }
            if !match_lit(t, j, mid.as_slice()) {
                return None;
            }
            let k = j + 13;
            let e = digits_end_at(t, k);
            if !(k < e && e - k <= 18 && e < t.len() && t[e] == 125 && e + 1 == t.len()) {
                return None;
            }
            let v = read_u64(t, k, e);
            proof {
                let sub = t@.subrange(k as int, e as int);
                assert(forall|p: int| 0 <= p < sub.len() ==> 48 <= #[trigger] sub[p] <= 57);
                lemma_dec_val_bound(sub);
                lemma_pow10_increases((e - k) as nat, 18);
                lemma_pow10_18();
            }
            Some((names, v))
        },
    }
}

/// The cache store's read: the themes of a snapshot text that parses
/// and is still fresh, and nothing otherwise — absence, malformation
/// and staleness all read as "no cache".
pub fn cache_lookup(content: Option<&Vec<u8>>, now: u64) -> (r: Option<Vec<Vec<u8>>>)
    ensures
        match r {
            Some(names) => content matches Some(c) && spec_decode_cache(c@) matches Some(p)
                && p.0 == names.deep_view() && spec_is_fresh(now, p.1),
            None => match content {
                None => true,
                Some(c) => match spec_decode_cache(c@) {
                    None => true,
                    Some(p) => !spec_is_fresh(now, p.1),
                },
            },
        },
{
    match content {
        None => None,
        Some(c) => match decode_cache(c.as_slice()) {
            None => None,
            Some((names, ts)) => {
                if is_fresh(now, ts) {
                    Some(names)
                } else {
                    None
                }
            },
        },
    }
}

} // verus!
