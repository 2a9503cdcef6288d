//! Decoding of the remote directory listing.
//!
//! The listing endpoint answers with a JSON array of objects; each
//! object describes one remote file by, at least, a `name` and a
//! `download_url` member.  Only those two members are read; every other
//! member, whatever its shape, is skipped over.  An entry without a
//! usable string for either member is dropped, as is an entry whose
//! name does not end in the catalog's document file extension — only a
//! malformed listing as a whole is an error, which is fatal to a fetch.
//!
//! The accepted texts and their meaning are defined by the `spec`
//! functions here; the executable decoder is proved to follow them.

use vstd::prelude::*;

use crate::document::skip_trivia;

verus! {

/// A malformed directory listing: the typed failure of `parse_listing`.
#[derive(Debug, Clone, Copy, PartialEq, Eq, Structural)]
pub struct ListingError;

/// One usable remote file: its name and where to download it.
pub struct RemoteFile {
    pub name: Vec<u8>,
    pub download_url: Vec<u8>,
}

impl View for RemoteFile {
    type V = (Seq<u8>, Seq<u8>);

    open spec fn view(&self) -> (Seq<u8>, Seq<u8>) {
        (self.name@, self.download_url@)
    }
}

impl DeepView for RemoteFile {
    type V = (Seq<u8>, Seq<u8>);

    open spec fn deep_view(&self) -> (Seq<u8>, Seq<u8>) {
        self.view()
    }
}

/// The document file extension that marks a theme definition.
pub open spec fn kdl_suffix() -> Seq<u8> {
    seq![46u8, 107u8, 100u8, 108u8]
}

/// `s` ends with `suffix`.
pub open spec fn spec_ends_with(s: Seq<u8>, suffix: Seq<u8>) -> bool {
    s.len() >= suffix.len() && s.subrange(s.len() - suffix.len(), s.len() as int) == suffix
}

/// Decides whether a name ends with a suffix.
pub fn ends_with(s: &[u8], suffix: &[u8]) -> (r: bool)
    ensures
        r == spec_ends_with(s@, suffix@),
{
    if s.len() < suffix.len() {
        return false;
    }
    let off = s.len() - suffix.len();
    let mut k: usize = 0;
    while k < suffix.len()
        invariant
            k <= suffix@.len(),
            off == s@.len() - suffix@.len(),
            s@.len() <= usize::MAX,
            forall|p: int| 0 <= p < k ==> s@[off + p] == suffix@[p],
        decreases suffix@.len() - k,
    {
        if s[off + k] != suffix[k] {
            proof {
                assert(s@.subrange(off as int, s@.len() as int)[k as int] == s@[off + k]);
            }
            return false;
        }
        k = k + 1;
    }
    proof {
        assert(s@.subrange(off as int, s@.len() as int) =~= suffix@);
    }
    true
}

/// A string value free of escapes, usable as a name or address.
pub open spec fn no_backslash(s: Seq<u8>) -> bool {
    forall|k: int| 0 <= k < s.len() ==> s[k] != 92
}

fn check_no_backslash(s: &[u8]) -> (r: bool)
    ensures
        r == no_backslash(s@),
{
    let mut k: usize = 0;
    while k < s.len()
        invariant
            k <= s@.len(),
            forall|p: int| 0 <= p < k ==> s@[p] != 92,
        decreases s@.len() - k,
    {
        if s[k] == 92 {
            return false;
        }
        k = k + 1;
    }
    true
}

// ---------------------------------------------------------------------
// Scanners
// ---------------------------------------------------------------------
/// The raw content of a JSON string from `i` (just past the opening
/// quote), escape pairs kept verbatim, and the position past the
/// closing quote.
pub open spec fn jstr_raw(t: Seq<u8>, i: int) -> Option<(Seq<u8>, int)>
    decreases t.len() - i,
{
    if !(0 <= i < t.len()) {
        None
    } else if t[i] == 34 {
        Some((Seq::empty(), i + 1))
    } else if t[i] == 92 {
        if i + 1 < t.len() {
            match jstr_raw(t, i + 2) {
                None => None,
                Some((s, j)) => Some((seq![t[i], t[i + 1]] + s, j)),
            }
        } else {
            None
        }
    } else {
        match jstr_raw(t, i + 1) {
            None => None,
            Some((s, j)) => Some((seq![t[i]] + s, j)),
        }
    }
}

fn jstr_raw_at(t: &[u8], i: usize) -> (r: Option<(Vec<u8>, usize)>)
    requires
        i <= t@.len(),
    ensures
        match r {
            None => jstr_raw(t@, i as int) is None,
            Some((s, j)) => jstr_raw(t@, i as int) == Some((s@, j as int)) && i < j <= t@.len(),
        },
    decreases t@.len() - i,
{
    if i >= t.len() {
        None
    } else if t[i] == 34 {
        Some((Vec::new(), i + 1))
    } else if t[i] == 92 {
        if i + 1 < t.len() {
            match jstr_raw_at(t, i + 2) {
                None => None,
                Some((mut s, j)) => {
                    let ghost gs = s@;
                    s.insert(0, t[i + 1]);
                    s.insert(0, t[i]);
                    proof {
                        assert(s@ =~= seq![t@[i as int], t@[i as int + 1]] + gs);
                    }
                    Some((s, j))
                },
            }
        } else {
            None
        }
    } else {
        match jstr_raw_at(t, i + 1) {
            None => None,
            Some((mut s, j)) => {
                let ghost gs = s@;
                s.insert(0, t[i]);
                proof {
                    assert(s@ =~= seq![t@[i as int]] + gs);
                }
                Some((s, j))
            },
        }
    }
}

/// The position just past the bracket that closes `depth` open
/// brackets, braces and square brackets counted together and strings
/// skipped whole.
pub open spec fn balanced_end(t: Seq<u8>, i: int, depth: int) -> Option<int>
    decreases t.len() - i,
{
    if !(0 <= i < t.len()) {
        None
    } else if t[i] == 34 {
        match jstr_raw(t, i + 1) {
            None => None,
            Some((_, j)) => if j <= i || j > t.len() {
                None
            } else {
                balanced_end(t, j, depth)
            },
        }
    } else if t[i] == 123 || t[i] == 91 {
        balanced_end(t, i + 1, depth + 1)
    } else if t[i] == 125 || t[i] == 93 {
        if depth == 1 {
            Some(i + 1)
        } else {
            balanced_end(t, i + 1, depth - 1)
        }
    } else {
        balanced_end(t, i + 1, depth)
    }
}

fn balanced_end_at(t: &[u8], i: usize, depth: usize) -> (r: Option<usize>)
    requires
        i <= t@.len(),
        1 <= depth <= i,
    ensures
        match r {
            Some(e) => balanced_end(t@, i as int, depth as int) == Some(e as int) && i < e
                <= t@.len(),
            None => balanced_end(t@, i as int, depth as int) is None,
        },
    decreases t@.len() - i,
{
    if i >= t.len() {
        None
    } else if t[i] == 34 {
        match jstr_raw_at(t, i + 1) {
            None => None,
            Some((_, j)) => balanced_end_at(t, j, depth),
        }
    } else if t[i] == 123 || t[i] == 91 {
        balanced_end_at(t, i + 1, depth + 1)
    } else if t[i] == 125 || t[i] == 93 {
        if depth == 1 {
            Some(i + 1)
        } else {
            balanced_end_at(t, i + 1, depth - 1)
        }
    } else {
        balanced_end_at(t, i + 1, depth)
    }
}

/// The end of a bare atom: a number, `true`, `false` or `null`, read
/// as the run up to the next delimiter.
pub open spec fn atom_end(t: Seq<u8>, i: int) -> int
    decreases t.len() - i,
{
    if 0 <= i < t.len() && !(t[i] == 44 || t[i] == 125 || t[i] == 93 || t[i] == 32 || t[i] == 9
        || t[i] == 10 || t[i] == 13) {
        atom_end(t, i + 1)
    } else {
        i
    }
}

fn atom_end_at(t: &[u8], i: usize) -> (r: usize)
    requires
        i <= t@.len(),
    ensures
        r == atom_end(t@, i as int),
        i <= r <= t@.len(),
    decreases t@.len() - i,
{
    if i < t.len() && !(t[i] == 44 || t[i] == 125 || t[i] == 93 || t[i] == 32 || t[i] == 9 || t[i]
        == 10 || t[i] == 13) {
        atom_end_at(t, i + 1)
    } else {
        i
    }
}

fn skip_ws_at(t: &[u8], i: usize) -> (r: usize)
    requires
        i <= t@.len(),
    ensures
        r == skip_trivia(t@, i as int),
        i <= r <= t@.len(),
    decreases t@.len() - i,
{
    if i < t.len() && (t[i] == 32 || t[i] == 9 || t[i] == 10 || t[i] == 13) {
        skip_ws_at(t, i + 1)
    } else {
        i
    }
}

// ---------------------------------------------------------------------
// Members and objects
// ---------------------------------------------------------------------
/// The member key `name`.
pub open spec fn name_key() -> Seq<u8> {
    seq![110u8, 97u8, 109u8, 101u8]
}

/// The member key `download_url`.
pub open spec fn url_key() -> Seq<u8> {
    seq![100u8, 111u8, 119u8, 110u8, 108u8, 111u8, 97u8, 100u8, 95u8, 117u8, 114u8, 108u8]
}

/// One member from `i` (at its opening quote): its key, its value when
/// that value is a string, and the position past the value.
pub open spec fn parse_member(t: Seq<u8>, i: int) -> Option<((Seq<u8>, Option<Seq<u8>>), int)> {
    if !(0 <= i < t.len() && t[i] == 34) {
        None
    } else {
        match jstr_raw(t, i + 1) {
            None => None,
            Some((key, j)) => {
                let c = skip_trivia(t, j);
                if !(j <= c < t.len() && t[c] == 58) {
                    None
                } else {
                    let v = skip_trivia(t, c + 1);
                    if !(c < v < t.len()) {
                        None
                    } else if t[v] == 34 {
                        match jstr_raw(t, v + 1) {
                            None => None,
                            Some((sv, e)) => Some(((key, Some(sv)), e)),
                        }
                    } else if t[v] == 123 || t[v] == 91 {
                        match balanced_end(t, v + 1, 1) {
                            None => None,
                            Some(e) => Some(((key, None), e)),
                        }
                    } else {
                        let e = atom_end(t, v);
                        if e <= v {
                            None
                        } else {
                            Some(((key, None), e))
                        }
                    }
                }
            },
        }
    }
}

fn parse_member_at(t: &[u8], i: usize) -> (r: Option<((Vec<u8>, Option<Vec<u8>>), usize)>)
    requires
        i <= t@.len(),
    ensures
        match r {
            None => parse_member(t@, i as int) is None,
            Some(((key, sv), e)) => parse_member(t@, i as int) == Some(
                (
                    (
                        key@,
                        match sv {
                            Some(v) => Some(v@),
                            None => None,
                        },
                    ),
                    e as int,
                ),
            ) && i < e <= t@.len(),
        },
{
    if i >= t.len() || t[i] != 34 {
        return None;
    }
    match jstr_raw_at(t, i + 1) {
        None => None,
        Some((key, j)) => {
            let c = skip_ws_at(t, j);
            if !(c < t.len() && t[c] == 58) {
                return None;
            }
            let v = skip_ws_at(t, c + 1);
            if !(v < t.len()) {
                return None;
            }
            if t[v] == 34 {
                match jstr_raw_at(t, v + 1) {
                    None => None,
                    Some((sv, e)) => Some(((key, Some(sv)), e)),
                }
            } else if t[v] == 123 || t[v] == 91 {
                match balanced_end_at(t, v + 1, 1) {
                    None => None,
                    Some(e) => Some(((key, None), e)),
                }
            } else {
                let e = atom_end_at(t, v);
                if e <= v {
                    None
                } else {
                    Some(((key, None), e))
                }
            }
        },
    }
}

/// The members of an object from `i` (at the first member's quote),
/// folded into the `name` and `download_url` values; the first
/// occurrence of a key wins.  Returns the position past the `}`.
pub open spec fn parse_members(t: Seq<u8>, i: int) -> Option<
    ((Option<Seq<u8>>, Option<Seq<u8>>), int),
>
    decreases t.len() - i,
{
    match parse_member(t, i) {
        None => None,
        Some(((key, sv), e)) => if e <= i || e > t.len() {
            None
        } else {
            let c = skip_trivia(t, e);
            let own: (Option<Seq<u8>>, Option<Seq<u8>>) = (
                if key == name_key() {
                    sv
                } else {
                    None
                },
                if key == url_key() {
                    sv
                } else {
                    None
                },
            );
            if c < t.len() && t[c] == 44 {
                let n = skip_trivia(t, c + 1);
                if n <= i || n > t.len() {
                    None
                } else {
                    match parse_members(t, n) {
                        None => None,
                        Some(((rn, ru), m)) => Some(
                            (
                                (
                                    match own.0 {
                                        Some(x) => Some(x),
                                        None => rn,
                                    },
                                    match own.1 {
                                        Some(x) => Some(x),
                                        None => ru,
                                    },
                                ),
                                m,
                            ),
                        ),
                    }
                }
            } else if c < t.len() && t[c] == 125 {
                Some((own, c + 1))
            } else {
                None
            }
        },
    }
}

fn parse_members_at(t: &[u8], i: usize) -> (r: Option<((Option<Vec<u8>>, Option<Vec<u8>>), usize)>)
    requires
        i <= t@.len(),
    ensures
        match r {
            None => parse_members(t@, i as int) is None,
            Some(((n, u), m)) => parse_members(t@, i as int) == Some(
                (
                    (
                        match n {
                            Some(x) => Some(x@),
                            None => None,
                        },
                        match u {
                            Some(x) => Some(x@),
                            None => None,
                        },
                    ),
                    m as int,
                ),
            ) && i < m <= t@.len(),
        },
    decreases t@.len() - i,
{
    let name_lit: [u8; 4] = [110, 97, 109, 101];
    let url_lit: [u8; 12] = [100, 111, 119, 110, 108, 111, 97, 100, 95, 117, 114, 108];
    proof {
        assert(name_lit@ =~= name_key());
        assert(url_lit@ =~= url_key());
    }
    match parse_member_at(t, i) {
        None => None,
        Some(((key, sv), e)) => {
            let is_name = crate::document::bytes_eq(key.as_slice(), name_lit.as_slice());
            let is_url = crate::document::bytes_eq(key.as_slice(), url_lit.as_slice());
            let (own_n, own_u): (Option<Vec<u8>>, Option<Vec<u8>>) = if is_name {
                (sv, None)
            } else if is_url {
                (None, sv)
            } else {
                (None, None)
            };
            let c = skip_ws_at(t, e);
            if c < t.len() && t[c] == 44 {
                let n2 = skip_ws_at(t, c + 1);
                match parse_members_at(t, n2) {
                    None => None,
                    Some(((rn, ru), m)) => {
                        let outn = match own_n {
                            Some(x) => Some(x),
                            None => rn,
                        };
                        let outu = match own_u {
                            Some(x) => Some(x),
                            None => ru,
                        };
                        Some(((outn, outu), m))
                    },
                }
            } else if c < t.len() && t[c] == 125 {
                Some(((own_n, own_u), c + 1))
            } else {
                None
            }
        },
    }
}

/// One listing object from `i` (at its `{`): its `name` and
/// `download_url` string values, and the position past its `}`.
pub open spec fn parse_object(t: Seq<u8>, i: int) -> Option<
    ((Option<Seq<u8>>, Option<Seq<u8>>), int),
> {
    if !(0 <= i < t.len() && t[i] == 123) {
        None
    } else {
        let j = skip_trivia(t, i + 1);
        if j < t.len() && t[j] == 125 {
            Some(((None, None), j + 1))
        } else {
            parse_members(t, j)
        }
    }
}

fn parse_object_at(t: &[u8], i: usize) -> (r: Option<((Option<Vec<u8>>, Option<Vec<u8>>), usize)>)
    requires
        i <= t@.len(),
    ensures
        match r {
            None => parse_object(t@, i as int) is None,
            Some(((n, u), m)) => parse_object(t@, i as int) == Some(
                (
                    (
                        match n {
                            Some(x) => Some(x@),
                            None => None,
                        },
                        match u {
                            Some(x) => Some(x@),
                            None => None,
                        },
                    ),
                    m as int,
                ),
            ) && i < m <= t@.len(),
        },
{
    if !(i < t.len() && t[i] == 123) {
        return None;
    }
    let j = skip_ws_at(t, i + 1);
    if j < t.len() && t[j] == 125 {
        Some(((None, None), j + 1))
    } else {
        parse_members_at(t, j)
    }
}

// ---------------------------------------------------------------------
// The listing
// ---------------------------------------------------------------------
/// An object's usable catalog entry: present when both members carry
/// escape-free strings and the name ends in the document extension.
pub open spec fn entry_of(n: Option<Seq<u8>>, u: Option<Seq<u8>>) -> Seq<(Seq<u8>, Seq<u8>)> {
    match (n, u) {
        (Some(nm), Some(url)) => if no_backslash(nm) && no_backslash(url) && spec_ends_with(
            nm,
            kdl_suffix(),
        ) {
            seq![(nm, url)]
        } else {
            Seq::empty()
        },
        _ => Seq::empty(),
    }
}

/// The usable entries of the objects from `i` (at the first object's
/// `{`), and the position past the listing's `]`.
pub open spec fn parse_entries(t: Seq<u8>, i: int) -> Option<(Seq<(Seq<u8>, Seq<u8>)>, int)>
    decreases t.len() - i,
{
    match parse_object(t, i) {
        None => None,
        Some(((n, u), j)) => if j <= i || j > t.len() {
            None
        } else {
            let c = skip_trivia(t, j);
            if c < t.len() && t[c] == 44 {
                let m = skip_trivia(t, c + 1);
                if m <= i || m > t.len() {
                    None
                } else {
                    match parse_entries(t, m) {
                        None => None,
                        Some((rest, e)) => Some((entry_of(n, u) + rest, e)),
                    }
                }
            } else if c < t.len() && t[c] == 93 {
                Some((entry_of(n, u), c + 1))
            } else {
                None
            }
        },
    }
}

fn entry_vec(n: Option<Vec<u8>>, u: Option<Vec<u8>>) -> (r: Vec<RemoteFile>)
    ensures
        r.deep_view() == entry_of(
            match n {
                Some(ref x) => Some(x@),
                None => None,
            },
            match u {
                Some(ref x) => Some(x@),
                None => None,
            },
        ),
{
    let mut r: Vec<RemoteFile> = Vec::new();
    proof {
        assert(r.deep_view() =~~= Seq::<(Seq<u8>, Seq<u8>)>::empty());
    }
    match (n, u) {
        (Some(nm), Some(url)) => {
            let kdl_lit: [u8; 4] = [46, 107, 100, 108];
            proof {
                assert(kdl_lit@ =~= kdl_suffix());
            }
            if check_no_backslash(nm.as_slice()) && check_no_backslash(url.as_slice())
                && ends_with(nm.as_slice(), kdl_lit.as_slice()) {
                let ghost gn = nm@;
                let ghost gu = url@;
                r.push(RemoteFile { name: nm, download_url: url });
                proof {
                    assert(r.deep_view() =~~= seq![(gn, gu)]);
                }
            }
        },
        _ => {},
    }
    r
}

fn parse_entries_at(t: &[u8], i: usize) -> (r: Option<(Vec<RemoteFile>, usize)>)
    requires
        i <= t@.len(),
    ensures
        match r {
            None => parse_entries(t@, i as int) is None,
            Some((fs, e)) => parse_entries(t@, i as int) == Some((fs.deep_view(), e as int)) && i
                < e <= t@.len(),
        },
    decreases t@.len() - i,
{
    match parse_object_at(t, i) {
        None => None,
        Some(((n, u), j)) => {
            let mut own = entry_vec(n, u);
            let c = skip_ws_at(t, j);
            if c < t.len() && t[c] == 44 {
                let m = skip_ws_at(t, c + 1);
                match parse_entries_at(t, m) {
                    None => None,
                    Some((mut rest, e)) => {
                        let ghost gown = own.deep_view();
                        let ghost grest = rest.deep_view();
                        own.append(&mut rest);
                        proof {
                            assert(own.deep_view() =~~= gown + grest);
                        }
                        Some((own, e))
                    },
                }
            } else if c < t.len() && t[c] == 93 {
                Some((own, c + 1))
            } else {
                None
            }
        },
    }
}

/// What a listing text means: the usable remote files, in listing
/// order, or nothing when the text is not a JSON array of objects.
pub open spec fn spec_parse_listing(t: Seq<u8>) -> Option<Seq<(Seq<u8>, Seq<u8>)>> {
    let a = skip_trivia(t, 0);
    if !(0 <= a < t.len() && t[a] == 91) {
        None
    } else {
        let b = skip_trivia(t, a + 1);
        if b < t.len() && t[b] == 93 {
            if skip_trivia(t, b + 1) == t.len() {
                Some(Seq::empty())
            } else {
                None
            }
        } else {
            match parse_entries(t, b) {
                None => None,
                Some((es, e)) => if skip_trivia(t, e) == t.len() {
                    Some(es)
                } else {
                    None
                },
            }
        }
    }
}

/// Decodes a directory listing.  Succeeds exactly when
/// `spec_parse_listing` accepts the text, and then yields exactly the
/// usable remote files it denotes; any other text is a fatal decode
/// failure.
pub fn parse_listing(t: &[u8]) -> (r: Result<Vec<RemoteFile>, ListingError>)
    ensures
        match r {
            Ok(fs) => spec_parse_listing(t@) == Some(fs.deep_view()),
            Err(_) => spec_parse_listing(t@) is None,
        },
{
    let a = skip_ws_at(t, 0);
    if !(a < t.len() && t[a] == 91) {
        return Err(ListingError);
    }
    let b = skip_ws_at(t, a + 1);
    if b < t.len() && t[b] == 93 {
        if skip_ws_at(t, b + 1) == t.len() {
            let v: Vec<RemoteFile> = Vec::new();
            proof {
                assert(v.deep_view() =~~= Seq::<(Seq<u8>, Seq<u8>)>::empty());
            }
            Ok(v)
        } else {
            Err(ListingError)
        }
    } else {
        match parse_entries_at(t, b) {
            None => Err(ListingError),
            Some((es, e)) => {
                if skip_ws_at(t, e) == t.len() {
                    Ok(es)
                } else {
                    Err(ListingError)
                }
            },
        }
    }
}

} // verus!
