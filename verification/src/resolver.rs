//! The theme resolver: cache-versus-fetch decision, the fetch session,
//! catalog assembly, and selection persistence.
//!
//! A resolution request either answers straight from a fresh cache
//! snapshot or runs one fetch session: one directory listing, then one
//! download per usable listed file, each downloaded document parsed
//! for the child names of its `themes` node.  A failed download or an
//! unparsable document only loses that one file's names — the count of
//! such skipped files is reported alongside the catalog.  The finished
//! catalog always carries the built-in `default` name and is sorted
//! lexicographically; duplicates are kept.
//!
//! The surrounding process performs the network and file transfers and
//! feeds the raw bytes through these functions.

use vstd::prelude::*;

use crate::cache::{spec_decode_cache, spec_is_fresh, cache_lookup};
use crate::document::{
    render_doc, spec_extract, spec_parse, spec_upsert, value_ok, ParseError,
    extract_child_node_names, parse, serialize, upsert_scalar_node,
};
use crate::listing::{spec_parse_listing, ListingError, RemoteFile, parse_listing};
use crate::order::{sorted_lex, sort_names};

verus! {

/// The name of the top-level node whose children enumerate themes.
pub open spec fn themes_node_name() -> Seq<u8> {
    seq![116u8, 104u8, 101u8, 109u8, 101u8, 115u8]
}

/// The name of the top-level node that carries the selection.
pub open spec fn theme_node_name() -> Seq<u8> {
    seq![116u8, 104u8, 101u8, 109u8, 101u8]
}

/// The built-in sentinel theme, present in every catalog.
pub open spec fn default_theme() -> Seq<u8> {
    seq![100u8, 101u8, 102u8, 97u8, 117u8, 108u8, 116u8]
}

/// The built-in sentinel theme as a value.
pub fn default_theme_name() -> (r: Vec<u8>)
    ensures
        r@ == default_theme(),
{
    let mut v: Vec<u8> = Vec::new();
    v.push(100);
    v.push(101);
    v.push(102);
    v.push(97);
    v.push(117);
    v.push(108);
    v.push(116);
    proof {
        assert(v@ =~= default_theme());
    }
    v
}

/// How a resolution request proceeds after consulting the cache.
pub enum Resolution {
    /// A fresh snapshot answers the request; no network call is made.
    UseCache(Vec<Vec<u8>>),
    /// Forced, or no usable snapshot: a fetch session is needed.
    NeedFetch,
}

/// Decides cache-versus-fetch: without force, a present, well-formed
/// and fresh snapshot is answered directly; a forced request, and an
/// absent, malformed or stale snapshot, all go to a fetch.
pub fn resolve_start(force_refresh: bool, cache_content: Option<&Vec<u8>>, now: u64) -> (r:
    Resolution)
    ensures
        match r {
            Resolution::UseCache(names) => {
                &&& !force_refresh
                &&& cache_content matches Some(c)
                &&& spec_decode_cache(c@) matches Some(p)
                &&& p.0 == names.deep_view()
                &&& spec_is_fresh(now, p.1)
            },
            Resolution::NeedFetch => force_refresh || match cache_content {
                None => true,
                Some(c) => match spec_decode_cache(c@) {
                    None => true,
                    Some(p) => !spec_is_fresh(now, p.1),
                },
            },
        },
{
    if force_refresh {
        return Resolution::NeedFetch;
    }
    match cache_lookup(cache_content, now) {
        Some(names) => Resolution::UseCache(names),
        None => Resolution::NeedFetch,
    }
}

/// What one downloaded file contributes: the child names of its
/// `themes` node when it parses, and nothing when it does not.
pub open spec fn themes_of_body(body: Option<Seq<u8>>) -> Seq<Seq<u8>> {
    match body {
        None => Seq::empty(),
        Some(text) => match spec_parse(text) {
            None => Seq::empty(),
            Some(ns) => spec_extract(ns, themes_node_name()),
        },
    }
}

/// Whether a downloaded file is skipped: it failed to arrive or to
/// parse.
pub open spec fn body_skipped(body: Option<Seq<u8>>) -> bool {
    match body {
        None => true,
        Some(text) => spec_parse(text) is None,
    }
}

/// One fetch in progress: the files still to download, the names
/// collected so far, and how many files were skipped.
pub struct FetchSession {
    pub files: Vec<RemoteFile>,
    pub next: usize,
    pub collected: Vec<Vec<u8>>,
    pub skipped: usize,
}

impl FetchSession {
    /// The session never skips more files than it has passed.
    pub open spec fn wf(&self) -> bool {
        self.next <= self.files@.len() && self.skipped <= self.next
    }

    /// Opens a session from the directory listing's body.  Fails — and
    /// the whole fetch with it — exactly when the listing does not
    /// decode.
    pub fn begin(listing_body: &[u8]) -> (r: Result<FetchSession, ListingError>)
        ensures
            match r {
                Ok(s) => spec_parse_listing(listing_body@) == Some(s.files.deep_view()) && s.wf()
                    && s.next == 0 && s.collected.deep_view() == Seq::<Seq<u8>>::empty()
                    && s.skipped == 0,
                Err(_) => spec_parse_listing(listing_body@) is None,
            },
    {
        match parse_listing(listing_body) {
            Err(e) => Err(e),
            Ok(files) => {
                let s = FetchSession { files, next: 0, collected: Vec::new(), skipped: 0 };
                proof {
                    assert(s.collected.deep_view() =~~= Seq::<Seq<u8>>::empty());
                }
                Ok(s)
            },
        }
    }

    /// The address to download next, while a file is pending.
    pub fn next_request(&self) -> (r: Option<&Vec<u8>>)
        ensures
            match r {
                Some(url) => self.next < self.files@.len() && url@ == self.files@[self.next as int].download_url@,
                None => self.next >= self.files@.len(),
            },
    {
        if self.next < self.files.len() {
            let f = vstd::slice::slice_index_get(self.files.as_slice(), self.next);
            Some(&f.download_url)
        } else {
            None
        }
    }

    /// Accounts for the pending file's download: its themes are
    /// appended when the body arrived and parses; a missing or
    /// unparsable body is skipped silently, losing no other file's
    /// names.
    pub fn supply(&mut self, body: Option<&[u8]>)
        requires
            old(self).wf(),
            old(self).next < old(self).files@.len(),
        ensures
            final(self).wf(),
            final(self).files == old(self).files,
            final(self).next == old(self).next + 1,
            final(self).collected.deep_view() == old(self).collected.deep_view() + themes_of_body(
                match body {
                    Some(b) => Some(b@),
                    None => None,
                },
            ),
            final(self).skipped == old(self).skipped + (if body_skipped(
                match body {
                    Some(b) => Some(b@),
                    None => None,
                },
            ) {
                1int
            } else {
                0int
            }),
    {
        let n = self.files.len();
        let ghost before = self.collected.deep_view();
        match body {
            None => {
                self.skipped = self.skipped + 1;
                proof {
                    assert(self.collected.deep_view() =~~= before + Seq::<Seq<u8>>::empty());
                }
            },
            Some(text) => {
                match parse(text) {
                    Err(_) => {
                        self.skipped = self.skipped + 1;
                        proof {
                            assert(self.collected.deep_view() =~~= before
                                + Seq::<Seq<u8>>::empty());
                        }
                    },
                    Ok(doc) => {
                        let themes_lit: [u8; 6] = [116, 104, 101, 109, 101, 115];
                        proof {
                            assert(themes_lit@ =~= themes_node_name());
                        }
                        let mut names = extract_child_node_names(&doc, themes_lit.as_slice());
                        let ghost gnames = names.deep_view();
                        self.collected.append(&mut names);
                        proof {
                            assert(self.collected.deep_view() =~~= before + gnames);
                        }
                    },
                }
            },
        }
        self.next = self.next + 1;
    }

    /// Whether every listed file has been accounted for.
    pub fn done(&self) -> (r: bool)
        ensures
            r == (self.next >= self.files@.len()),
    {
        self.next >= self.files.len()
    }

    /// Closes the session: the catalog is the collected names plus the
    /// built-in `default`, sorted lexicographically, duplicates kept;
    /// beside it, how many files were skipped.
    pub fn finish(self) -> (r: (Vec<Vec<u8>>, usize))
        requires
            self.next >= self.files@.len(),
        ensures
            sorted_lex(r.0.deep_view()),
            r.0.deep_view().to_multiset() == self.collected.deep_view().push(
                default_theme(),
            ).to_multiset(),
            r.0.deep_view().contains(default_theme()),
            r.0.deep_view().len() == self.collected.deep_view().len() + 1,
            r.1 == self.skipped,
    {
        let FetchSession { files: _, next: _, mut collected, skipped } = self;
        let ghost before = collected.deep_view();
        let d = default_theme_name();
        collected.push(d);
        proof {
            assert(collected.deep_view() =~~= before.push(default_theme()));
        }
        let catalog = sort_names(collected);
        proof {
            broadcast use vstd::multiset::group_multiset_axioms;

            before.to_multiset_ensures();
            catalog.deep_view().to_multiset_ensures();
            assert(catalog.deep_view().to_multiset().contains(default_theme())) by {
                assert(before.push(default_theme()).to_multiset() =~= before.to_multiset().insert(
                    default_theme(),
                ));
                assert(before.push(default_theme()).to_multiset().count(default_theme()) > 0);
            }
            assert(catalog.deep_view().contains(default_theme()));
        }
        (catalog, skipped)
    }
}

/// Applies a selection to the configuration text: parses it, replaces
/// (never appends to) the scalar of its top-level `theme` node — or
/// appends a fresh `theme` node — and renders the document back.  An
/// unparsable text is refused whole, so the caller writes nothing and
/// the file on disk stays untouched.
pub fn update_config(config_text: &[u8], selected_theme: &[u8]) -> (r: Result<Vec<u8>, ParseError>)
    requires
        value_ok(selected_theme@),
    ensures
        match r {
            Ok(out) => spec_parse(config_text@) matches Some(ns) && out@ == render_doc(
                spec_upsert(ns, theme_node_name(), selected_theme@),
            ),
            Err(_) => spec_parse(config_text@) is None,
        },
{
    let theme_lit: [u8; 5] = [116, 104, 101, 109, 101];
    proof {
        assert(theme_lit@ =~= theme_node_name());
    }
    match parse(config_text) {
        Err(e) => Err(e),
        Ok(mut doc) => {
            upsert_scalar_node(&mut doc, theme_lit.as_slice(), selected_theme);
            Ok(serialize(&doc))
        },
    }
}

} // verus!
