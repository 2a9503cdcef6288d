//! Lexicographic order on byte strings, and sorting of name lists.
//!
//! The catalog's canonical order is lexicographic over bytes, which for
//! UTF-8 encoded names coincides with code-point order.  The sort keeps
//! the multiset of names unchanged: duplicates are kept, not removed.

use vstd::prelude::*;
use vstd::multiset::Multiset;
use vstd::seq_lib::lemma_multiset_commutative;

verus! {

/// `a` is lexicographically at or before `b`, byte by byte.
pub open spec fn lex_leq(a: Seq<u8>, b: Seq<u8>) -> bool
    decreases a.len(),
{
    if a.len() == 0 {
        true
    } else if b.len() == 0 {
        false
    } else if a[0] < b[0] {
        true
    } else if a[0] > b[0] {
        false
    } else {
        lex_leq(a.drop_first(), b.drop_first())
    }
}

/// Every pair of entries is in order.
pub open spec fn sorted_lex(s: Seq<Seq<u8>>) -> bool {
    forall|i: int, j: int| 0 <= i < j < s.len() ==> lex_leq(#[trigger] s[i], #[trigger] s[j])
}

/// The order is total: one of the two directions always holds.
pub proof fn lemma_lex_total(a: Seq<u8>, b: Seq<u8>)
    ensures
        lex_leq(a, b) || lex_leq(b, a),
    decreases a.len(),
{
    if a.len() > 0 && b.len() > 0 && a[0] == b[0] {
        lemma_lex_total(a.drop_first(), b.drop_first());
    }
}

/// The order is transitive.
pub proof fn lemma_lex_trans(a: Seq<u8>, b: Seq<u8>, c: Seq<u8>)
    requires
        lex_leq(a, b),
        lex_leq(b, c),
    ensures
        lex_leq(a, c),
    decreases a.len(),
{
    if a.len() > 0 && b.len() > 0 && c.len() > 0 && a[0] == b[0] && b[0] == c[0] {
        lemma_lex_trans(a.drop_first(), b.drop_first(), c.drop_first());
    }
}

fn lex_leq_at(a: &[u8], b: &[u8], k: usize) -> (r: bool)
    requires
        k <= a@.len(),
        k <= b@.len(),
    ensures
        r == lex_leq(a@.skip(k as int), b@.skip(k as int)),
    decreases a@.len() - k,
{
    proof {
        if k < a.len() {
            assert(a@.skip(k as int)[0] == a@[k as int]);
            assert(a@.skip(k as int).drop_first() =~= a@.skip(k as int + 1));
        }
        if k < b.len() {
            assert(b@.skip(k as int)[0] == b@[k as int]);
            assert(b@.skip(k as int).drop_first() =~= b@.skip(k as int + 1));
        }
    }
    if k == a.len() {
        true
    } else if k == b.len() {
        false
    } else if a[k] < b[k] {
        true
    } else if a[k] > b[k] {
        false
    } else {
        lex_leq_at(a, b, k + 1)
    }
}

/// Decides the lexicographic order on two byte strings.
pub fn lex_leq_bytes(a: &[u8], b: &[u8]) -> (r: bool)
    ensures
        r == lex_leq(a@, b@),
{
    proof {
        assert(a@.skip(0) =~= a@);
        assert(b@.skip(0) =~= b@);
    }
    lex_leq_at(a, b, 0)
}

/// Whether the entry at `j` is at or before `x` in the order.
fn stays_before(entries: &[Vec<u8>], j: usize, x: &Vec<u8>) -> (r: bool)
    requires
        j < entries@.len(),
    ensures
        r == lex_leq(entries@[j as int]@, x@),
{
    let s = vstd::slice::slice_index_get(entries, j);
    let r = lex_leq_bytes(s.as_slice(), x.as_slice());
    proof {
        assert(s@ == entries@[j as int]@);
    }
    r
}

/// Inserts a name into a sorted list, keeping it sorted and adding
/// exactly that name to its contents.
fn insert_sorted(out: &mut Vec<Vec<u8>>, x: Vec<u8>)
    requires
        sorted_lex(old(out).deep_view()),
    ensures
        sorted_lex(final(out).deep_view()),
        final(out).deep_view().to_multiset() == old(out).deep_view().to_multiset().insert(x@),
        final(out).deep_view().len() == old(out).deep_view().len() + 1,
{
    let ghost gx = x@;
    let ghost dv0 = out.deep_view();
    let mut j: usize = 0;
    loop
        invariant
            j <= out.len(),
            x@ == gx,
            out.deep_view() == dv0,
            forall|k: int| 0 <= k < j ==> lex_leq(#[trigger] dv0[k], gx),
        ensures
            j <= out.len(),
            out.deep_view() == dv0,
            forall|k: int| 0 <= k < j ==> lex_leq(#[trigger] dv0[k], gx),
            j < out.len() ==> !lex_leq(dv0[j as int], gx),
        decreases out.len() - j,
    {
        if j == out.len() {
            break ;
        }
        let c = stays_before(out.as_slice(), j, &x);
        proof {
            assert(dv0[j as int] =~= out@[j as int]@);
        }
        if !c {
            break ;
        }
        j = j + 1;
    }
    proof {
        if j < out.len() {
            assert(!lex_leq(dv0[j as int], gx));
            lemma_lex_total(dv0[j as int], gx);
            assert(lex_leq(gx, dv0[j as int]));
            assert forall|k: int| j <= k < dv0.len() implies lex_leq(gx, #[trigger] dv0[k]) by {
                if k > j {
                    assert(lex_leq(dv0[j as int], dv0[k]));
                    lemma_lex_trans(gx, dv0[j as int], dv0[k]);
                }
            }
        }
    }
    out.insert(j, x);
    proof {
        let dv1 = out.deep_view();
        assert(dv1 =~~= dv0.insert(j as int, gx));
        assert forall|p: int, q: int| 0 <= p < q < dv1.len() implies lex_leq(
            #[trigger] dv1[p],
            #[trigger] dv1[q],
        ) by {
            let oldp: int = if p < j { p } else { p - 1 };
            let oldq: int = if q < j { q } else { q - 1 };
            if p == j {
                assert(dv1[q] == dv0[oldq]);
                assert(lex_leq(gx, dv0[oldq]));
            } else if q == j {
                assert(dv1[p] == dv0[oldp]);
                assert(lex_leq(dv0[oldp], gx));
            } else {
                assert(dv1[p] == dv0[oldp]);
                assert(dv1[q] == dv0[oldq]);
                if oldp < oldq {
                    assert(lex_leq(dv0[oldp], dv0[oldq]));
                } else {
                    assert(oldp == oldq);
                    lemma_lex_total(dv0[oldp], dv0[oldp]);
                }
            }
        }
        // contents: inserting is appending somewhere in the middle
        broadcast use vstd::multiset::group_multiset_axioms;
        broadcast use vstd::seq::Seq::to_multiset_ensures;

        assert(dv0.insert(j as int, gx) =~= dv0.take(j as int) + seq![gx] + dv0.skip(j as int));
        lemma_multiset_commutative(dv0.take(j as int) + seq![gx], dv0.skip(j as int));
        lemma_multiset_commutative(dv0.take(j as int), seq![gx]);
        Seq::<Seq<u8>>::empty().to_multiset_ensures();
        assert(Seq::<Seq<u8>>::empty().push(gx).to_multiset() =~= Seq::<Seq<u8>>::empty()
            .to_multiset().insert(gx));
        assert(seq![gx] =~= Seq::<Seq<u8>>::empty().push(gx));
        assert(seq![gx].to_multiset() =~= Seq::<Seq<u8>>::empty().to_multiset().insert(gx));
        lemma_multiset_commutative(dv0.take(j as int), dv0.skip(j as int));
        assert(dv0.take(j as int) + dv0.skip(j as int) =~= dv0);
        vstd::multiset::lemma_multiset_empty_len(Seq::<Seq<u8>>::empty().to_multiset());
        assert(Seq::<Seq<u8>>::empty().to_multiset() =~= Multiset::<Seq<u8>>::empty());
        assert(dv1.to_multiset() =~= dv0.to_multiset().insert(gx));
    }
}

/// Sorts a list of names lexicographically.  The result holds exactly
/// the same names, duplicates included.
pub fn sort_names(mut v: Vec<Vec<u8>>) -> (r: Vec<Vec<u8>>)
    ensures
        sorted_lex(r.deep_view()),
        r.deep_view().to_multiset() == v.deep_view().to_multiset(),
        r.deep_view().len() == v.deep_view().len(),
{
    let ghost orig = v.deep_view();
    let mut out: Vec<Vec<u8>> = Vec::new();
    proof {
        broadcast use vstd::multiset::group_multiset_axioms;
        broadcast use vstd::seq::Seq::to_multiset_ensures;

        assert(out.deep_view() =~~= Seq::<Seq<u8>>::empty());
        vstd::multiset::lemma_multiset_empty_len(out.deep_view().to_multiset());
        assert(out.deep_view().to_multiset() =~= Multiset::<Seq<u8>>::empty());
        assert(out.deep_view().to_multiset().add(v.deep_view().to_multiset()) =~= orig.to_multiset());
    }
    while v.len() > 0
        invariant
            sorted_lex(out.deep_view()),
            out.deep_view().to_multiset().add(v.deep_view().to_multiset()) == orig.to_multiset(),
            out.deep_view().len() + v.deep_view().len() == orig.len(),
        decreases v.len(),
    {
        let ghost dvv = v.deep_view();
        let ghost dvo = out.deep_view();
        let ghost vraw = v@;
        let x = v.pop().unwrap();
        proof {
            broadcast use vstd::seq::Seq::to_multiset_ensures;

            assert(v@ =~= vraw.drop_last());
            assert(x.deep_view() =~= x@);
            assert(v.deep_view() =~~= dvv.drop_last()) by {
                assert forall|i2: int| 0 <= i2 < v@.len() implies v.deep_view()[i2] == dvv
                    .drop_last()[i2] by {
                    assert(v@[i2] == vraw[i2]);
                }
            }
            assert(dvv =~~= dvv.drop_last().push(x@)) by {
                assert(dvv[dvv.len() - 1] == vraw[vraw.len() - 1].deep_view());
            }
            dvv.drop_last().to_multiset_ensures();
            assert(dvv.drop_last().push(x@).to_multiset() =~= dvv.drop_last().to_multiset()
                .insert(x@));
            assert(dvv.to_multiset() =~= dvv.drop_last().to_multiset().insert(x@));
        }
        insert_sorted(&mut out, x);
        proof {
            broadcast use vstd::multiset::group_multiset_axioms;

            assert(out.deep_view().to_multiset() =~= dvo.to_multiset().insert(x@));
            assert(dvo.to_multiset().insert(x@).add(v.deep_view().to_multiset()) =~= dvo
                .to_multiset().add(v.deep_view().to_multiset().insert(x@)));
            assert(out.deep_view().to_multiset().add(v.deep_view().to_multiset()) =~= orig
                .to_multiset());
        }
    }
    proof {
        broadcast use vstd::multiset::group_multiset_axioms;
        broadcast use vstd::seq::Seq::to_multiset_ensures;

        assert(v.deep_view() =~~= Seq::<Seq<u8>>::empty());
        vstd::multiset::lemma_multiset_empty_len(v.deep_view().to_multiset());
        assert(v.deep_view().to_multiset() =~= Multiset::<Seq<u8>>::empty());
        assert(out.deep_view().to_multiset() =~= orig.to_multiset());
    }
    out
}

} // verus!
