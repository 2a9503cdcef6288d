//! Laws of the structured-document adapter.
//!
//! Proved here: upserting a scalar node is idempotent (the second
//! application changes neither the document nor its serialized text);
//! upserting replaces the arguments of an existing node rather than
//! appending to them, and touches no other node; and extracting child
//! node names from a node whose block consists of well-formed rendered
//! entries yields exactly those entries' names, in order, while a
//! document lacking the node yields the empty sequence.

use vstd::prelude::*;

use crate::document::{
    block_end, child_names, eat_line_end, entry_names, find_node, get_node, is_name_byte,
    is_space_byte, is_trivia_byte, name_end, parse_args, quote_end, quoted, render_args,
    parse_node, parse_tops, render_doc, render_node, skip_node_tail, skip_spaces, skip_trivia,
    spec_extract, spec_upsert, value_ok, GNode,
};

verus! {

// ---------------------------------------------------------------------
// Well-formed rendered entries
// ---------------------------------------------------------------------
/// A bare token: a non-empty run of name bytes.
pub open spec fn bare_token_ok(tok: Seq<u8>) -> bool {
    tok.len() > 0 && forall|k: int| 0 <= k < tok.len() ==> is_name_byte(tok[k])
}

/// A quoted token: a quote, content free of quotes and line breaks,
/// and a closing quote.
pub open spec fn quoted_token_ok(tok: Seq<u8>) -> bool {
    &&& tok.len() >= 2
    &&& tok[0] == 34
    &&& tok[tok.len() - 1] == 34
    &&& forall|k: int| 1 <= k < tok.len() - 1 ==> tok[k] != 34 && tok[k] != 10 && tok[k] != 13
}

/// A token that the argument scanner reads back as one argument.
pub open spec fn token_ok(tok: Seq<u8>) -> bool {
    bare_token_ok(tok) || quoted_token_ok(tok)
}

/// Block bytes that the brace scanner walks through to exactly the
/// closing brace appended after them.
pub open spec fn block_ok(b: Seq<u8>) -> bool {
    block_end(b.push(125u8), 0, 1, false) == Some(b.len() as int)
}

/// A well-formed entry: rendered, it is read back as one node.
pub open spec fn entry_wf(n: GNode) -> bool {
    &&& bare_token_ok(n.name)
    &&& forall|k: int| 0 <= k < n.args.len() ==> token_ok(#[trigger] n.args[k])
    &&& match n.block {
        None => true,
        Some(b) => block_ok(b),
    }
}

// ---------------------------------------------------------------------
// Upsert laws
// ---------------------------------------------------------------------
/// A found node carries the name that was looked up.
pub proof fn lemma_find_node_names(ns: Seq<GNode>, name: Seq<u8>)
    ensures
        find_node(ns, name) matches Some(i) ==> 0 <= i < ns.len() && ns[i].name == name
            && forall|j: int| 0 <= j < i ==> ns[j].name != name,
    decreases ns.len(),
{
    if ns.len() > 0 && ns[0].name != name {
        lemma_find_node_names(ns.drop_first(), name);
        match find_node(ns.drop_first(), name) {
            Some(k) => {
                assert(find_node(ns, name) == Some(k + 1));
                assert forall|j: int| 0 <= j < k + 1 implies ns[j].name != name by {
                    if j > 0 {
                        assert(ns[j] == ns.drop_first()[j - 1]);
                    }
                }
            },
            None => {},
        }
    }
}

/// Updating a node in place with one that keeps the looked-up name
/// leaves the lookup index unchanged.
pub proof fn lemma_find_node_update(ns: Seq<GNode>, name: Seq<u8>, i: int, n: GNode)
    requires
        find_node(ns, name) == Some(i),
        n.name == name,
    ensures
        find_node(ns.update(i, n), name) == Some(i),
    decreases ns.len(),
{
    lemma_find_node_names(ns, name);
    if i == 0 {
        assert(ns.update(0, n)[0].name == name);
    } else {
        assert(ns.update(i, n)[0].name == ns[0].name);
        assert(ns.update(i, n).drop_first() =~= ns.drop_first().update(i - 1, n));
        lemma_find_node_update(ns.drop_first(), name, i - 1, n);
    }
}

/// Appending a node with a name not yet present makes the lookup find
/// it, at the end.
pub proof fn lemma_find_node_push(ns: Seq<GNode>, name: Seq<u8>, n: GNode)
    requires
        find_node(ns, name) is None,
        n.name == name,
    ensures
        find_node(ns.push(n), name) == Some(ns.len() as int),
    decreases ns.len(),
{
    if ns.len() == 0 {
        assert(ns.push(n)[0] == n);
    } else {
        assert(ns.push(n)[0].name == ns[0].name);
        assert(ns.push(n).drop_first() =~= ns.drop_first().push(n));
        lemma_find_node_push(ns.drop_first(), name, n);
    }
}

/// Upserting a scalar node is idempotent: the second application with
/// the same value changes neither the document nor its serialized text.
pub proof fn lemma_upsert_idempotent(ns: Seq<GNode>, name: Seq<u8>, value: Seq<u8>)
    ensures
        spec_upsert(spec_upsert(ns, name, value), name, value) == spec_upsert(ns, name, value),
        render_doc(spec_upsert(spec_upsert(ns, name, value), name, value)) == render_doc(
            spec_upsert(ns, name, value),
        ),
{
    let once = spec_upsert(ns, name, value);
    lemma_find_node_names(ns, name);
    match find_node(ns, name) {
        Some(i) => {
            let n = GNode { name: ns[i].name, args: seq![quoted(value)], block: ns[i].block };
            lemma_find_node_update(ns, name, i, n);
            assert(once[i] == n);
            assert(spec_upsert(once, name, value) =~= once);
        },
        None => {
            let n = GNode { name, args: seq![quoted(value)], block: None };
            lemma_find_node_push(ns, name, n);
            assert(once[ns.len() as int] == n);
            assert(spec_upsert(once, name, value) =~= once);
        },
    }
}

/// Upserting replaces: afterwards the named node carries exactly the
/// one quoted value — prior arguments are gone, its block stays — and
/// every other node is untouched.
pub proof fn lemma_upsert_replaces(ns: Seq<GNode>, name: Seq<u8>, value: Seq<u8>)
    ensures
        get_node(spec_upsert(ns, name, value), name) matches Some(n) && n.args == seq![
            quoted(value),
        ] && n.name == name,
        find_node(ns, name) matches Some(i) ==> spec_upsert(ns, name, value).len() == ns.len()
            && (forall|j: int|
            0 <= j < ns.len() && j != i ==> spec_upsert(ns, name, value)[j] == ns[j])
            && spec_upsert(ns, name, value)[i].block == ns[i].block,
        find_node(ns, name) is None ==> spec_upsert(ns, name, value) == ns.push(
            GNode { name, args: seq![quoted(value)], block: None },
        ),
{
    lemma_find_node_names(ns, name);
    match find_node(ns, name) {
        Some(i) => {
            let n = GNode { name: ns[i].name, args: seq![quoted(value)], block: ns[i].block };
            lemma_find_node_update(ns, name, i, n);
        },
        None => {
            let n = GNode { name, args: seq![quoted(value)], block: None };
            lemma_find_node_push(ns, name, n);
        },
    }
}

// ---------------------------------------------------------------------
// Scanner window lemmas
// ---------------------------------------------------------------------
/// Reading one byte out of a window reads it out of the text.
proof fn lemma_subrange_index(t: Seq<u8>, a: int, b: int, k: int)
    requires
        0 <= a,
        0 <= k,
        a + k < b <= t.len(),
    ensures
        t.subrange(a, b)[k] == t[a + k],
{
}

/// The trivia scanner lands inside the text, on a non-trivia byte when
/// there is one.
pub proof fn lemma_skip_trivia_props(t: Seq<u8>, i: int)
    requires
        0 <= i <= t.len(),
    ensures
        i <= skip_trivia(t, i) <= t.len(),
        skip_trivia(t, i) == t.len() || !is_trivia_byte(t[skip_trivia(t, i)]),
    decreases t.len() - i,
{
    if i < t.len() && is_trivia_byte(t[i]) {
        lemma_skip_trivia_props(t, i + 1);
    }
}

/// A window of name bytes followed by a non-name byte is exactly what
/// the name scanner walks over.
pub proof fn lemma_name_end_window(t: Seq<u8>, i: int, n: Seq<u8>)
    requires
        0 <= i,
        i + n.len() <= t.len(),
        t.subrange(i, i + n.len()) == n,
        forall|k: int| 0 <= k < n.len() ==> is_name_byte(n[k]),
        i + n.len() == t.len() || !is_name_byte(t[i + n.len()]),
    ensures
        name_end(t, i) == i + n.len(),
    decreases n.len(),
{
    if n.len() == 0 {
    } else {
        assert(t[i] == n[0]);
        let n2 = n.drop_first();
        assert(t.subrange(i + 1, i + 1 + n2.len()) =~= n2);
        lemma_name_end_window(t, i + 1, n2);
    }
}

/// A window of quote-free content followed by a quote is exactly what
/// the quote scanner walks over.
pub proof fn lemma_quote_end_window(t: Seq<u8>, i: int, inner: Seq<u8>)
    requires
        0 <= i,
        i + inner.len() < t.len(),
        t.subrange(i, i + inner.len()) == inner,
        forall|k: int|
            0 <= k < inner.len() ==> inner[k] != 34 && inner[k] != 10 && inner[k] != 13,
        t[i + inner.len()] == 34,
    ensures
        quote_end(t, i) == Some(i + inner.len()),
    decreases inner.len(),
{
    if inner.len() == 0 {
    } else {
        assert(t[i] == inner[0]);
        let n2 = inner.drop_first();
        assert(t.subrange(i + 1, i + 1 + n2.len()) =~= n2);
        lemma_quote_end_window(t, i + 1, n2);
    }
}

/// A brace scan that succeeds within a window succeeds identically at
/// the window's position within a larger text.
pub proof fn lemma_block_end_window(
    t: Seq<u8>,
    off: int,
    u: Seq<u8>,
    j: int,
    depth: int,
    in_quote: bool,
)
    requires
        0 <= off,
        off + u.len() <= t.len(),
        t.subrange(off, off + u.len()) == u,
        0 <= j <= u.len(),
        block_end(u, j, depth, in_quote) is Some,
    ensures
        match block_end(u, j, depth, in_quote) {
            Some(e) => block_end(t, off + j, depth, in_quote) == Some(off + e),
            None => true,
        },
    decreases u.len() - j,
{
    assert(j < u.len());
    assert(t[off + j] == u[j]);
    if in_quote {
        if u[j] == 34 {
            lemma_block_end_window(t, off, u, j + 1, depth, false);
        } else {
            lemma_block_end_window(t, off, u, j + 1, depth, true);
        }
    } else if u[j] == 34 {
        lemma_block_end_window(t, off, u, j + 1, depth, true);
    } else if u[j] == 123 {
        lemma_block_end_window(t, off, u, j + 1, depth + 1, false);
    } else if u[j] == 125 {
        if depth == 1 {
        } else {
            lemma_block_end_window(t, off, u, j + 1, depth - 1, false);
        }
    } else {
        lemma_block_end_window(t, off, u, j + 1, depth, false);
    }
}

/// A rendered argument list followed by a terminator byte is read back
/// as exactly those arguments, stopping at the terminator.
pub proof fn lemma_parse_args_render(t: Seq<u8>, i: int, args: Seq<Seq<u8>>)
    requires
        0 <= i,
        i + render_args(args).len() <= t.len(),
        t.subrange(i, i + render_args(args).len()) == render_args(args),
        forall|k: int| 0 <= k < args.len() ==> token_ok(#[trigger] args[k]),
        i + render_args(args).len() == t.len() || t[i + render_args(args).len()] == 10 || t[i
            + render_args(args).len()] == 13 || t[i + render_args(args).len()] == 123 || t[i
            + render_args(args).len()] == 125,
    ensures
        parse_args(t, i) == Some((args, i + render_args(args).len())),
    decreases args.len(),
{
    let m = i + render_args(args).len();
    if args.len() == 0 {
        assert(skip_spaces(t, i) == i);
        assert(parse_args(t, i) == Some((Seq::<Seq<u8>>::empty(), i)));
        assert(args =~= Seq::<Seq<u8>>::empty());
    } else {
        let tok = args[0];
        let rest = args.drop_first();
        let ra = render_args(args);
        assert(ra =~= seq![32u8] + tok + render_args(rest));
        lemma_subrange_index(t, i, i + ra.len(), 0);
        assert((seq![32u8] + tok + render_args(rest))[0] == 32);
        assert(t[i] == 32);
        let j = i + 1;
        assert(t.subrange(j, j + tok.len()) =~= tok) by {
            assert forall|k: int| 0 <= k < tok.len() implies t.subrange(j, j + tok.len())[k]
                == tok[k] by {
                lemma_subrange_index(t, j, j + tok.len(), k);
                lemma_subrange_index(t, i, i + ra.len(), 1 + k);
                assert((seq![32u8] + tok + render_args(rest))[1 + k] == tok[k]);
            }
        }
        assert(t[j] == tok[0]) by {
            lemma_subrange_index(t, j, j + tok.len(), 0);
        }
        assert(!is_space_byte(tok[0]));
        assert(skip_spaces(t, i) == j) by {
            assert(skip_spaces(t, j) == j);
        }
        let i2 = j + tok.len();
        // the window of the remaining arguments
        assert(t.subrange(i2, i2 + render_args(rest).len()) =~= render_args(rest)) by {
            assert forall|k: int|
                0 <= k < render_args(rest).len() implies t.subrange(
                i2,
                i2 + render_args(rest).len(),
            )[k] == render_args(rest)[k] by {
                lemma_subrange_index(t, i2, i2 + render_args(rest).len(), k);
                lemma_subrange_index(t, i, i + ra.len(), 1 + tok.len() + k);
                assert((seq![32u8] + tok + render_args(rest))[1 + tok.len() + k] == render_args(
                    rest,
                )[k]);
            }
        }
        if rest.len() == 0 {
            assert(render_args(rest).len() == 0);
            assert(i2 == m);
        } else {
            assert(render_args(rest) =~= seq![32u8] + rest[0] + render_args(rest.drop_first()));
            assert(t[i2] == 32) by {
                lemma_subrange_index(t, i2, i2 + render_args(rest).len(), 0);
            }
        }
        if quoted_token_ok(tok) {
            let inner = tok.subrange(1, tok.len() - 1);
            assert(t.subrange(j + 1, j + 1 + inner.len()) =~= inner) by {
                assert forall|k: int|
                    0 <= k < inner.len() implies t.subrange(j + 1, j + 1 + inner.len())[k]
                    == inner[k] by {
                    lemma_subrange_index(t, j + 1, j + 1 + inner.len(), k);
                    lemma_subrange_index(t, j, j + tok.len(), 1 + k);
                }
            }
            assert(t[j + 1 + inner.len()] == tok[tok.len() - 1]) by {
                lemma_subrange_index(t, j, j + tok.len(), tok.len() - 1);
            }
            lemma_quote_end_window(t, j + 1, inner);
            let q = j + 1 + inner.len();
            assert(q == i2 - 1);
            assert(t.subrange(j, q + 1) =~= tok);
            lemma_parse_args_render(t, i2, rest);
            assert(seq![tok] + rest =~= args);
        } else {
            assert(bare_token_ok(tok));
            lemma_name_end_window(t, j, tok);
            lemma_parse_args_render(t, i2, rest);
            assert(seq![tok] + rest =~= args);
        }
    }
}

// ---------------------------------------------------------------------
// Exact extraction
// ---------------------------------------------------------------------
/// Scanning a text whose remainder (after leading trivia) is the
/// rendering of well-formed entries yields exactly those entries'
/// names, in order.
pub proof fn lemma_child_names_render(t: Seq<u8>, i: int, es: Seq<GNode>)
    requires
        0 <= i <= t.len(),
        forall|k: int| 0 <= k < es.len() ==> entry_wf(#[trigger] es[k]),
        t.subrange(skip_trivia(t, i), t.len() as int) == render_doc(es),
    ensures
        child_names(t, i) == entry_names(es),
    decreases es.len(),
{
    lemma_skip_trivia_props(t, i);
    let j = skip_trivia(t, i);
    if es.len() == 0 {
        assert(render_doc(es) =~= Seq::<u8>::empty());
        assert(j == t.len());
        assert(entry_names(es) =~= Seq::<Seq<u8>>::empty());
    } else {
        let e0 = es[0];
        let rest = es.drop_first();
        let rn = render_node(e0);
        let ra = render_args(e0.args);
        let blockpart: Seq<u8> = match e0.block {
            None => Seq::empty(),
            Some(b) => seq![123u8] + b + seq![125u8],
        };
        assert(rn =~= e0.name + ra + blockpart + seq![10u8]);
        let cm = e0.name + ra + blockpart + seq![10u8];
        assert(rn.len() == e0.name.len() + ra.len() + blockpart.len() + 1);
        let w = rn + render_doc(rest);
        assert(t.subrange(j, t.len() as int) == w);
        assert(w.len() == t.len() - j);
        assert forall|x: int| 0 <= x < w.len() implies #[trigger] w[x] == t[j + x] by {
            lemma_subrange_index(t, j, t.len() as int, x);
        }
        // the name
        assert(cm[0] == e0.name[0]);
        assert(w[0] == e0.name[0]);
        assert(t[j] == e0.name[0]);
        assert(is_name_byte(t[j]));
        let p = j + e0.name.len();
        assert(t.subrange(j, p) =~= e0.name) by {
            assert forall|k: int| 0 <= k < e0.name.len() implies t.subrange(j, p)[k]
                == e0.name[k] by {
                lemma_subrange_index(t, j, p, k);
                assert(cm[k] == e0.name[k]);
                assert(w[k] == e0.name[k]);
            }
        }
        assert(cm[e0.name.len() as int] == w[e0.name.len() as int]);
        if ra.len() > 0 {
            assert(ra =~= seq![32u8] + e0.args[0] + render_args(e0.args.drop_first()));
            assert(cm[e0.name.len() as int] == 32);
            assert(w[e0.name.len() as int] == 32);
        } else {
            match e0.block {
                None => {
                    assert(cm[e0.name.len() as int] == 10);
                    assert(w[e0.name.len() as int] == 10);
                },
                Some(b) => {
                    assert(cm[e0.name.len() as int] == 123);
                    assert(w[e0.name.len() as int] == 123);
                },
            }
        }
        assert(!is_name_byte(t[p]));
        lemma_name_end_window(t, j, e0.name);
        assert(name_end(t, j) == p);
        // the arguments
        let m = p + ra.len();
        assert(t.subrange(p, m) =~= ra) by {
            assert forall|k: int| 0 <= k < ra.len() implies t.subrange(p, m)[k] == ra[k] by {
                lemma_subrange_index(t, p, m, k);
                assert(cm[e0.name.len() + k] == ra[k]);
                assert(w[e0.name.len() + k] == ra[k]);
            }
        }
        match e0.block {
            None => {
                assert(cm[e0.name.len() as int + ra.len()] == 10);
                assert(w[e0.name.len() as int + ra.len()] == 10);
                assert(t[m] == 10);
            },
            Some(b) => {
                assert(cm[e0.name.len() as int + ra.len()] == 123);
                assert(w[e0.name.len() as int + ra.len()] == 123);
                assert(t[m] == 123);
            },
        }
        lemma_parse_args_render(t, p, e0.args);
        assert(parse_args(t, p) == Some((e0.args, m)));
        // the tail past the arguments
        let k: int = match e0.block {
            None => {
                assert(skip_node_tail(t, p) == Some(eat_line_end(t, m)));
                assert(eat_line_end(t, m) == m + 1);
                m + 1
            },
            Some(b) => {
                let u = b.push(125u8);
                assert(blockpart.len() == b.len() + 2);
                assert(t.subrange(m + 1, m + 1 + u.len()) =~= u) by {
                    assert forall|x: int| 0 <= x < u.len() implies t.subrange(
                        m + 1,
                        m + 1 + u.len(),
                    )[x] == u[x] by {
                        lemma_subrange_index(t, m + 1, m + 1 + u.len(), x);
                        assert(blockpart[1 + x] == u[x]);
                        assert(cm[e0.name.len() + ra.len() + 1 + x] == blockpart[1 + x]);
                        assert(w[e0.name.len() + ra.len() + 1 + x] == blockpart[1 + x]);
                    }
                }
                lemma_block_end_window(t, m + 1, u, 0, 1, false);
                let c = m + 1 + b.len();
                assert(block_end(t, m + 1, 1, false) == Some(c));
                assert(cm[e0.name.len() as int + ra.len() + blockpart.len()] == 10);
                assert(w[e0.name.len() as int + ra.len() + blockpart.len()] == 10);
                assert(t[c + 1] == 10);
                assert(eat_line_end(t, c + 1) == c + 2);
                assert(skip_node_tail(t, p) == Some(c + 2));
                c + 2
            },
        };
        assert(k == j + rn.len());
        // the remainder is the rendering of the remaining entries
        assert(t.subrange(k, t.len() as int) =~= render_doc(rest)) by {
            assert forall|x: int| 0 <= x < t.len() - k implies t.subrange(k, t.len() as int)[x]
                == render_doc(rest)[x] by {
                lemma_subrange_index(t, k, t.len() as int, x);
                assert(w[rn.len() + x] == render_doc(rest)[x]);
                assert(t[k + x] == render_doc(rest)[x]);
            }
        }
        if rest.len() == 0 {
            assert(k == t.len());
            assert(skip_trivia(t, k) == k);
        } else {
            assert(render_doc(rest) =~= render_node(rest[0]) + render_doc(rest.drop_first()));
            assert(render_node(rest[0]) =~= rest[0].name + render_args(rest[0].args) + (match rest[0].block {
                None => Seq::<u8>::empty(),
                Some(bb) => seq![123u8] + bb + seq![125u8],
            }) + seq![10u8]);
            assert((rest[0].name + render_args(rest[0].args) + (match rest[0].block {
                None => Seq::<u8>::empty(),
                Some(bb) => seq![123u8] + bb + seq![125u8],
            }) + seq![10u8])[0] == rest[0].name[0]);
            assert((render_node(rest[0]) + render_doc(rest.drop_first()))[0] == render_node(rest[0])[0]);
            assert(render_doc(rest)[0] == rest[0].name[0]);
            assert(w[rn.len() as int] == render_doc(rest)[0]);
            assert(t[k] == rest[0].name[0]);
            assert(is_name_byte(t[k]));
            assert(skip_trivia(t, k) == k);
        }
        assert(t.subrange(skip_trivia(t, k), t.len() as int) =~= render_doc(rest));
        lemma_child_names_render(t, k, rest);
        assert(child_names(t, i) =~= seq![e0.name] + child_names(t, k));
        assert(entry_names(es) =~= seq![e0.name] + entry_names(rest));
    }
}

/// Extraction is exact: when the named node's block consists of the
/// rendering of well-formed entries, the extracted child names are
/// exactly those entries' names, in order.
pub proof fn lemma_extract_exact(ns: Seq<GNode>, name: Seq<u8>, es: Seq<GNode>)
    requires
        forall|k: int| 0 <= k < es.len() ==> entry_wf(#[trigger] es[k]),
        get_node(ns, name) matches Some(n) && n.block == Some(render_doc(es)),
    ensures
        spec_extract(ns, name) == entry_names(es),
{
    let b = render_doc(es);
    if es.len() == 0 {
        assert(b =~= Seq::<u8>::empty());
        assert(skip_trivia(b, 0) == 0);
    } else {
        assert(b =~= render_node(es[0]) + render_doc(es.drop_first()));
        assert(b[0] == es[0].name[0]);
        assert(is_name_byte(b[0]));
        assert(skip_trivia(b, 0) == 0);
    }
    assert(b.subrange(skip_trivia(b, 0), b.len() as int) =~= b);
    lemma_child_names_render(b, 0, es);
}

/// Extraction from a document that lacks the named node yields the
/// empty sequence.
pub proof fn lemma_extract_absent(ns: Seq<GNode>, name: Seq<u8>)
    requires
        get_node(ns, name) is None,
    ensures
        spec_extract(ns, name) == Seq::<Seq<u8>>::empty(),
{
}


// ---------------------------------------------------------------------
// Re-parsing rendered documents
// ---------------------------------------------------------------------
/// The space scanner stays inside the text.
proof fn lemma_skip_spaces_props(t: Seq<u8>, i: int)
    requires
        0 <= i <= t.len(),
    ensures
        i <= skip_spaces(t, i) <= t.len(),
    decreases t.len() - i,
{
    if i < t.len() && is_space_byte(t[i]) {
        lemma_skip_spaces_props(t, i + 1);
    }
}

/// Every byte a name scan walked over is a name byte.
proof fn lemma_name_end_props(t: Seq<u8>, i: int)
    requires
        0 <= i <= t.len(),
    ensures
        i <= name_end(t, i) <= t.len(),
        forall|m: int| i <= m < name_end(t, i) ==> is_name_byte(#[trigger] t[m]),
    decreases t.len() - i,
{
    if i < t.len() && is_name_byte(t[i]) {
        lemma_name_end_props(t, i + 1);
    }
}

/// A successful quote scan ends on a quote, with no quote or line
/// break before it.
proof fn lemma_quote_end_props(t: Seq<u8>, i: int)
    requires
        0 <= i,
        quote_end(t, i) is Some,
    ensures
        match quote_end(t, i) {
            Some(q) => i <= q < t.len() && t[q] == 34 && forall|m: int|
                i <= m < q ==> t[m] != 34 && t[m] != 10 && t[m] != 13,
            None => true,
        },
    decreases t.len() - i,
{
    if 0 <= i < t.len() && t[i] != 34 && t[i] != 10 && t[i] != 13 {
        lemma_quote_end_props(t, i + 1);
    }
}

/// A successful brace scan ends on a closing brace, and scanning only
/// the window it walked over finds the same close.
proof fn lemma_block_end_restrict(t: Seq<u8>, i: int, e: int, j: int, depth: int, in_quote: bool)
    requires
        0 <= i <= j,
        block_end(t, j, depth, in_quote) == Some(e),
    ensures
        i <= j <= e < t.len(),
        t[e] == 125,
        block_end(t.subrange(i, e + 1), j - i, depth, in_quote) == Some(e - i),
    decreases t.len() - j,
{
    assert(j < t.len());
    let u = t.subrange(i, e + 1);
    if in_quote {
        if t[j] == 34 {
            lemma_block_end_restrict(t, i, e, j + 1, depth, false);
        } else {
            lemma_block_end_restrict(t, i, e, j + 1, depth, true);
        }
    } else if t[j] == 34 {
        lemma_block_end_restrict(t, i, e, j + 1, depth, true);
    } else if t[j] == 123 {
        lemma_block_end_restrict(t, i, e, j + 1, depth + 1, false);
    } else if t[j] == 125 {
        if depth == 1 {
        } else {
            lemma_block_end_restrict(t, i, e, j + 1, depth - 1, false);
        }
    } else {
        lemma_block_end_restrict(t, i, e, j + 1, depth, false);
    }
    lemma_subrange_index(t, i, e + 1, j - i);
    assert(u[j - i] == t[j]);
}

/// Every argument token a successful scan produced is well formed.
proof fn lemma_parse_args_wf(t: Seq<u8>, i: int)
    requires
        0 <= i <= t.len(),
        parse_args(t, i) is Some,
    ensures
        match parse_args(t, i) {
            Some((args, j)) => i <= j <= t.len() && forall|k: int|
                0 <= k < args.len() ==> token_ok(#[trigger] args[k]),
            None => true,
        },
    decreases t.len() - i,
{
    lemma_skip_spaces_props(t, i);
    let j = skip_spaces(t, i);
    if j >= t.len() || t[j] == 10 || t[j] == 13 || t[j] == 123 || t[j] == 125 {
    } else if t[j] == 34 {
        let q = quote_end(t, j + 1)->Some_0;
        lemma_quote_end_props(t, j + 1);
        let tok = t.subrange(j, q + 1);
        assert(quoted_token_ok(tok)) by {
            lemma_subrange_index(t, j, q + 1, 0);
            lemma_subrange_index(t, j, q + 1, q - j);
            assert forall|k: int| 1 <= k < tok.len() - 1 implies tok[k] != 34 && tok[k] != 10
                && tok[k] != 13 by {
                lemma_subrange_index(t, j, q + 1, k);
            }
        }
        lemma_parse_args_wf(t, q + 1);
        let rest = parse_args(t, q + 1)->Some_0.0;
        assert forall|k: int|
            0 <= k < (seq![tok] + rest).len() implies token_ok(#[trigger] (seq![tok] + rest)[k]) by {
            if k == 0 {
                assert((seq![tok] + rest)[0] == tok);
            } else {
                assert((seq![tok] + rest)[k] == rest[k - 1]);
            }
        }
    } else {
        lemma_name_end_props(t, j);
        let e = name_end(t, j);
        if e > j && e <= t.len() {
            let tok = t.subrange(j, e);
            assert(bare_token_ok(tok)) by {
                assert forall|k: int| 0 <= k < tok.len() implies is_name_byte(tok[k]) by {
                    lemma_subrange_index(t, j, e, k);
                }
            }
            lemma_parse_args_wf(t, e);
            let rest = parse_args(t, e)->Some_0.0;
            assert forall|k: int|
                0 <= k < (seq![tok] + rest).len() implies token_ok(
                #[trigger] (seq![tok] + rest)[k],
            ) by {
                if k == 0 {
                    assert((seq![tok] + rest)[0] == tok);
                } else {
                    assert((seq![tok] + rest)[k] == rest[k - 1]);
                }
            }
        }
    }
}

/// A node a successful parse produced is well formed.
proof fn lemma_parse_node_wf(t: Seq<u8>, i: int)
    requires
        parse_node(t, i) is Some,
    ensures
        match parse_node(t, i) {
            Some((n, k)) => entry_wf(n) && i < k <= t.len(),
            None => true,
        },
{
    assert(0 <= i < t.len() && is_name_byte(t[i]));
    lemma_name_end_props(t, i);
    let e = name_end(t, i);
    let name = t.subrange(i, e);
    assert(e > i);
    assert(bare_token_ok(name)) by {
        assert forall|k: int| 0 <= k < name.len() implies is_name_byte(name[k]) by {
            lemma_subrange_index(t, i, e, k);
        }
    }
    lemma_parse_args_wf(t, e);
    let (args, j) = parse_args(t, e)->Some_0;
    if j >= t.len() || t[j] == 10 || t[j] == 13 {
        assert(j > i);
    } else {
        let c = block_end(t, j + 1, 1, false)->Some_0;
        lemma_block_end_restrict(t, j + 1, c, j + 1, 1, false);
        let b = t.subrange(j + 1, c);
        assert(block_ok(b)) by {
            assert(b.push(125u8) =~= t.subrange(j + 1, c + 1)) by {
                assert forall|k: int|
                    0 <= k < c + 1 - (j + 1) implies t.subrange(j + 1, c + 1)[k] == b.push(
                    125u8,
                )[k] by {
                    lemma_subrange_index(t, j + 1, c + 1, k);
                    if k < c - (j + 1) {
                        lemma_subrange_index(t, j + 1, c, k);
                    }
                }
            }
        }
    }
}

/// Every node of a successfully parsed document is well formed.
pub proof fn lemma_parse_yields_wf(t: Seq<u8>, i: int)
    requires
        0 <= i <= t.len(),
        parse_tops(t, i) is Some,
    ensures
        match parse_tops(t, i) {
            Some(ns) => forall|k: int| 0 <= k < ns.len() ==> entry_wf(#[trigger] ns[k]),
            None => true,
        },
    decreases t.len() - i,
{
    lemma_skip_trivia_props(t, i);
    let j = skip_trivia(t, i);
    if j < t.len() {
        lemma_parse_node_wf(t, j);
        let (n, k) = parse_node(t, j)->Some_0;
        lemma_parse_yields_wf(t, k);
        let rest = parse_tops(t, k)->Some_0;
        assert forall|p: int|
            0 <= p < (seq![n] + rest).len() implies entry_wf(#[trigger] (seq![n] + rest)[p]) by {
            if p == 0 {
                assert((seq![n] + rest)[0] == n);
            } else {
                assert((seq![n] + rest)[p] == rest[p - 1]);
            }
        }
    }
}

/// An upsert into a well-formed document with a well-formed name and
/// value yields a well-formed document.
pub proof fn lemma_upsert_preserves_wf(ns: Seq<GNode>, name: Seq<u8>, value: Seq<u8>)
    requires
        forall|k: int| 0 <= k < ns.len() ==> entry_wf(#[trigger] ns[k]),
        bare_token_ok(name),
        value_ok(value),
    ensures
        forall|k: int|
            0 <= k < spec_upsert(ns, name, value).len() ==> entry_wf(
                #[trigger] spec_upsert(ns, name, value)[k],
            ),
{
    lemma_find_node_names(ns, name);
    let qv = quoted(value);
    assert(quoted_token_ok(qv)) by {
        assert(qv[0] == 34);
        assert(qv[qv.len() - 1] == 34);
        assert forall|k: int| 1 <= k < qv.len() - 1 implies qv[k] != 34 && qv[k] != 10 && qv[k]
            != 13 by {
            assert(qv[k] == value[k - 1]);
        }
    }
    let up = spec_upsert(ns, name, value);
    match find_node(ns, name) {
        Some(i) => {
            let n = GNode { name: ns[i].name, args: seq![qv], block: ns[i].block };
            assert(entry_wf(n)) by {
                assert(bare_token_ok(ns[i].name));
                assert forall|k: int| 0 <= k < n.args.len() implies token_ok(
                    #[trigger] n.args[k],
                ) by {
                    assert(n.args[k] == qv);
                }
            }
            assert forall|k: int| 0 <= k < up.len() implies entry_wf(#[trigger] up[k]) by {
                if k != i {
                    assert(up[k] == ns[k]);
                }
            }
        },
        None => {
            let n = GNode { name, args: seq![qv], block: None };
            assert(entry_wf(n)) by {
                assert forall|k: int| 0 <= k < n.args.len() implies token_ok(
                    #[trigger] n.args[k],
                ) by {
                    assert(n.args[k] == qv);
                }
            }
            assert forall|k: int| 0 <= k < up.len() implies entry_wf(#[trigger] up[k]) by {
                if k < ns.len() {
                    assert(up[k] == ns[k]);
                } else {
                    assert(up[k] == n);
                }
            }
        },
    }
}


/// A text whose remainder (after leading trivia) is the rendering of
/// well-formed nodes parses back to exactly those nodes.
#[verifier::rlimit(80)]
pub proof fn lemma_parse_render_id(t: Seq<u8>, i: int, es: Seq<GNode>)
    requires
        0 <= i <= t.len(),
        forall|k: int| 0 <= k < es.len() ==> entry_wf(#[trigger] es[k]),
        t.subrange(skip_trivia(t, i), t.len() as int) == render_doc(es),
    ensures
        parse_tops(t, i) == Some(es),
    decreases es.len(),
{
    lemma_skip_trivia_props(t, i);
    let j = skip_trivia(t, i);
    if es.len() == 0 {
        assert(render_doc(es) =~= Seq::<u8>::empty());
        assert(j == t.len());
        assert(parse_tops(t, i) == Some(Seq::<GNode>::empty()));
        assert(es =~= Seq::<GNode>::empty());
    } else {
        let e0 = es[0];
        let rest = es.drop_first();
        let rn = render_node(e0);
        let ra = render_args(e0.args);
        let blockpart: Seq<u8> = match e0.block {
            None => Seq::empty(),
            Some(b) => seq![123u8] + b + seq![125u8],
        };
        assert(rn =~= e0.name + ra + blockpart + seq![10u8]);
        let cm = e0.name + ra + blockpart + seq![10u8];
        assert(rn.len() == e0.name.len() + ra.len() + blockpart.len() + 1);
        let w = rn + render_doc(rest);
        assert(t.subrange(j, t.len() as int) == w);
        assert(w.len() == t.len() - j);
        assert forall|x: int| 0 <= x < w.len() implies #[trigger] w[x] == t[j + x] by {
            lemma_subrange_index(t, j, t.len() as int, x);
        }
        // the name
        assert(cm[0] == e0.name[0]);
        assert(w[0] == e0.name[0]);
        assert(t[j] == e0.name[0]);
        assert(is_name_byte(t[j]));
        let p = j + e0.name.len();
        assert(t.subrange(j, p) =~= e0.name) by {
            assert forall|k: int| 0 <= k < e0.name.len() implies t.subrange(j, p)[k]
                == e0.name[k] by {
                lemma_subrange_index(t, j, p, k);
                assert(cm[k] == e0.name[k]);
                assert(w[k] == e0.name[k]);
            }
        }
        assert(cm[e0.name.len() as int] == w[e0.name.len() as int]);
        if ra.len() > 0 {
            assert(ra =~= seq![32u8] + e0.args[0] + render_args(e0.args.drop_first()));
            assert(cm[e0.name.len() as int] == 32);
            assert(w[e0.name.len() as int] == 32);
        } else {
            match e0.block {
                None => {
                    assert(cm[e0.name.len() as int] == 10);
                    assert(w[e0.name.len() as int] == 10);
                },
                Some(b) => {
                    assert(cm[e0.name.len() as int] == 123);
                    assert(w[e0.name.len() as int] == 123);
                },
            }
        }
        assert(!is_name_byte(t[p]));
        lemma_name_end_window(t, j, e0.name);
        assert(name_end(t, j) == p);
        // the arguments
        let m = p + ra.len();
        assert(t.subrange(p, m) =~= ra) by {
            assert forall|k: int| 0 <= k < ra.len() implies t.subrange(p, m)[k] == ra[k] by {
                lemma_subrange_index(t, p, m, k);
                assert(cm[e0.name.len() + k] == ra[k]);
                assert(w[e0.name.len() + k] == ra[k]);
            }
        }
        match e0.block {
            None => {
                assert(cm[e0.name.len() as int + ra.len()] == 10);
                assert(w[e0.name.len() as int + ra.len()] == 10);
                assert(t[m] == 10);
            },
            Some(b) => {
                assert(cm[e0.name.len() as int + ra.len()] == 123);
                assert(w[e0.name.len() as int + ra.len()] == 123);
                assert(t[m] == 123);
            },
        }
        lemma_parse_args_render(t, p, e0.args);
        assert(parse_args(t, p) == Some((e0.args, m)));
        // the node and its terminator
        let k: int = match e0.block {
            None => {
                assert(parse_node(t, j) == Some((GNode { name: e0.name, args: e0.args, block: None }, m)));
                assert(GNode { name: e0.name, args: e0.args, block: None } == e0);
                m
            },
            Some(b) => {
                let u = b.push(125u8);
                assert(blockpart.len() == b.len() + 2);
                assert(t.subrange(m + 1, m + 1 + u.len()) =~= u) by {
                    assert forall|x: int| 0 <= x < u.len() implies t.subrange(
                        m + 1,
                        m + 1 + u.len(),
                    )[x] == u[x] by {
                        lemma_subrange_index(t, m + 1, m + 1 + u.len(), x);
                        assert(blockpart[1 + x] == u[x]);
                        assert(cm[e0.name.len() + ra.len() + 1 + x] == blockpart[1 + x]);
                        assert(w[e0.name.len() + ra.len() + 1 + x] == blockpart[1 + x]);
                    }
                }
                lemma_block_end_window(t, m + 1, u, 0, 1, false);
                let c = m + 1 + b.len();
                assert(block_end(t, m + 1, 1, false) == Some(c));
                assert(t.subrange(m + 1, c) =~= b) by {
                    assert forall|x: int| 0 <= x < b.len() implies t.subrange(m + 1, c)[x]
                        == b[x] by {
                        lemma_subrange_index(t, m + 1, c, x);
                        assert(blockpart[1 + x] == b[x]);
                        assert(cm[e0.name.len() + ra.len() + 1 + x] == blockpart[1 + x]);
                        assert(w[e0.name.len() + ra.len() + 1 + x] == blockpart[1 + x]);
                    }
                }
                assert(parse_node(t, j) == Some(
                    (GNode { name: e0.name, args: e0.args, block: Some(b) }, c + 1),
                ));
                assert(GNode { name: e0.name, args: e0.args, block: Some(b) } == e0);
                c + 1
            },
        };
        assert(k == j + rn.len() - 1);
        assert(w[rn.len() - 1] == cm[rn.len() - 1]);
        assert(cm[rn.len() - 1] == 10);
        assert(t[k] == 10);
        // the remainder is the rendering of the remaining nodes
        assert(t.subrange(k + 1, t.len() as int) =~= render_doc(rest)) by {
            assert forall|x: int|
                0 <= x < t.len() - (k + 1) implies t.subrange(k + 1, t.len() as int)[x]
                == render_doc(rest)[x] by {
                lemma_subrange_index(t, k + 1, t.len() as int, x);
                assert(w[rn.len() + x] == render_doc(rest)[x]);
                assert(t[k + 1 + x] == render_doc(rest)[x]);
            }
        }
        if rest.len() == 0 {
            assert(k + 1 == t.len());
            assert(skip_trivia(t, k + 1) == k + 1);
            assert(skip_trivia(t, k) == k + 1);
        } else {
            assert(render_doc(rest) =~= render_node(rest[0]) + render_doc(rest.drop_first()));
            assert(render_node(rest[0]) =~= rest[0].name + render_args(rest[0].args) + (match rest[0].block {
                None => Seq::<u8>::empty(),
                Some(bb) => seq![123u8] + bb + seq![125u8],
            }) + seq![10u8]);
            assert((rest[0].name + render_args(rest[0].args) + (match rest[0].block {
                None => Seq::<u8>::empty(),
                Some(bb) => seq![123u8] + bb + seq![125u8],
            }) + seq![10u8])[0] == rest[0].name[0]);
            assert((render_node(rest[0]) + render_doc(rest.drop_first()))[0] == render_node(
                rest[0],
            )[0]);
            assert(render_doc(rest)[0] == rest[0].name[0]);
            assert(w[rn.len() as int] == render_doc(rest)[0]);
            assert(t[k + 1] == rest[0].name[0]);
            assert(is_name_byte(t[k + 1]));
            assert(skip_trivia(t, k + 1) == k + 1);
            assert(skip_trivia(t, k) == k + 1);
        }
        assert(t.subrange(skip_trivia(t, k), t.len() as int) =~= render_doc(rest));
        lemma_parse_render_id(t, k, rest);
        assert(parse_tops(t, k) == Some(rest));
        assert(seq![e0] + rest =~= es);
        assert(parse_tops(t, i) == Some(es));
    }
}

/// Serialization is a fixed point under re-parsing: the rendered text
/// of an upsert into any well-formed document — such as one obtained
/// by parsing — parses back to exactly the upserted document, so
/// rendering it again reproduces the same bytes.
pub proof fn lemma_serialize_fixed_point(ns: Seq<GNode>, name: Seq<u8>, value: Seq<u8>)
    requires
        forall|k: int| 0 <= k < ns.len() ==> entry_wf(#[trigger] ns[k]),
        bare_token_ok(name),
        value_ok(value),
    ensures
        crate::document::spec_parse(render_doc(spec_upsert(ns, name, value))) == Some(
            spec_upsert(ns, name, value),
        ),
{
    lemma_upsert_preserves_wf(ns, name, value);
    lemma_find_node_names(ns, name);
    let up = spec_upsert(ns, name, value);
    let b = render_doc(up);
    assert(up.len() > 0);
    assert(b =~= render_node(up[0]) + render_doc(up.drop_first()));
    assert(render_node(up[0]) =~= up[0].name + render_args(up[0].args) + (match up[0].block {
        None => Seq::<u8>::empty(),
        Some(bb) => seq![123u8] + bb + seq![125u8],
    }) + seq![10u8]);
    assert(entry_wf(up[0]));
    assert((up[0].name + render_args(up[0].args) + (match up[0].block {
        None => Seq::<u8>::empty(),
        Some(bb) => seq![123u8] + bb + seq![125u8],
    }) + seq![10u8])[0] == up[0].name[0]);
    assert((render_node(up[0]) + render_doc(up.drop_first()))[0] == render_node(up[0])[0]);
    assert(b[0] == up[0].name[0]);
    assert(is_name_byte(b[0]));
    assert(skip_trivia(b, 0) == 0);
    assert(b.subrange(skip_trivia(b, 0), b.len() as int) =~= b);
    lemma_parse_render_id(b, 0, up);
}

} // verus!
