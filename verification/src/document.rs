//! The structured-document adapter: a hierarchical, human-editable
//! config format of named nodes with ordered scalar arguments and an
//! optional braced children block.
//!
//! A document is a sequence of top-level nodes.  A node is written as a
//! bare name, then arguments (bare words or quoted strings), then
//! optionally a `{ ... }` block, and runs to the end of its line.  The
//! bytes of a block are kept verbatim, so untouched nodes survive a
//! parse/serialize round trip unchanged; the operations here only ever
//! read child node names out of a block and replace the arguments of a
//! named top-level node.
//!
//! The grammar is defined by the `spec` scanners and parsers in this
//! module; every executable function is proved to return exactly what
//! its `spec` counterpart denotes, so "on which inputs does `parse`
//! succeed" is answered by `spec_parse` itself.

use vstd::prelude::*;

verus! {

/// A malformed document: the typed failure of `parse`.
#[derive(Debug, Clone, Copy, PartialEq, Eq, Structural)]
pub struct ParseError;

// ---------------------------------------------------------------------
// Byte classes
// ---------------------------------------------------------------------
/// Whitespace between nodes: space, tab, line feed, carriage return.
pub open spec fn is_trivia_byte(b: u8) -> bool {
    b == 32 || b == 9 || b == 10 || b == 13
}

/// Whitespace between tokens on one line: space or tab.
pub open spec fn is_space_byte(b: u8) -> bool {
    b == 32 || b == 9
}

/// A byte that may appear in a bare name or bare argument: anything but
/// whitespace, the double quote, and the two braces.
pub open spec fn is_name_byte(b: u8) -> bool {
    !(b == 32 || b == 9 || b == 10 || b == 13 || b == 34 || b == 123 || b == 125)
}

fn trivia_byte(b: u8) -> (r: bool)
    ensures
        r == is_trivia_byte(b),
{
    b == 32 || b == 9 || b == 10 || b == 13
}

fn space_byte(b: u8) -> (r: bool)
    ensures
        r == is_space_byte(b),
{
    b == 32 || b == 9
}

fn name_byte(b: u8) -> (r: bool)
    ensures
        r == is_name_byte(b),
{
    !(b == 32 || b == 9 || b == 10 || b == 13 || b == 34 || b == 123 || b == 125)
}

// ---------------------------------------------------------------------
// Scanners: the positions where runs of bytes end
// ---------------------------------------------------------------------
/// First position at or after `i` that does not hold trivia.
pub open spec fn skip_trivia(t: Seq<u8>, i: int) -> int
    decreases t.len() - i,
{
    if 0 <= i < t.len() && is_trivia_byte(t[i]) {
        skip_trivia(t, i + 1)
    } else {
        i
    }
}

/// First position at or after `i` that does not hold a space or tab.
pub open spec fn skip_spaces(t: Seq<u8>, i: int) -> int
    decreases t.len() - i,
{
    if 0 <= i < t.len() && is_space_byte(t[i]) {
        skip_spaces(t, i + 1)
    } else {
        i
    }
}

/// First position at or after `i` that does not hold a name byte.
pub open spec fn name_end(t: Seq<u8>, i: int) -> int
    decreases t.len() - i,
{
    if 0 <= i < t.len() && is_name_byte(t[i]) {
        name_end(t, i + 1)
    } else {
        i
    }
}

/// Position of the closing quote of a quoted argument whose content
/// starts at `i`; `None` if the line or the text ends first.
pub open spec fn quote_end(t: Seq<u8>, i: int) -> Option<int>
    decreases t.len() - i,
{
    if !(0 <= i < t.len()) {
        None
    } else if t[i] == 34 {
        Some(i)
    } else if t[i] == 10 || t[i] == 13 {
        None
    } else {
        quote_end(t, i + 1)
    }
}

/// Position of the closing brace that brings the nesting depth back to
/// zero, scanning from `i` with `depth` braces currently open; braces
/// inside quoted strings do not count.  `None` if the text ends first.
pub open spec fn block_end(t: Seq<u8>, i: int, depth: int, in_quote: bool) -> Option<int>
    decreases t.len() - i,
{
    if !(0 <= i < t.len()) {
        None
    } else if in_quote {
        if t[i] == 34 {
            block_end(t, i + 1, depth, false)
        } else {
            block_end(t, i + 1, depth, true)
        }
    } else if t[i] == 34 {
        block_end(t, i + 1, depth, true)
    } else if t[i] == 123 {
        block_end(t, i + 1, depth + 1, false)
    } else if t[i] == 125 {
        if depth == 1 {
            Some(i)
        } else {
            block_end(t, i + 1, depth - 1, false)
        }
    } else {
        block_end(t, i + 1, depth, false)
    }
}

/// Position just past a line end at `m`: consumes one `\n`, `\r` or
/// `\r\n`; anything else is left in place.
pub open spec fn eat_line_end(t: Seq<u8>, m: int) -> int {
    if 0 <= m < t.len() && t[m] == 10 {
        m + 1
    } else if 0 <= m < t.len() && t[m] == 13 {
        if m + 1 < t.len() && t[m + 1] == 10 {
            m + 2
        } else {
            m + 1
        }
    } else {
        m
    }
}

// ---------------------------------------------------------------------
// The grammar
// ---------------------------------------------------------------------
/// The arguments of a node, read from `i`: space-separated bare words
/// and quoted strings, each kept as its raw token bytes.  Stops before
/// the byte that terminates the argument list (line end, brace, or the
/// end of the text); fails on an unterminated quote.
pub open spec fn parse_args(t: Seq<u8>, i: int) -> Option<(Seq<Seq<u8>>, int)>
    decreases t.len() - i,
{
    let j = skip_spaces(t, i);
    if j < i {
        None
    } else if j >= t.len() {
        Some((Seq::empty(), j))
    } else if t[j] == 10 || t[j] == 13 || t[j] == 123 || t[j] == 125 {
        Some((Seq::empty(), j))
    } else if t[j] == 34 {
        match quote_end(t, j + 1) {
            None => None,
            Some(q) => if q < j + 1 || q + 1 > t.len() {
                None
            } else {
                match parse_args(t, q + 1) {
                    None => None,
                    Some((rest, m)) => Some((seq![t.subrange(j, q + 1)] + rest, m)),
                }
            },
        }
    } else {
        let e = name_end(t, j);
        if e <= j || e > t.len() {
            None
        } else {
            match parse_args(t, e) {
                None => None,
                Some((rest, m)) => Some((seq![t.subrange(j, e)] + rest, m)),
            }
        }
    }
}

/// The mathematical form of a top-level node: its name, the raw token
/// bytes of each argument, and the raw bytes of its block when one is
/// present.
pub ghost struct GNode {
    pub name: Seq<u8>,
    pub args: Seq<Seq<u8>>,
    pub block: Option<Seq<u8>>,
}

/// One node read from position `i`, which must hold a name byte.
/// Returns the node and the position of its terminator: the line end
/// after its arguments, or just past the `}` of its block.
pub open spec fn parse_node(t: Seq<u8>, i: int) -> Option<(GNode, int)> {
    if !(0 <= i < t.len() && is_name_byte(t[i])) {
        None
    } else {
        let e = name_end(t, i);
        let name = t.subrange(i, e);
        match parse_args(t, e) {
            None => None,
            Some((args, j)) => if j >= t.len() || t[j] == 10 || t[j] == 13 {
                Some((GNode { name, args, block: None }, j))
            } else if t[j] == 123 {
                match block_end(t, j + 1, 1, false) {
                    None => None,
                    Some(c) => Some((GNode { name, args, block: Some(t.subrange(j + 1, c)) }, c + 1)),
                }
            } else {
                None
            },
        }
    }
}

/// The nodes of the document from position `i` to the end of the text.
pub open spec fn parse_tops(t: Seq<u8>, i: int) -> Option<Seq<GNode>>
    decreases t.len() - i,
{
    let j = skip_trivia(t, i);
    if j < i {
        None
    } else if j >= t.len() {
        Some(Seq::empty())
    } else {
        match parse_node(t, j) {
            None => None,
            Some((n, k)) => if k <= j || k > t.len() {
                None
            } else {
                match parse_tops(t, k) {
                    None => None,
                    Some(rest) => Some(seq![n] + rest),
                }
            },
        }
    }
}

/// What `parse` accepts, and the document it yields.
pub open spec fn spec_parse(t: Seq<u8>) -> Option<Seq<GNode>> {
    parse_tops(t, 0)
}

// ---------------------------------------------------------------------
// Rendering
// ---------------------------------------------------------------------
/// The canonical text of an argument list: one space before each token.
pub open spec fn render_args(args: Seq<Seq<u8>>) -> Seq<u8>
    decreases args.len(),
{
    if args.len() == 0 {
        Seq::empty()
    } else {
        seq![32u8] + args[0] + render_args(args.drop_first())
    }
}

/// The canonical text of one node: name, arguments, verbatim block in
/// braces when present, and a closing line feed.
pub open spec fn render_node(n: GNode) -> Seq<u8> {
    n.name + render_args(n.args) + (match n.block {
        None => Seq::<u8>::empty(),
        Some(b) => seq![123u8] + b + seq![125u8],
    }) + seq![10u8]
}

/// The canonical text of a document.
pub open spec fn render_doc(ns: Seq<GNode>) -> Seq<u8>
    decreases ns.len(),
{
    if ns.len() == 0 {
        Seq::empty()
    } else {
        render_node(ns[0]) + render_doc(ns.drop_first())
    }
}

/// Rendering distributes over concatenation of documents.
pub proof fn lemma_render_doc_concat(a: Seq<GNode>, b: Seq<GNode>)
    ensures
        render_doc(a + b) == render_doc(a) + render_doc(b),
    decreases a.len(),
{
    if a.len() == 0 {
        assert(a + b =~= b);
        assert(render_doc(a) + render_doc(b) =~= render_doc(b));
    } else {
        assert((a + b).drop_first() =~= a.drop_first() + b);
        lemma_render_doc_concat(a.drop_first(), b);
        assert(render_doc(a + b) =~= render_doc(a) + render_doc(b));
    }
}

// ---------------------------------------------------------------------
// Queries and mutation on the mathematical document
// ---------------------------------------------------------------------
/// Index of the first node with the given name.
pub open spec fn find_node(ns: Seq<GNode>, name: Seq<u8>) -> Option<int>
    decreases ns.len(),
{
    if ns.len() == 0 {
        None
    } else if ns[0].name == name {
        Some(0int)
    } else {
        match find_node(ns.drop_first(), name) {
            None => None,
            Some(k) => Some(k + 1),
        }
    }
}

/// The first node with the given name, when there is one.
pub open spec fn get_node(ns: Seq<GNode>, name: Seq<u8>) -> Option<GNode> {
    match find_node(ns, name) {
        None => None,
        Some(i) => Some(ns[i]),
    }
}

/// The raw token of a quoted scalar value.
pub open spec fn quoted(v: Seq<u8>) -> Seq<u8> {
    seq![34u8] + v + seq![34u8]
}

/// A value that can be carried by a quoted token: no quote and no line
/// break inside it.
pub open spec fn value_ok(v: Seq<u8>) -> bool {
    forall|k: int| 0 <= k < v.len() ==> v[k] != 34 && v[k] != 10 && v[k] != 13
}

/// Replace the arguments of the first node with the given name by the
/// single quoted value, keeping its block; append a fresh node with
/// that value when no node has the name.
pub open spec fn spec_upsert(ns: Seq<GNode>, name: Seq<u8>, value: Seq<u8>) -> Seq<GNode> {
    match find_node(ns, name) {
        Some(i) => ns.update(
            i,
            GNode { name: ns[i].name, args: seq![quoted(value)], block: ns[i].block },
        ),
        None => ns.push(GNode { name, args: seq![quoted(value)], block: None }),
    }
}

/// The names of the child nodes written in a block, in order.  Scanning
/// stops at the first position that does not begin a well-formed child
/// node.
pub open spec fn child_names(t: Seq<u8>, i: int) -> Seq<Seq<u8>>
    decreases t.len() - i,
{
    let j = skip_trivia(t, i);
    if j < i || j >= t.len() || !is_name_byte(t[j]) {
        Seq::empty()
    } else {
        let e = name_end(t, j);
        let name = t.subrange(j, e);
        match skip_node_tail(t, e) {
            None => seq![name],
            Some(k) => if k <= j || k > t.len() {
                seq![name]
            } else {
                seq![name] + child_names(t, k)
            },
        }
    }
}

/// Position just past one child node whose name ends at `i`: past its
/// arguments, its block when present, and its line end.
pub open spec fn skip_node_tail(t: Seq<u8>, i: int) -> Option<int> {
    match parse_args(t, i) {
        None => None,
        Some((args, j)) => if j >= t.len() {
            Some(j)
        } else if t[j] == 10 || t[j] == 13 {
            Some(eat_line_end(t, j))
        } else if t[j] == 123 {
            match block_end(t, j + 1, 1, false) {
                None => None,
                Some(c) => Some(eat_line_end(t, c + 1)),
            }
        } else {
            None
        },
    }
}

/// The names of a sequence of nodes, in order.
pub open spec fn entry_names(es: Seq<GNode>) -> Seq<Seq<u8>> {
    es.map_values(|e: GNode| e.name)
}

/// The child node names under the first node with the given name; empty
/// when the node is absent or has no block.
pub open spec fn spec_extract(ns: Seq<GNode>, name: Seq<u8>) -> Seq<Seq<u8>> {
    match get_node(ns, name) {
        None => Seq::empty(),
        Some(n) => match n.block {
            None => Seq::empty(),
            Some(b) => child_names(b, 0),
        },
    }
}

// ---------------------------------------------------------------------
// Executable document
// ---------------------------------------------------------------------
/// A top-level node as held in memory; its view is the `GNode` with the
/// same fields.
pub struct TopNode {
    pub name: Vec<u8>,
    pub args: Vec<Vec<u8>>,
    pub block: Option<Vec<u8>>,
}

impl View for TopNode {
    type V = GNode;

    open spec fn view(&self) -> GNode {
        GNode {
            name: self.name@,
            args: self.args.deep_view(),
            block: match self.block {
                Some(b) => Some(b@),
                None => None,
            },
        }
    }
}

impl DeepView for TopNode {
    type V = GNode;

    open spec fn deep_view(&self) -> GNode {
        self.view()
    }
}

/// A parsed document: its top-level nodes in order.
pub struct Document {
    pub nodes: Vec<TopNode>,
}

impl View for Document {
    type V = Seq<GNode>;

    open spec fn view(&self) -> Seq<GNode> {
        self.nodes.deep_view()
    }
}

// ---------------------------------------------------------------------
// Executable scanners
// ---------------------------------------------------------------------
fn skip_trivia_at(t: &[u8], i: usize) -> (r: usize)
    requires
        i <= t@.len(),
    ensures
        r == skip_trivia(t@, i as int),
        i <= r <= t@.len(),
        r == t@.len() || !is_trivia_byte(t@[r as int]),
    decreases t@.len() - i,
{
    if i < t.len() && trivia_byte(t[i]) {
        skip_trivia_at(t, i + 1)
    } else {
        i
    }
}

fn skip_spaces_at(t: &[u8], i: usize) -> (r: usize)
    requires
        i <= t@.len(),
    ensures
        r == skip_spaces(t@, i as int),
        i <= r <= t@.len(),
        r == t@.len() || !is_space_byte(t@[r as int]),
    decreases t@.len() - i,
{
    if i < t.len() && space_byte(t[i]) {
        skip_spaces_at(t, i + 1)
    } else {
        i
    }
}

fn name_end_at(t: &[u8], i: usize) -> (r: usize)
    requires
        i <= t@.len(),
    ensures
        r == name_end(t@, i as int),
        i <= r <= t@.len(),
        r == t@.len() || !is_name_byte(t@[r as int]),
        i < t@.len() && is_name_byte(t@[i as int]) ==> r > i,
    decreases t@.len() - i,
{
    if i < t.len() && name_byte(t[i]) {
        name_end_at(t, i + 1)
    } else {
        i
    }
}

fn quote_end_at(t: &[u8], i: usize) -> (r: Option<usize>)
    requires
        i <= t@.len(),
    ensures
        match r {
            Some(q) => quote_end(t@, i as int) == Some(q as int) && i <= q < t@.len(),
            None => quote_end(t@, i as int) is None,
        },
    decreases t@.len() - i,
{
    if i >= t.len() {
        None
    } else if t[i] == 34 {
        Some(i)
    } else if t[i] == 10 || t[i] == 13 {
        None
    } else {
        quote_end_at(t, i + 1)
    }
}

fn block_end_at(t: &[u8], i: usize, depth: usize, in_quote: bool) -> (r: Option<usize>)
    requires
        i <= t@.len(),
        1 <= depth <= i,
    ensures
        match r {
            Some(c) => block_end(t@, i as int, depth as int, in_quote) == Some(c as int) && i <= c
                < t@.len(),
            None => block_end(t@, i as int, depth as int, in_quote) is None,
        },
    decreases t@.len() - i,
{
    if i >= t.len() {
        None
    } else if in_quote {
        if t[i] == 34 {
            block_end_at(t, i + 1, depth, false)
        } else {
            block_end_at(t, i + 1, depth, true)
        }
    } else if t[i] == 34 {
        block_end_at(t, i + 1, depth, true)
    } else if t[i] == 123 {
        block_end_at(t, i + 1, depth + 1, false)
    } else if t[i] == 125 {
        if depth == 1 {
            Some(i)
        } else {
            block_end_at(t, i + 1, depth - 1, false)
        }
    } else {
        block_end_at(t, i + 1, depth, false)
    }
}

fn eat_line_end_at(t: &[u8], m: usize) -> (r: usize)
    requires
        m <= t@.len(),
    ensures
        r == eat_line_end(t@, m as int),
        m <= r <= t@.len(),
{
    if m < t.len() && t[m] == 10 {
        m + 1
    } else if m < t.len() && t[m] == 13 {
        if m + 1 < t.len() && t[m + 1] == 10 {
            m + 2
        } else {
            m + 1
        }
    } else {
        m
    }
}

/// The bytes of `t` between `a` and `b`, as a fresh vector.
fn copy_range(t: &[u8], a: usize, b: usize) -> (r: Vec<u8>)
    requires
        a <= b <= t@.len(),
    ensures
        r@ == t@.subrange(a as int, b as int),
{
    let mut out: Vec<u8> = Vec::new();
    let mut k = a;
    while k < b
        invariant
            a <= k <= b <= t@.len(),
            out@ == t@.subrange(a as int, k as int),
        decreases b - k,
    {
        out.push(t[k]);
        k = k + 1;
        proof {
            assert(t@.subrange(a as int, k as int) =~= t@.subrange(a as int, k as int - 1).push(
                t@[k as int - 1],
            ));
        }
    }
    out
}

/// Byte-for-byte equality of two slices.
pub fn bytes_eq(a: &[u8], b: &[u8]) -> (r: bool)
    ensures
        r == (a@ == b@),
{
    if a.len() != b.len() {
        return false;
    }
    let mut k: usize = 0;
    while k < a.len()
        invariant
            k <= a.len(),
            a@.len() == b@.len(),
            forall|j: int| 0 <= j < k ==> a@[j] == b@[j],
        decreases a@.len() - k,
    {
        if a[k] != b[k] {
            return false;
        }
        k = k + 1;
    }
    proof {
        assert(a@ =~= b@);
    }
    true
}

// ---------------------------------------------------------------------
// Executable parser
// ---------------------------------------------------------------------
fn args_at(t: &[u8], i: usize) -> (r: Option<(Vec<Vec<u8>>, usize)>)
    requires
        i <= t@.len(),
    ensures
        match r {
            None => parse_args(t@, i as int) is None,
            Some((args, m)) => parse_args(t@, i as int) == Some((args.deep_view(), m as int)) && i
                <= m <= t@.len(),
        },
    decreases t@.len() - i,
{
    let j = skip_spaces_at(t, i);
    if j >= t.len() {
        let v: Vec<Vec<u8>> = Vec::new();
        proof {
            assert(v.deep_view() =~= Seq::<Seq<u8>>::empty());
        }
        Some((v, j))
    } else if t[j] == 10 || t[j] == 13 || t[j] == 123 || t[j] == 125 {
        let v: Vec<Vec<u8>> = Vec::new();
        proof {
            assert(v.deep_view() =~= Seq::<Seq<u8>>::empty());
        }
        Some((v, j))
    } else if t[j] == 34 {
        match quote_end_at(t, j + 1) {
            None => None,
            Some(q) => {
                let tok = copy_range(t, j, q + 1);
                let ghost gtok = tok@;
                match args_at(t, q + 1) {
                    None => None,
                    Some((mut rest, m)) => {
                        let ghost grest = rest.deep_view();
                        rest.insert(0, tok);
                        proof {
                            assert(rest.deep_view() =~~= seq![gtok] + grest);
                        }
                        Some((rest, m))
                    },
                }
            },
        }
    } else {
        let e = name_end_at(t, j);
        let tok = copy_range(t, j, e);
        let ghost gtok = tok@;
        match args_at(t, e) {
            None => None,
            Some((mut rest, m)) => {
                let ghost grest = rest.deep_view();
                rest.insert(0, tok);
                proof {
                    assert(rest.deep_view() =~~= seq![gtok] + grest);
                }
                Some((rest, m))
            },
        }
    }
}

fn node_at(t: &[u8], i: usize) -> (r: Option<(TopNode, usize)>)
    requires
        i < t@.len(),
    ensures
        match r {
            None => parse_node(t@, i as int) is None,
            Some((n, k)) => parse_node(t@, i as int) == Some((n@, k as int)) && i < k <= t@.len(),
        },
{
    if !name_byte(t[i]) {
        return None;
    }
    let e = name_end_at(t, i);
    let name = copy_range(t, i, e);
    match args_at(t, e) {
        None => None,
        Some((args, j)) => {
            if j >= t.len() || t[j] == 10 || t[j] == 13 {
                let n = TopNode { name, args, block: None };
                Some((n, j))
            } else if t[j] == 123 {
                match block_end_at(t, j + 1, 1, false) {
                    None => None,
                    Some(c) => {
                        let b = copy_range(t, j + 1, c);
                        let n = TopNode { name, args, block: Some(b) };
                        Some((n, c + 1))
                    },
                }
            } else {
                None
            }
        },
    }
}

fn tops_at(t: &[u8], i: usize) -> (r: Option<Vec<TopNode>>)
    requires
        i <= t@.len(),
    ensures
        match r {
            None => parse_tops(t@, i as int) is None,
            Some(v) => parse_tops(t@, i as int) == Some(v.deep_view()),
        },
    decreases t@.len() - i,
{
    let j = skip_trivia_at(t, i);
    if j >= t.len() {
        let v: Vec<TopNode> = Vec::new();
        proof {
            assert(v.deep_view() =~= Seq::<GNode>::empty());
        }
        Some(v)
    } else {
        match node_at(t, j) {
            None => None,
            Some((node, k)) => {
                let ghost gnode = node@;
                match tops_at(t, k) {
                    None => None,
                    Some(mut rest) => {
                        let ghost grest = rest.deep_view();
                        rest.insert(0, node);
                        proof {
                            assert(rest.deep_view() =~~= seq![gnode] + grest);
                        }
                        Some(rest)
                    },
                }
            },
        }
    }
}

/// Parses a document.  Succeeds exactly when `spec_parse` accepts the
/// text, and then yields exactly the document it denotes; a malformed
/// text yields the typed parse failure and never a panic.
pub fn parse(text: &[u8]) -> (r: Result<Document, ParseError>)
    ensures
        match r {
            Ok(d) => spec_parse(text@) == Some(d@),
            Err(_) => spec_parse(text@) is None,
        },
{
    match tops_at(text, 0) {
        Some(v) => Ok(Document { nodes: v }),
        None => Err(ParseError),
    }
}

// ---------------------------------------------------------------------
// Executable serializer
// ---------------------------------------------------------------------
fn push_node_text(out: &mut Vec<u8>, n: &TopNode)
    ensures
        final(out)@ == old(out)@ + render_node(n@),
{
    let ghost start = out@;
    out.extend_from_slice(n.name.as_slice());
    let mut a: usize = 0;
    while a < n.args.len()
        invariant
            a <= n.args.len(),
            out@ == start + n@.name + render_args(n@.args.subrange(0, a as int)),
        decreases n.args.len() - a,
    {
        let ghost before = out@;
        out.push(32);
        out.extend_from_slice(n.args[a].as_slice());
        proof {
            let pre = n@.args.subrange(0, a as int);
            let post = n@.args.subrange(0, a as int + 1);
            assert(post =~= pre + seq![n@.args[a as int]]);
            lemma_render_args_concat(pre, seq![n@.args[a as int]]);
            assert((seq![n@.args[a as int]]).drop_first() =~= Seq::<Seq<u8>>::empty());
            assert(render_args(Seq::<Seq<u8>>::empty()) =~= Seq::<u8>::empty());
            assert(render_args(seq![n@.args[a as int]]) =~= seq![32u8] + n@.args[a as int]);
            assert(out@ =~= start + n@.name + render_args(post));
        }
        a = a + 1;
    }
    proof {
        assert(n@.args.subrange(0, n.args.len() as int) =~= n@.args);
    }
    match &n.block {
        Some(b) => {
            out.push(123);
            out.extend_from_slice(b.as_slice());
            out.push(125);
        },
        None => {},
    }
    out.push(10);
    proof {
        assert(out@ =~= start + render_node(n@));
    }
}

/// Rendering distributes over concatenation of argument lists.
pub proof fn lemma_render_args_concat(a: Seq<Seq<u8>>, b: Seq<Seq<u8>>)
    ensures
        render_args(a + b) == render_args(a) + render_args(b),
    decreases a.len(),
{
    if a.len() == 0 {
        assert(a + b =~= b);
        assert(render_args(a) + render_args(b) =~= render_args(b));
    } else {
        assert((a + b).drop_first() =~= a.drop_first() + b);
        lemma_render_args_concat(a.drop_first(), b);
        assert(render_args(a + b) =~= render_args(a) + render_args(b));
    }
}

/// Renders a document back to its on-disk text: exactly `render_doc` of
/// its nodes, with every block emitted verbatim.
pub fn serialize(doc: &Document) -> (r: Vec<u8>)
    ensures
        r@ == render_doc(doc@),
{
    let mut out: Vec<u8> = Vec::new();
    let mut i: usize = 0;
    while i < doc.nodes.len()
        invariant
            i <= doc.nodes.len(),
            out@ == render_doc(doc@.subrange(0, i as int)),
        decreases doc.nodes.len() - i,
    {
        push_node_text(&mut out, &doc.nodes[i]);
        proof {
            let pre = doc@.subrange(0, i as int);
            let post = doc@.subrange(0, i as int + 1);
            assert(post =~= pre + seq![doc@[i as int]]);
            lemma_render_doc_concat(pre, seq![doc@[i as int]]);
            assert((seq![doc@[i as int]]).drop_first() =~= Seq::<GNode>::empty());
            assert(render_doc(Seq::<GNode>::empty()) =~= Seq::<u8>::empty());
            assert(render_doc(seq![doc@[i as int]]) =~= render_node(doc@[i as int]));
        }
        i = i + 1;
    }
    proof {
        assert(doc@.subrange(0, doc.nodes.len() as int) =~= doc@);
    }
    out
}

// ---------------------------------------------------------------------
// Executable query and mutation
// ---------------------------------------------------------------------
/// Index of the first node of `doc` with the given name, as `find_node`.
fn find_index(doc: &Document, name: &[u8]) -> (r: Option<usize>)
    ensures
        match r {
            None => find_node(doc@, name@) is None,
            Some(i) => find_node(doc@, name@) == Some(i as int) && i < doc.nodes.len(),
        },
{
    let mut i: usize = 0;
    proof {
        lemma_find_node_bound(doc@, name@, 0);
    }
    while i < doc.nodes.len()
        invariant
            i <= doc.nodes.len(),
            forall|j: int| 0 <= j < i ==> doc@[j].name != name@,
            find_node(doc@, name@) matches Some(k) ==> i <= k,
        decreases doc.nodes.len() - i,
    {
        if bytes_eq(doc.nodes[i].name.as_slice(), name) {
            proof {
                lemma_find_node_first(doc@, name@, i as int);
            }
            return Some(i);
        }
        i = i + 1;
        proof {
            lemma_find_node_bound(doc@, name@, i as int);
        }
    }
    proof {
        lemma_find_node_none(doc@, name@);
    }
    None
}

/// When every node before `i` misses the name and node `i` carries it,
/// `find_node` returns `i`.
pub proof fn lemma_find_node_first(ns: Seq<GNode>, name: Seq<u8>, i: int)
    requires
        0 <= i < ns.len(),
        forall|j: int| 0 <= j < i ==> ns[j].name != name,
        ns[i].name == name,
    ensures
        find_node(ns, name) == Some(i),
    decreases i,
{
    if i == 0 {
    } else {
        assert(forall|j: int| 0 <= j < i - 1 ==> ns.drop_first()[j].name != name);
        lemma_find_node_first(ns.drop_first(), name, i - 1);
    }
}

/// When every node before `i` misses the name, a found index is at
/// least `i`.
pub proof fn lemma_find_node_bound(ns: Seq<GNode>, name: Seq<u8>, i: int)
    requires
        0 <= i <= ns.len(),
        forall|j: int| 0 <= j < i ==> ns[j].name != name,
    ensures
        find_node(ns, name) matches Some(k) ==> i <= k < ns.len(),
    decreases i,
{
    if i == 0 {
        lemma_find_node_in_range(ns, name);
    } else {
        assert(ns[0].name != name);
        assert(forall|j: int| 0 <= j < i - 1 ==> ns.drop_first()[j].name != name);
        lemma_find_node_bound(ns.drop_first(), name, i - 1);
    }
}

/// A found index always lies inside the document.
pub proof fn lemma_find_node_in_range(ns: Seq<GNode>, name: Seq<u8>)
    ensures
        find_node(ns, name) matches Some(k) ==> 0 <= k < ns.len(),
    decreases ns.len(),
{
    if ns.len() > 0 && ns[0].name != name {
        lemma_find_node_in_range(ns.drop_first(), name);
    }
}

/// When no node carries the name, `find_node` reports none.
pub proof fn lemma_find_node_none(ns: Seq<GNode>, name: Seq<u8>)
    requires
        forall|j: int| 0 <= j < ns.len() ==> ns[j].name != name,
    ensures
        find_node(ns, name) is None,
    decreases ns.len(),
{
    if ns.len() > 0 {
        assert(forall|j: int| 0 <= j < ns.len() - 1 ==> ns.drop_first()[j].name != name);
        lemma_find_node_none(ns.drop_first(), name);
    }
}

/// Replaces the argument list of the first node with the given name by
/// the single quoted `value` — its prior arguments are cleared, not
/// appended to — keeping its block; when no node has the name, appends
/// a fresh `name "value"` node at the top level.
pub fn upsert_scalar_node(doc: &mut Document, name: &[u8], value: &[u8])
    requires
        value_ok(value@),
    ensures
        final(doc)@ == spec_upsert(old(doc)@, name@, value@),
{
    let mut quoted_value: Vec<u8> = Vec::new();
    quoted_value.push(34);
    quoted_value.extend_from_slice(value);
    quoted_value.push(34);
    proof {
        assert(quoted_value@ =~= quoted(value@));
    }
    let mut args: Vec<Vec<u8>> = Vec::new();
    args.push(quoted_value);
    proof {
        assert(args.deep_view() =~~= seq![quoted(value@)]);
    }
    match find_index(doc, name) {
        Some(i) => {
            let old_node = doc.nodes.remove(i);
            let new_node = TopNode { name: old_node.name, args, block: old_node.block };
            doc.nodes.insert(i, new_node);
            proof {
                assert(doc@ =~~= spec_upsert(old(doc)@, name@, value@));
            }
        },
        None => {
            let new_node = TopNode { name: copy_full(name), args, block: None };
            doc.nodes.push(new_node);
            proof {
                assert(doc@ =~~= spec_upsert(old(doc)@, name@, value@));
            }
        },
    }
}

/// The bytes of a whole slice, as a fresh vector.
fn copy_full(t: &[u8]) -> (r: Vec<u8>)
    ensures
        r@ == t@,
{
    let r = copy_range(t, 0, t.len());
    proof {
        assert(t@.subrange(0, t@.len() as int) =~= t@);
    }
    r
}

/// The names of the child nodes of a block, scanning from `i`.
fn children_at(t: &[u8], i: usize) -> (r: Vec<Vec<u8>>)
    requires
        i <= t@.len(),
    ensures
        r.deep_view() == child_names(t@, i as int),
    decreases t@.len() - i,
{
    let j = skip_trivia_at(t, i);
    if j >= t.len() || !name_byte(t[j]) {
        let v: Vec<Vec<u8>> = Vec::new();
        proof {
            assert(v.deep_view() =~= Seq::<Seq<u8>>::empty());
        }
        v
    } else {
        let e = name_end_at(t, j);
        let name = copy_range(t, j, e);
        let ghost gname = name@;
        match tail_at(t, e) {
            None => {
                let mut v: Vec<Vec<u8>> = Vec::new();
                v.push(name);
                proof {
                    assert(v.deep_view() =~~= seq![gname]);
                }
                v
            },
            Some(k) => {
                let mut rest = children_at(t, k);
                let ghost grest = rest.deep_view();
                rest.insert(0, name);
                proof {
                    assert(rest.deep_view() =~~= seq![gname] + grest);
                }
                rest
            },
        }
    }
}

fn tail_at(t: &[u8], i: usize) -> (r: Option<usize>)
    requires
        i <= t@.len(),
    ensures
        match r {
            None => skip_node_tail(t@, i as int) is None,
            Some(k) => skip_node_tail(t@, i as int) == Some(k as int) && i <= k <= t@.len(),
        },
{
    match args_at(t, i) {
        None => None,
        Some((_, j)) => {
            if j >= t.len() {
                Some(j)
            } else if t[j] == 10 || t[j] == 13 {
                Some(eat_line_end_at(t, j))
            } else if t[j] == 123 {
                match block_end_at(t, j + 1, 1, false) {
                    None => None,
                    Some(c) => Some(eat_line_end_at(t, c + 1)),
                }
            } else {
                None
            }
        },
    }
}

/// Locates the first top-level node with `node_name`; returns the names
/// of its direct children, in order, and the empty list when the node
/// is absent or has no children block — that is a normal outcome, not
/// an error.
pub fn extract_child_node_names(doc: &Document, node_name: &[u8]) -> (r: Vec<Vec<u8>>)
    ensures
        r.deep_view() == spec_extract(doc@, node_name@),
{
    match find_index(doc, node_name) {
        None => {
            let v: Vec<Vec<u8>> = Vec::new();
            proof {
                assert(v.deep_view() =~= Seq::<Seq<u8>>::empty());
            }
            v
        },
        Some(i) => {
            match &doc.nodes[i].block {
                None => {
                    let v: Vec<Vec<u8>> = Vec::new();
                    proof {
                        assert(v.deep_view() =~= Seq::<Seq<u8>>::empty());
                    }
                    v
                },
                Some(b) => children_at(b.as_slice(), 0),
            }
        },
    }
}

} // verus!
