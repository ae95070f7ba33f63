//! Python syntax trees: tree-sitter parses the source, and the tree is copied, node
//! by node in preorder, into a plain arena that the rules walk.
use vstd::prelude::*;

verus! {

#[verifier::external_type_specification]
#[verifier::external_body]
pub struct ExTsTree(tree_sitter::Tree);

#[verifier::external_type_specification]
#[verifier::external_body]
pub struct ExTsParser(tree_sitter::Parser);

/// A tree-sitter parse together with the text it was parsed from.
pub struct ParsedSource {
    tree: tree_sitter::Tree,
    text: String,
}

impl View for ParsedSource {
    type V = Seq<char>;

    closed spec fn view(&self) -> Seq<char> {
        self.text@
    }
}

/// Number of nodes of the tree-sitter Python parse of `src`, root included.
pub uninterp spec fn ts_node_count(src: Seq<char>) -> usize;

/// Kind of the `i`-th node (preorder) of the parse of `src`.
pub uninterp spec fn ts_kind(src: Seq<char>, i: usize) -> Seq<char>;

/// Field name under which the `i`-th node sits in its parent, if any.
pub uninterp spec fn ts_field(src: Seq<char>, i: usize) -> Option<Seq<char>>;

/// Whether the `i`-th node is named.
pub uninterp spec fn ts_named(src: Seq<char>, i: usize) -> bool;

/// Whether the `i`-th node is a zero-width node the parser inserted for a missing
/// token.
pub uninterp spec fn ts_missing(src: Seq<char>, i: usize) -> bool;

/// Start (row, column) of the `i`-th node, both 0-based.
pub uninterp spec fn ts_start(src: Seq<char>, i: usize) -> (usize, usize);

/// Depth of the `i`-th node below the root.
pub uninterp spec fn ts_depth(src: Seq<char>, i: usize) -> u32;

/// Source text of the `i`-th node, when its bytes are valid UTF-8.
pub uninterp spec fn ts_text(src: Seq<char>, i: usize) -> Option<Seq<char>>;

/// A `tree_sitter::Parser` (`Parser::new`) with the tree-sitter-python grammar
/// installed (`Parser::set_language`), run on `source` (`Parser::parse`), the tree
/// kept with the text it parsed. Claimed: a parse comes back. In the versions built
/// here the grammar is of language version 14, inside the range 13..=14 that
/// `set_language` accepts, and `parse` returns no tree only when no language is
/// set or a timeout or cancellation flag (neither is set here) stops it.
#[verifier::external_body]
fn run_parser(source: &str) -> (r: Result<ParsedSource, ParseError>)
    ensures
        r is Ok,
        r matches Ok(t) ==> t@ == source@,
{
    let mut parser = tree_sitter::Parser::new();
    if let Err(e) = parser.set_language(&tree_sitter_python::LANGUAGE.into()) {
        return Err(ParseError::Language(e.to_string()));
    }
    match parser.parse(source, None) {
        Some(tree) => Ok(ParsedSource { tree, text: source.to_string() }),
        None => Err(ParseError::NoTree),
    }
}

/// `tree_sitter::Node::descendant_count` of the root: the number of nodes, root
/// included.
#[verifier::external_body]
fn node_count(t: &ParsedSource) -> (r: usize)
    ensures
        r == ts_node_count(t@),
        r >= 1,
{
    t.tree.root_node().descendant_count()
}

/// `tree_sitter::Node::kind` of the `i`-th node, reached with
/// `tree_sitter::TreeCursor::goto_descendant` from the root.
#[verifier::external_body]
fn node_kind(t: &ParsedSource, i: usize) -> (r: &'static str)
    requires
        i < ts_node_count(t@),
    ensures
        r@ == ts_kind(t@, i),
{
    let mut c = t.tree.walk();
    c.goto_descendant(i);
    c.node().kind()
}

/// `tree_sitter::TreeCursor::field_name` at the `i`-th node.
#[verifier::external_body]
fn node_field(t: &ParsedSource, i: usize) -> (r: Option<&'static str>)
    requires
        i < ts_node_count(t@),
    ensures
        match r {
            Some(s) => ts_field(t@, i) == Some(s@),
            None => ts_field(t@, i) is None,
        },
{
    let mut c = t.tree.walk();
    c.goto_descendant(i);
    c.field_name()
}

/// `tree_sitter::Node::is_named` of the `i`-th node.
#[verifier::external_body]
fn node_named(t: &ParsedSource, i: usize) -> (r: bool)
    requires
        i < ts_node_count(t@),
    ensures
        r == ts_named(t@, i),
{
    let mut c = t.tree.walk();
    c.goto_descendant(i);
    c.node().is_named()
}

/// `tree_sitter::Node::is_missing` of the `i`-th node.
#[verifier::external_body]
fn node_missing(t: &ParsedSource, i: usize) -> (r: bool)
    requires
        i < ts_node_count(t@),
    ensures
        r == ts_missing(t@, i),
{
    let mut c = t.tree.walk();
    c.goto_descendant(i);
    c.node().is_missing()
}

/// `tree_sitter::Node::start_position` of the `i`-th node as (row, column); both
/// come from 32-bit counters.
#[verifier::external_body]
fn node_start(t: &ParsedSource, i: usize) -> (r: (usize, usize))
    requires
        i < ts_node_count(t@),
    ensures
        r == ts_start(t@, i),
        r.0 <= u32::MAX,
        r.1 <= u32::MAX,
{
    let mut c = t.tree.walk();
    c.goto_descendant(i);
    let p = c.node().start_position();
    (p.row, p.column)
}

/// `tree_sitter::TreeCursor::depth` at the `i`-th node, the root being at depth 0.
/// `goto_descendant` numbers the descendants of the root in preorder (the root
/// itself is 0), so every later node lies below the root and at most one level
/// deeper than the node before it.
#[verifier::external_body]
fn node_depth(t: &ParsedSource, i: usize) -> (r: u32)
    requires
        i < ts_node_count(t@),
    ensures
        r == ts_depth(t@, i),
        i == 0 ==> r == 0,
        i > 0 ==> 1 <= r && r <= ts_depth(t@, (i - 1) as usize) + 1,
{
    let mut c = t.tree.walk();
    c.goto_descendant(i);
    c.depth()
}

/// `tree_sitter::Node::utf8_text` of the `i`-th node over the parsed text.
#[verifier::external_body]
fn node_text(t: &ParsedSource, i: usize) -> (r: Option<String>)
    requires
        i < ts_node_count(t@),
    ensures
        match r {
            Some(s) => ts_text(t@, i) == Some(s@),
            None => ts_text(t@, i) is None,
        },
{
    let mut c = t.tree.walk();
    c.goto_descendant(i);
    c.node().utf8_text(t.text.as_bytes()).ok().map(String::from)
}


/// Depths in preorder: the root at 0, and each later node at most one deeper than
/// the node before it.
pub open spec fn depths_ok(d: Seq<usize>) -> bool {
    &&& d.len() >= 1
    &&& d[0] == 0
    &&& forall|i: int| 0 < i < d.len() ==> 1 <= #[trigger] d[i] <= d[i - 1] + 1
}

/// `e` ends the subtree of `i`: every node strictly between is deeper than `i`, and
/// `e` (unless past the end) is not.
pub open spec fn end_at(d: Seq<usize>, i: int, e: int) -> bool {
    &&& i < e <= d.len()
    &&& forall|j: int| i < j < e ==> #[trigger] d[j] > d[i]
    &&& e < d.len() ==> d[e] <= d[i]
}

/// `p` is the parent of `i`: the last earlier node one level up.
pub open spec fn parent_at(d: Seq<usize>, i: int, p: int) -> bool {
    if i == 0 {
        p == 0
    } else {
        &&& 0 <= p < i
        &&& d[p] + 1 == d[i]
        &&& forall|j: int| p < j < i ==> #[trigger] d[j] >= d[i]
    }
}

/// The node depths of the parse of `src`, in preorder.
pub open spec fn ts_depths(src: Seq<char>) -> Seq<usize> {
    Seq::new(ts_node_count(src) as nat, |i: int| ts_depth(src, i as usize) as usize)
}

/// The parse of `src` can be copied into an arena: every node's row and column
/// leave room for a 1-based line and column.
pub open spec fn parse_succeeds(src: Seq<char>) -> bool {
    forall|i: int|
        0 <= i < ts_node_count(src) ==> (#[trigger] ts_start(src, i as usize)).0 < usize::MAX && ts_start(
            src,
            i as usize,
        ).1 < usize::MAX
}

/// The depths of the parse of `src`, which form a preorder.
fn read_depths(t: &ParsedSource) -> (r: Option<Vec<usize>>)
    ensures
        r matches Some(d) && d@ == ts_depths(t@) && depths_ok(d@),
{
    let n = node_count(t);
    let mut d: Vec<usize> = Vec::new();
    let mut i: usize = 0;
    while i < n
        invariant
            n == ts_node_count(t@),
            n >= 1,
            0 <= i <= n,
            d@.len() == i,
            i >= 1 ==> d@[0] == 0,
            forall|j: int| 0 < j < i ==> 1 <= #[trigger] d@[j] <= d@[j - 1] + 1,
            forall|j: int| 0 <= j < i ==> #[trigger] d@[j] == ts_depth(t@, j as usize) as usize,
            forall|j: int| 0 <= j < i ==> #[trigger] d@[j] <= j,
        decreases n - i,
    {
        let x = node_depth(t, i) as usize;
        if i > 0 {
            assert(d@[i - 1] == ts_depth(t@, (i - 1) as usize) as usize);
        }
        d.push(x);
        i = i + 1;
    }
    assert(d@ =~= ts_depths(t@));
    Some(d)
}

/// The parent of every node.
fn parents_of(d: &Vec<usize>) -> (r: Vec<usize>)
    requires
        depths_ok(d@),
    ensures
        r@.len() == d@.len(),
        forall|i: int| 0 <= i < d@.len() ==> parent_at(d@, i, #[trigger] r@[i] as int),
{
    let mut ps: Vec<usize> = Vec::new();
    ps.push(0);
    let mut i: usize = 1;
    while i < d.len()
        invariant
            depths_ok(d@),
            1 <= i <= d@.len(),
            ps@.len() == i,
            forall|k: int| 0 <= k < i ==> parent_at(d@, k, #[trigger] ps@[k] as int),
        decreases d.len() - i,
    {
        let mut p: usize = i - 1;
        while d[p] >= d[i]
            invariant
                depths_ok(d@),
                1 <= i < d@.len(),
                ps@.len() == i,
                forall|k: int| 0 <= k < i ==> parent_at(d@, k, #[trigger] ps@[k] as int),
                0 <= p < i,
                d@[p as int] + 1 >= d@[i as int],
                forall|j: int| p < j < i ==> #[trigger] d@[j] >= d@[i as int],
            decreases d@[p as int],
        {
            proof {
                assert(p > 0) by {
                    if p == 0 {
                        assert(d@[0] == 0);
                        assert(d@[i as int] >= 1);
                    }
                }
                assert(parent_at(d@, p as int, ps@[p as int] as int));
            }
            p = ps[p];
        }
        ps.push(p);
        i = i + 1;
    }
    ps
}

/// The end of every node's subtree.
fn ends_of(d: &Vec<usize>) -> (r: Vec<usize>)
    requires
        depths_ok(d@),
    ensures
        r@.len() == d@.len(),
        forall|i: int| 0 <= i < d@.len() ==> end_at(d@, i, #[trigger] r@[i] as int),
{
    let mut es: Vec<usize> = Vec::new();
    let mut i: usize = 0;
    while i < d.len()
        invariant
            0 <= i <= d@.len(),
            es@.len() == i,
            forall|k: int| 0 <= k < i ==> end_at(d@, k, #[trigger] es@[k] as int),
        decreases d.len() - i,
    {
        let mut e: usize = i + 1;
        while e < d.len() && d[e] > d[i]
            invariant
                i < e <= d@.len(),
                forall|j: int| i < j < e ==> #[trigger] d@[j] > d@[i as int],
            decreases d.len() - e,
        {
            e = e + 1;
        }
        es.push(e);
        i = i + 1;
    }
    es
}


/// One node of a syntax tree, with its place in the arena.
#[derive(Debug)]
pub struct SyntaxNode {
    /// Grammar kind, e.g. `"call"` or `"("`.
    pub kind: &'static str,
    /// Field name under which the node sits in its parent.
    pub field: Option<&'static str>,
    pub named: bool,
    /// The parser inserted the node for a missing token.
    pub missing: bool,
    /// 0-based start row.
    pub row: usize,
    /// 0-based start column.
    pub col: usize,
    /// Source text of the node.
    pub text: Option<String>,
    pub depth: usize,
    /// Index of the parent node (the root is its own).
    pub parent: usize,
    /// One past the last node of this node's subtree.
    pub end: usize,
}

/// A syntax tree: its nodes in preorder, the root first.
#[derive(Debug)]
pub struct SyntaxTree {
    pub nodes: Vec<SyntaxNode>,
}

/// Depths of the nodes.
pub open spec fn depths(ns: Seq<SyntaxNode>) -> Seq<usize> {
    ns.map_values(|n: SyntaxNode| n.depth)
}

/// The arena is a tree in preorder: depths form a preorder, and every node's
/// parent and subtree end are where the depths put them.
pub open spec fn tree_wf(ns: Seq<SyntaxNode>) -> bool {
    &&& depths_ok(depths(ns))
    &&& forall|i: int| 0 <= i < ns.len() ==> end_at(depths(ns), i, #[trigger] ns[i].end as int)
    &&& forall|i: int| 0 <= i < ns.len() ==> parent_at(depths(ns), i, #[trigger] ns[i].parent as int)
}

/// Every node's row and column leave room for the 1-based line and column.
pub open spec fn positions_fit(ns: Seq<SyntaxNode>) -> bool {
    forall|i: int| 0 <= i < ns.len() ==> (#[trigger] ns[i]).row < usize::MAX && ns[i].col < usize::MAX
}

/// Node `i` of `ns` is node `i` of the parse of `src`.
pub open spec fn node_matches(ns: Seq<SyntaxNode>, src: Seq<char>, i: int) -> bool {
    &&& ns[i].kind@ == ts_kind(src, i as usize)
    &&& match ns[i].field {
        Some(f) => ts_field(src, i as usize) == Some(f@),
        None => ts_field(src, i as usize) is None,
    }
    &&& ns[i].named == ts_named(src, i as usize)
    &&& ns[i].missing == ts_missing(src, i as usize)
    &&& (ns[i].row, ns[i].col) == ts_start(src, i as usize)
    &&& ns[i].row <= u32::MAX
    &&& match ns[i].text {
        Some(t) => ts_text(src, i as usize) == Some(t@),
        None => ts_text(src, i as usize) is None,
    }
    &&& ns[i].depth == ts_depth(src, i as usize) as usize
}

/// `n` is a syntax error: an `ERROR` node or one inserted for a missing token.
pub open spec fn is_error_node(n: SyntaxNode) -> bool {
    n.kind@ == "ERROR"@ || n.missing
}

/// Why parsing failed.
#[derive(Debug)]
pub enum ParseError {
    /// The Python grammar could not be installed in the parser.
    Language(String),
    /// The parser returned no tree, or a node's row or column would not fit a
    /// 1-based line or column.
    NoTree,
}

/// Parses `source` as Python into a syntax tree. tree-sitter recovers from
/// malformed input with `ERROR` nodes rather than failing.
pub fn parse(source: &str) -> (r: Result<SyntaxTree, ParseError>)
    ensures
        r is Ok <==> parse_succeeds(source@),
        r matches Ok(t) ==> tree_wf(t.nodes@) && positions_fit(t.nodes@) && t.nodes@.len() == ts_node_count(
            source@,
        ) && forall|i: int| 0 <= i < t.nodes@.len() ==> #[trigger] node_matches(t.nodes@, source@, i),
{
    let parsed = match run_parser(source) {
        Ok(p) => p,
        Err(e) => return Err(e),
    };
    let d = match read_depths(&parsed) {
        Some(d) => d,
        None => return Err(ParseError::NoTree),
    };
    assert(d@.len() == ts_node_count(parsed@));
    assert(forall|k: int| 0 <= k < d@.len() ==> #[trigger] d@[k] == ts_depth(parsed@, k as usize) as usize);
    let ps = parents_of(&d);
    let es = ends_of(&d);
    let mut nodes: Vec<SyntaxNode> = Vec::new();
    let mut i: usize = 0;
    while i < d.len()
        invariant
            parsed@ == source@,
            d@.len() == ts_node_count(parsed@),
            depths_ok(d@),
            forall|k: int| 0 <= k < d@.len() ==> #[trigger] d@[k] == ts_depth(parsed@, k as usize) as usize,
            ps@.len() == d@.len(),
            forall|k: int| 0 <= k < d@.len() ==> parent_at(d@, k, #[trigger] ps@[k] as int),
            es@.len() == d@.len(),
            forall|k: int| 0 <= k < d@.len() ==> end_at(d@, k, #[trigger] es@[k] as int),
            0 <= i <= d@.len(),
            nodes@.len() == i,
            forall|k: int| 0 <= k < i ==> #[trigger] node_matches(nodes@, source@, k),
            forall|k: int| 0 <= k < i ==> (#[trigger] nodes@[k]).depth == d@[k] && nodes@[k].parent == ps@[k]
                && nodes@[k].end == es@[k],
            forall|k: int| 0 <= k < i ==> (#[trigger] nodes@[k]).row < usize::MAX && nodes@[k].col < usize::MAX,
            forall|k: int|
                0 <= k < i ==> (#[trigger] ts_start(source@, k as usize)).0 < usize::MAX && ts_start(
                    source@,
                    k as usize,
                ).1 < usize::MAX,
        decreases d.len() - i,
    {
        let kind = node_kind(&parsed, i);
        let field = node_field(&parsed, i);
        let named = node_named(&parsed, i);
        let missing = node_missing(&parsed, i);
        let (row, col) = node_start(&parsed, i);
        if row == usize::MAX || col == usize::MAX {
            proof {
                assert(ts_start(source@, i) == (row, col));
                let k: int = i as int;
                assert(0 <= k < ts_node_count(source@));
                assert(ts_start(source@, k as usize) == (row, col));
                assert(!parse_succeeds(source@));
            }
            return Err(ParseError::NoTree);
        }
        let text = node_text(&parsed, i);
        let node = SyntaxNode { kind, field, named, missing, row, col, text, depth: d[i], parent: ps[i], end: es[i] };
        let ghost before = nodes@;
        nodes.push(node);
        proof {
            assert(nodes@[i as int] == node);
            assert forall|k: int| 0 <= k < i + 1 implies #[trigger] node_matches(nodes@, source@, k) by {
                if k < i {
                    assert(nodes@[k] == before[k]);
                    assert(node_matches(before, source@, k));
                }
            }
        }
        i = i + 1;
    }
    proof {
        assert(depths(nodes@) =~= d@);
        assert(parse_succeeds(source@));
    }
    Ok(SyntaxTree { nodes })
}


/// `m` lies strictly inside the subtree of `a`.
pub open spec fn desc(ns: Seq<SyntaxNode>, a: int, m: int) -> bool {
    0 <= a < ns.len() && a < m < ns[a].end
}

/// Nested subtrees: a subtree that starts inside another ends inside it.
pub proof fn lemma_nest(ns: Seq<SyntaxNode>, a: int, b: int)
    requires
        tree_wf(ns),
        desc(ns, a, b),
    ensures
        ns[b].end <= ns[a].end,
{
    let d = depths(ns);
    assert(end_at(d, a, ns[a].end as int));
    assert(end_at(d, b, ns[b].end as int));
    assert(d[b] > d[a]);
    if ns[a].end < ns[b].end {
        let e = ns[a].end as int;
        assert(b < e < ns[b].end);
        assert(d[e] > d[b]);
        assert(d[e] <= d[a]);
    }
}

/// A node lies inside its parent's subtree.
pub proof fn lemma_parent(ns: Seq<SyntaxNode>, i: int)
    requires
        tree_wf(ns),
        0 < i < ns.len(),
    ensures
        desc(ns, ns[i].parent as int, i),
{
    let d = depths(ns);
    let p = ns[i].parent as int;
    assert(parent_at(d, i, p));
    assert(end_at(d, p, ns[p].end as int));
    if ns[p].end as int <= i {
        let e = ns[p].end as int;
        if e < i {
            assert(d[e] >= d[i]);
            assert(d[e] <= d[p]);
        } else {
            assert(d[e] <= d[p]);
        }
    }
}

/// The ancestors of a node are its parent and the parent's ancestors.
pub proof fn lemma_ancestors(ns: Seq<SyntaxNode>, a: int, i: int)
    requires
        tree_wf(ns),
        0 < i < ns.len(),
    ensures
        desc(ns, a, i) <==> (a == ns[i].parent as int || desc(ns, a, ns[i].parent as int)),
{
    let d = depths(ns);
    let p = ns[i].parent as int;
    lemma_parent(ns, i);
    assert(parent_at(d, i, p));
    if desc(ns, a, i) {
        assert(end_at(d, a, ns[a].end as int));
        assert(d[i] > d[a]);
        if a > p {
            assert(d[a] >= d[i]);
        }
        if a < p {
            assert(d[p] > d[a]);
            assert(p < ns[a].end);
        }
    }
    if desc(ns, a, p) {
        lemma_nest(ns, a, p);
        assert(end_at(d, a, ns[a].end as int));
        if ns[a].end as int <= i {
            let e = ns[a].end as int;
            assert(p < e);
            if e < i {
                assert(d[e] >= d[i]);
                assert(d[i] == d[p] + 1);
                assert(d[p] > d[a]);
            } else {
                assert(d[i] == d[p] + 1);
            }
            assert(d[e] <= d[a]);
        }
    }
}

/// The first index in `lo..hi` that satisfies `p`.
pub open spec fn first_where(lo: int, hi: int, p: spec_fn(int) -> bool) -> Option<int>
    decreases hi - lo,
{
    if lo >= hi {
        None
    } else if p(lo) {
        Some(lo)
    } else {
        first_where(lo + 1, hi, p)
    }
}

pub proof fn lemma_first_where(lo: int, hi: int, p: spec_fn(int) -> bool)
    ensures
        first_where(lo, hi, p) matches Some(c) ==> lo <= c < hi && p(c) && forall|j: int| lo <= j < c ==> !#[trigger] p(j),
        first_where(lo, hi, p) is None ==> forall|j: int| lo <= j < hi ==> !#[trigger] p(j),
    decreases hi - lo,
{
    if lo < hi && !p(lo) {
        lemma_first_where(lo + 1, hi, p);
    }
}

/// `c` is a child of `p` in field `f`.
pub open spec fn in_field(ns: Seq<SyntaxNode>, p: int, f: Seq<char>, c: int) -> bool {
    &&& ns[c].parent as int == p
    &&& ns[c].field matches Some(x) && x@ == f
}

/// The first child of `p` in field `f` (`child_by_field_name`).
pub open spec fn field_child(ns: Seq<SyntaxNode>, p: int, f: Seq<char>) -> Option<int> {
    first_where(p + 1, ns[p].end as int, |c: int| in_field(ns, p, f, c))
}

/// The text of `c`, if `c` exists and has text.
pub open spec fn text_of(ns: Seq<SyntaxNode>, c: Option<int>) -> Option<Seq<char>> {
    match c {
        Some(i) => match ns[i].text {
            Some(t) => Some(t@),
            None => None,
        },
        None => None,
    }
}

impl SyntaxTree {
    /// The first child of node `p` in field `f`.
    pub fn child_by_field(&self, p: usize, f: &str) -> (r: Option<usize>)
        requires
            tree_wf(self.nodes@),
            p < self.nodes@.len(),
        ensures
            match field_child(self.nodes@, p as int, f@) {
                Some(c) => (r matches Some(x) && x == c) && p < c < self.nodes@.len(),
                None => r is None,
            },
    {
        let ghost ns = self.nodes@;
        let ghost pred = |c: int| in_field(ns, p as int, f@, c);
        let end = self.nodes[p].end;
        assert(end_at(depths(ns), p as int, end as int));
        let mut c: usize = p + 1;
        while c < end
            invariant
                ns == self.nodes@,
                p < c <= end <= ns.len(),
                end == ns[p as int].end,
                pred == (|c: int| in_field(ns, p as int, f@, c)),
                first_where(p + 1, end as int, pred) == first_where(c as int, end as int, pred),
            decreases end - c,
        {
            if self.nodes[c].parent == p {
                match self.nodes[c].field {
                    Some(x) => {
                        if crate::text::eq_str(&crate::text::str_chars(x), f) {
                            return Some(c);
                        }
                    },
                    None => {},
                }
            }
            c = c + 1;
        }
        None
    }

    /// Whether the tree holds a syntax error: an `ERROR` node, or a node the
    /// parser inserted for a missing token.
    pub fn has_error(&self) -> (r: bool)
        ensures
            r == exists|i: int| 0 <= i < self.nodes@.len() && is_error_node(#[trigger] self.nodes@[i]),
    {
        let mut i: usize = 0;
        while i < self.nodes.len()
            invariant
                0 <= i <= self.nodes@.len(),
                forall|j: int| 0 <= j < i ==> !is_error_node(#[trigger] self.nodes@[j]),
            decreases self.nodes.len() - i,
        {
            if self.nodes[i].missing || crate::text::str_eq(self.nodes[i].kind, "ERROR") {
                assert(is_error_node(self.nodes@[i as int]));
                return true;
            }
            i = i + 1;
        }
        false
    }

    /// Node `i` is of kind `k`.
    pub fn kind_is(&self, i: usize, k: &str) -> (r: bool)
        requires
            i < self.nodes@.len(),
        ensures
            r == (self.nodes@[i as int].kind@ == k@),
    {
        crate::text::str_eq(self.nodes[i].kind, k)
    }

    /// The text of node `i`.
    pub fn text_at(&self, i: usize) -> (r: Option<&String>)
        requires
            i < self.nodes@.len(),
        ensures
            match r {
                Some(s) => text_of(self.nodes@, Some(i as int)) == Some(s@),
                None => text_of(self.nodes@, Some(i as int)) is None,
            },
    {
        match &self.nodes[i].text {
            Some(s) => Some(s),
            None => None,
        }
    }
}

} // verus!
