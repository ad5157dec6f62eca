//! A parsed source file as plain values: every syntax node, in preorder, with its kind, its
//! field in its parent, its position, its parent and its children.
//!
//! Nodes are named by their position in `ParsedFile::nodes`. The parse itself is tree-sitter's
//! (see `syntax`); from there on every walk over the tree is verified here.

use crate::lang::{self, lang_of_path, Lang};
use crate::syntax;
use crate::text;
use vstd::prelude::*;

verus! {

pub struct SyntaxNode {
    pub kind: String,
    pub named: bool,
    /// The field under which the node hangs from its parent.
    pub field: Option<String>,
    pub start_byte: usize,
    pub end_byte: usize,
    /// Zero-based rows.
    pub start_row: usize,
    pub end_row: usize,
    pub parent: Option<usize>,
    pub children: Vec<usize>,
}

pub struct ParsedFile {
    pub lang: Lang,
    pub source: String,
    /// The syntax tree in preorder; the root, when there is one, is node 0.
    pub nodes: Vec<SyntaxNode>,
}

/// A node's parent comes before it, and its children come after it, each pointing back at it.
pub open spec fn node_wf(nodes: Seq<SyntaxNode>, i: int) -> bool {
    &&& (nodes[i].parent matches Some(p) ==> p < i)
    &&& forall|k: int|
        #![trigger nodes[i].children@[k]]
        0 <= k < nodes[i].children@.len() ==> {
            let c = nodes[i].children@[k] as int;
            &&& i < c < nodes.len()
            &&& nodes[c].parent == Some(i as usize)
        }
}

pub open spec fn nodes_wf(nodes: Seq<SyntaxNode>) -> bool {
    forall|i: int| 0 <= i < nodes.len() ==> #[trigger] node_wf(nodes, i)
}

/// A node's byte range is ordered, and its rows leave room for a one-based line number.
pub open spec fn node_sane(node: SyntaxNode) -> bool {
    &&& node.start_byte <= node.end_byte
    &&& node.start_row < usize::MAX
    &&& node.end_row < usize::MAX
}

pub open spec fn nodes_sane(nodes: Seq<SyntaxNode>) -> bool {
    forall|i: int| 0 <= i < nodes.len() ==> #[trigger] node_sane(nodes[i])
}

fn all_sane(nodes: &Vec<SyntaxNode>) -> (r: bool)
    ensures
        r == nodes_sane(nodes@),
{
    let mut i: usize = 0;
    while i < nodes.len()
        invariant
            i <= nodes.len(),
            forall|j: int| 0 <= j < i ==> #[trigger] node_sane(nodes@[j]),
        decreases nodes.len() - i,
    {
        let n = &nodes[i];
        if n.start_byte > n.end_byte || n.start_row == usize::MAX || n.end_row == usize::MAX {
            assert(!node_sane(nodes@[i as int]));
            return false;
        }
        i += 1;
    }
    true
}

/// Whether `s` holds `part` somewhere.
pub open spec fn has_part(s: Seq<char>, part: Seq<char>) -> bool {
    exists|j: int| 0 <= j && j + part.len() <= s.len() && #[trigger] s.subrange(j, j + part.len()) == part
}

/// Whether `v` holds the literal `part` somewhere.
pub fn contains_str(v: &Vec<char>, part: &str) -> (r: bool)
    ensures
        r == has_part(v@, part@),
{
    let p = text::chars_of(part);
    if p.len() > v.len() {
        return false;
    }
    let mut j: usize = 0;
    let last = v.len() - p.len();
    loop
        invariant
            p@ == part@,
            p.len() <= v.len(),
            last == v.len() - p.len(),
            j <= last,
            forall|k: int| 0 <= k < j ==> #[trigger] v@.subrange(k, k + p.len()) != p@,
        decreases last - j,
    {
        let found = text::has_at(v, j, &p);
        assert(v@.skip(j as int).take(p.len() as int) == v@.subrange(j as int, j + p.len()));
        if found {
            return true;
        }
        if j == last {
            return false;
        }
        j += 1;
    }
}

/// What a language's grammar makes of a text.
pub open spec fn spec_syntax(lang: Lang, source: Seq<char>) -> Option<Seq<syntax::RawNode>> {
    match lang {
        Lang::Python => syntax::python_syntax(source),
        Lang::JavaScript => syntax::javascript_syntax(source),
        Lang::TypeScript => syntax::typescript_syntax(source),
        Lang::Tsx => syntax::tsx_syntax(source),
        Lang::Java => syntax::java_syntax(source),
        Lang::Go => syntax::go_syntax(source),
        Lang::Php => syntax::php_syntax(source),
        Lang::Rust => syntax::rust_syntax(source),
        Lang::C => syntax::c_syntax(source),
        Lang::Cpp => syntax::cpp_syntax(source),
        Lang::CSharp => syntax::csharp_syntax(source),
    }
}

/// Parses `source` with the grammar of `lang`.
fn syntax_tree(lang: Lang, source: &str) -> (r: Option<tree_sitter::Tree>)
    ensures
        r matches Some(t) ==> spec_syntax(lang, source@) == Some(syntax::tree_nodes(t)),
        r is None ==> spec_syntax(lang, source@) is None,
{
    let grammar = lang.grammar();
    syntax::parse_with(&grammar, source)
}

/// A node carries what tree-sitter reported of it: kind, named flag, field, bytes and rows.
pub open spec fn reads(n: SyntaxNode, raw: syntax::RawNode) -> bool {
    &&& n.kind == raw.kind
    &&& n.named == raw.named
    &&& n.field == raw.field
    &&& n.start_byte == raw.start_byte
    &&& n.end_byte == raw.end_byte
    &&& n.start_row == raw.start_row
    &&& n.end_row == raw.end_row
}

/// Every node's byte range is ordered and its rows leave room for a one-based line number.
pub open spec fn raws_sane(raws: Seq<syntax::RawNode>) -> bool {
    forall|i: int|
        0 <= i < raws.len() ==> {
            &&& (#[trigger] raws[i]).start_byte <= raws[i].end_byte
            &&& raws[i].start_row < usize::MAX
            &&& raws[i].end_row < usize::MAX
        }
}

/// The level at which node `i` is placed: the depth tree-sitter reports, but never more than
/// one below the node before it (the first node is the root, at level 0).
pub open spec fn level(raws: Seq<syntax::RawNode>, i: int) -> nat
    decreases i,
{
    if i <= 0 {
        0
    } else {
        let below = level(raws, i - 1) + 1;
        if raws[i].depth > below {
            below
        } else {
            raws[i].depth as nat
        }
    }
}

/// The last node before `i` at level `k`.
pub open spec fn last_at(raws: Seq<syntax::RawNode>, i: int, k: nat) -> Option<usize>
    decreases i,
{
    if i <= 0 {
        None
    } else if level(raws, i - 1) == k {
        Some((i - 1) as usize)
    } else {
        last_at(raws, i - 1, k)
    }
}

/// A node's parent: the nearest earlier node one level up; the root has none.
pub open spec fn parent_of(raws: Seq<syntax::RawNode>, i: int) -> Option<usize> {
    if level(raws, i) == 0 {
        None
    } else {
        last_at(raws, i, (level(raws, i) - 1) as nat)
    }
}

/// The children of node `p` among the first `n` nodes, in order.
pub open spec fn children_of(raws: Seq<syntax::RawNode>, p: int, n: int) -> Seq<usize>
    decreases n,
{
    if n <= 0 {
        seq![]
    } else if parent_of(raws, n - 1) == Some(p as usize) {
        children_of(raws, p, n - 1).push((n - 1) as usize)
    } else {
        children_of(raws, p, n - 1)
    }
}

/// The node read for raw node `i`: what tree-sitter reported, linked to parent and children.
pub open spec fn linked(n: SyntaxNode, raws: Seq<syntax::RawNode>, i: int) -> bool {
    &&& reads(n, raws[i])
    &&& n.parent == parent_of(raws, i)
    &&& n.children@ == children_of(raws, i, raws.len() as int)
}

proof fn lemma_last_at_before(raws: Seq<syntax::RawNode>, i: int, k: nat)
    ensures
        last_at(raws, i, k) matches Some(j) ==> j < i,
    decreases i,
{
    if i > 0 {
        lemma_last_at_before(raws, i - 1, k);
    }
}

proof fn lemma_no_children_yet(raws: Seq<syntax::RawNode>, p: int, n: int)
    requires
        n <= p + 1,
        0 <= p <= usize::MAX,
    ensures
        children_of(raws, p, n) == Seq::<usize>::empty(),
    decreases n,
{
    if n <= 0 {
        assert(children_of(raws, p, n) =~= Seq::<usize>::empty());
    } else {
        lemma_no_children_yet(raws, p, n - 1);
        let q = n - 1;
        if level(raws, q) != 0 {
            lemma_last_at_before(raws, q, (level(raws, q) - 1) as nat);
        }
    }
}

/// Reads the nodes of a tree-sitter tree out into plain values, and links each to its parent
/// (the nearest earlier node one level up) and its children.
fn read_nodes(tree: &tree_sitter::Tree) -> (r: Vec<SyntaxNode>)
    ensures
        nodes_wf(r@),
        forall|a: int, b: int|
            0 <= a < r@.len() && 0 <= b < r@.len() ==> syntax::rows_agree(
                #[trigger] syntax::tree_nodes(*tree)[a],
                #[trigger] syntax::tree_nodes(*tree)[b],
            ),
        r@.len() == syntax::tree_nodes(*tree).len(),
        forall|i: int| 0 <= i < r@.len() ==> linked(#[trigger] r@[i], syntax::tree_nodes(*tree), i),
{
    let ghost raws = syntax::tree_nodes(*tree);
    let count = syntax::node_count(tree);
    let mut nodes: Vec<SyntaxNode> = Vec::new();
    let mut path: Vec<usize> = Vec::new();
    let mut i: usize = 0;
    while i < count
        invariant
            raws == syntax::tree_nodes(*tree),
            count == raws.len(),
            i <= count,
            nodes@.len() == i,
            nodes_wf(nodes@),
            path@.len() == if i == 0 {
                0
            } else {
                level(raws, i - 1) + 1
            },
            forall|k: int| 0 <= k < path@.len() ==> #[trigger] path@[k] < i && last_at(raws, i as int, k as nat) == Some(path@[k]),
            forall|a: int, b: int|
                0 <= a < i && 0 <= b < raws.len() ==> syntax::rows_agree(#[trigger] raws[a], #[trigger] raws[b]),
            forall|j: int|
                0 <= j < i ==> {
                    &&& reads(#[trigger] nodes@[j], raws[j])
                    &&& nodes@[j].parent == parent_of(raws, j)
                    &&& nodes@[j].children@ == children_of(raws, j, i as int)
                },
        decreases count - i,
    {
        let raw = syntax::node_at(tree, i);
        let depth = if raw.depth > path.len() {
            path.len()
        } else {
            raw.depth
        };
        assert(depth == level(raws, i as int));
        let parent = if depth == 0 {
            None
        } else {
            Some(path[depth - 1])
        };
        assert(parent == parent_of(raws, i as int));
        let ghost old_path = path@;
        path.truncate(depth);
        path.push(i);
        assert forall|k: int| 0 <= k < path@.len() implies #[trigger] path@[k] < i + 1 && last_at(raws, i + 1, k as nat) == Some(path@[k]) by {
            if k < depth {
                assert(path@[k] == old_path[k]);
            }
        }
        let ghost before = nodes@;
        nodes.push(
            SyntaxNode {
                kind: raw.kind,
                named: raw.named,
                field: raw.field,
                start_byte: raw.start_byte,
                end_byte: raw.end_byte,
                start_row: raw.start_row,
                end_row: raw.end_row,
                parent,
                children: Vec::new(),
            },
        );
        proof {
            lemma_no_children_yet(raws, i as int, i + 1);
        }
        assert(node_wf(nodes@, i as int));
        assert forall|j: int| 0 <= j < i implies #[trigger] node_wf(nodes@, j) by {
            assert(node_wf(before, j));
        }
        let ghost mid = nodes@;
        if let Some(p) = parent {
            nodes[p].children.push(i);
            assert forall|j: int| 0 <= j <= i implies #[trigger] node_wf(nodes@, j) by {
                assert(node_wf(mid, j));
                if j == p {
                    assert forall|k: int|
                        #![trigger nodes@[j].children@[k]]
                        0 <= k < nodes@[j].children@.len() implies {
                        let c = nodes@[j].children@[k] as int;
                        &&& j < c < nodes@.len()
                        &&& nodes@[c].parent == Some(j as usize)
                    } by {
                        if k < mid[j].children@.len() {
                            assert(nodes@[j].children@[k] == mid[j].children@[k]);
                        }
                    }
                }
            }
        }
        assert forall|j: int| 0 <= j < i + 1 implies {
            &&& reads(#[trigger] nodes@[j], raws[j])
            &&& nodes@[j].parent == parent_of(raws, j)
            &&& nodes@[j].children@ == children_of(raws, j, i + 1)
        } by {
            if j < i {
                assert(nodes@[j].kind == mid[j].kind);
                if parent == Some(j as usize) {
                    assert(nodes@[j].children@ == mid[j].children@.push(i));
                } else {
                    assert(nodes@[j].children@ == mid[j].children@);
                }
            }
        }
        i += 1;
    }
    nodes
}

/// The file's language has a grammar, the grammar gives a tree, and every node's position is
/// in order.
pub open spec fn parses(path: Seq<char>, source: Seq<char>) -> bool {
    &&& lang_of_path(path) matches Some(lang)
    &&& spec_syntax(lang, source) matches Some(raws)
    &&& raws_sane(raws)
}

/// `p` is the file `source` at `path` as its language's grammar parses it: every node carries
/// what tree-sitter reported of it, linked to its parent and its children.
pub open spec fn parsed_from(p: ParsedFile, path: Seq<char>, source: Seq<char>) -> bool {
    &&& lang_of_path(path) == Some(p.lang)
    &&& p.source@ == source
    &&& p.wf()
    &&& spec_syntax(p.lang, source) matches Some(raws) && {
        &&& p.nodes@.len() == raws.len()
        &&& forall|i: int| 0 <= i < raws.len() ==> linked(#[trigger] p.nodes@[i], raws, i)
    }
}

impl ParsedFile {
    /// Parses a file in the language its path names. `None` for a language without a
    /// parser, when tree-sitter gives no tree, or when a node's position is out of order or
    /// too large to number its lines. Each node carries what tree-sitter reported of it, and is
    /// linked to its parent: the nearest earlier node one level up.
    pub fn parse(path: &str, source: &str) -> (r: Option<ParsedFile>)
        ensures
            r is Some <==> parses(path@, source@),
            r matches Some(p) ==> parsed_from(p, path@, source@),
            r matches Some(p) ==> p.rows_follow_bytes(),
    {
        let lang = match Lang::from_path(path) {
            Some(lang) => lang,
            None => return None,
        };
        let tree = match syntax_tree(lang, source) {
            Some(tree) => tree,
            None => return None,
        };
        let nodes = read_nodes(&tree);
        proof {
            let raws = syntax::tree_nodes(tree);
            if raws_sane(raws) {
                assert forall|i: int| 0 <= i < nodes@.len() implies #[trigger] node_sane(nodes@[i]) by {
                    assert(linked(nodes@[i], raws, i));
                }
            }
            if nodes_sane(nodes@) {
                assert forall|i: int| 0 <= i < raws.len() implies {
                    &&& (#[trigger] raws[i]).start_byte <= raws[i].end_byte
                    &&& raws[i].start_row < usize::MAX
                    &&& raws[i].end_row < usize::MAX
                } by {
                    assert(node_sane(nodes@[i]));
                    assert(linked(nodes@[i], raws, i));
                }
            }
        }
        if !all_sane(&nodes) {
            return None;
        }
        proof {
            let raws = syntax::tree_nodes(tree);
            assert forall|i: int, j: int|
                #![trigger nodes@[i], nodes@[j]]
                0 <= i < nodes@.len() && 0 <= j < nodes@.len() implies syntax::rows_agree(
                raws[i],
                raws[j],
            ) && reads(nodes@[i], raws[i]) && reads(nodes@[j], raws[j]) by {
                assert(linked(nodes@[i], raws, i));
                assert(linked(nodes@[j], raws, j));
            }
        }
        Some(ParsedFile { lang, source: source.to_owned(), nodes })
    }

    /// Nodes that start at the same byte start on the same row, and nodes that end at the same
    /// byte end on the same row.
    pub open spec fn rows_follow_bytes(&self) -> bool {
        forall|i: int, j: int|
            #![trigger self.nodes@[i], self.nodes@[j]]
            0 <= i < self.len() && 0 <= j < self.len() ==> {
                &&& self.nodes@[i].start_byte == self.nodes@[j].start_byte ==> self.nodes@[i].start_row
                    == self.nodes@[j].start_row
                &&& self.nodes@[i].end_byte == self.nodes@[j].end_byte ==> self.nodes@[i].end_row
                    == self.nodes@[j].end_row
            }
    }

    pub open spec fn wf(&self) -> bool {
        nodes_wf(self.nodes@) && nodes_sane(self.nodes@)
    }

    pub open spec fn len(&self) -> int {
        self.nodes@.len() as int
    }

    pub open spec fn kind(&self, i: int) -> Seq<char> {
        self.nodes@[i].kind@
    }

    pub open spec fn children(&self, i: int) -> Seq<usize> {
        self.nodes@[i].children@
    }

    /// The source text of a node: its byte range of the UTF-8 source, or nothing when that
    /// range is not a whole run of characters.
    pub open spec fn spec_text(&self, i: int) -> Seq<char> {
        let bytes = vstd::utf8::encode_utf8(self.source@);
        let (s, e) = (self.nodes@[i].start_byte as int, self.nodes@[i].end_byte as int);
        if s <= e <= bytes.len() && vstd::utf8::valid_utf8(bytes.subrange(s, e)) {
            vstd::utf8::decode_utf8(bytes.subrange(s, e))
        } else {
            seq![]
        }
    }

    pub fn text(&self, node: usize) -> (r: String)
        requires
            node < self.len(),
        ensures
            r@ == self.spec_text(node as int),
    {
        let bytes = self.source.as_str().as_bytes();
        let s = self.nodes[node].start_byte;
        let e = self.nodes[node].end_byte;
        if s > e || e > bytes.len() {
            return String::new();
        }
        let mut part: Vec<u8> = Vec::new();
        let mut i = s;
        while i < e
            invariant
                s <= i <= e <= bytes@.len(),
                part@ == bytes@.subrange(s as int, i as int),
            decreases e - i,
        {
            part.push(bytes[i]);
            i += 1;
            assert(part@ == bytes@.subrange(s as int, i as int));
        }
        match syntax::utf8_string(part.as_slice()) {
            Some(t) => t,
            None => String::new(),
        }
    }

    /// The text of a node as characters.
    pub fn text_chars(&self, node: usize) -> (r: Vec<char>)
        requires
            node < self.len(),
        ensures
            r@ == self.spec_text(node as int),
    {
        let t = self.text(node);
        text::chars_of(t.as_str())
    }

    /// Whether a node's kind equals the literal `kind`.
    pub fn kind_is(&self, node: usize, kind: &str) -> (r: bool)
        requires
            node < self.len(),
        ensures
            r == (self.kind(node as int) == kind@),
    {
        text::str_eq(self.nodes[node].kind.as_str(), kind)
    }

    /// The first child that hangs from `node` under the field `name`, as
    /// `Node::child_by_field_name` finds it.
    pub open spec fn spec_child_by_field(&self, i: int, name: Seq<char>) -> Option<usize> {
        self.child_by_field_from(i, name, 0)
    }

    pub open spec fn child_by_field_from(&self, i: int, name: Seq<char>, k: int) -> Option<usize>
        decreases self.children(i).len() - k,
    {
        if 0 <= k < self.children(i).len() {
            let c = self.children(i)[k];
            if 0 <= c < self.len() && (self.nodes@[c as int].field matches Some(f) && f@ == name) {
                Some(c)
            } else {
                self.child_by_field_from(i, name, k + 1)
            }
        } else {
            None
        }
    }

    pub fn child_by_field_name(&self, node: usize, name: &str) -> (r: Option<usize>)
        requires
            self.wf(),
            node < self.len(),
        ensures
            r == self.spec_child_by_field(node as int, name@),
            r matches Some(c) ==> node < c < self.len(),
    {
        let children = &self.nodes[node].children;
        let mut k: usize = 0;
        while k < children.len()
            invariant
                self.wf(),
                node < self.len(),
                children@ == self.children(node as int),
                k <= children.len(),
                self.spec_child_by_field(node as int, name@) == self.child_by_field_from(
                    node as int,
                    name@,
                    k as int,
                ),
            decreases children.len() - k,
        {
            let c = children[k];
            assert(node_wf(self.nodes@, node as int));
            let matched = match &self.nodes[c].field {
                Some(f) => text::str_eq(f.as_str(), name),
                None => false,
            };
            if matched {
                return Some(c);
            }
            k += 1;
        }
        None
    }

    /// Named children that are not comments: the statements and expressions of a block.
    pub open spec fn is_named_code(&self, c: int) -> bool {
        self.nodes@[c].named && !has_part(self.kind(c), "comment"@)
    }

    pub open spec fn spec_named_children(&self, i: int) -> Seq<usize> {
        self.named_children_from(i, 0)
    }

    pub open spec fn named_children_from(&self, i: int, k: int) -> Seq<usize>
        decreases self.children(i).len() - k,
    {
        if 0 <= k < self.children(i).len() {
            let c = self.children(i)[k];
            let rest = self.named_children_from(i, k + 1);
            if 0 <= c < self.len() && self.is_named_code(c as int) {
                seq![c] + rest
            } else {
                rest
            }
        } else {
            seq![]
        }
    }

    pub fn named_children(&self, node: usize) -> (r: Vec<usize>)
        requires
            self.wf(),
            node < self.len(),
        ensures
            r@ == self.spec_named_children(node as int),
            forall|k: int| 0 <= k < r@.len() ==> node < #[trigger] r@[k] < self.len(),
    {
        let children = &self.nodes[node].children;
        let mut out: Vec<usize> = Vec::new();
        let mut k: usize = 0;
        while k < children.len()
            invariant
                self.wf(),
                node < self.len(),
                children@ == self.children(node as int),
                k <= children.len(),
                out@ + self.named_children_from(node as int, k as int) == self.spec_named_children(
                    node as int,
                ),
                forall|j: int| 0 <= j < out@.len() ==> node < #[trigger] out@[j] < self.len(),
            decreases children.len() - k,
        {
            let c = children[k];
            assert(node_wf(self.nodes@, node as int));
            let kind = text::chars_of(self.nodes[c].kind.as_str());
            if self.nodes[c].named && !contains_str(&kind, "comment") {
                assert(out@.push(c) + self.named_children_from(node as int, k + 1) =~= out@
                    + self.named_children_from(node as int, k as int));
                out.push(c);
            }
            k += 1;
        }
        assert(out@ + self.named_children_from(node as int, k as int) =~= out@);
        out
    }

    /// One-based line of a node's first row.
    pub open spec fn spec_line(&self, i: int) -> int {
        self.nodes@[i].start_row + 1
    }

    pub fn line(&self, node: usize) -> (r: usize)
        requires
            self.wf(),
            node < self.len(),
        ensures
            r == self.spec_line(node as int),
    {
        assert(node_sane(self.nodes@[node as int]));
        self.nodes[node].start_row + 1
    }

    // ------------------------------------------------------------ the functions of a file

    /// The function nodes at or below `i`, outermost first.
    pub open spec fn spec_collect(&self, i: int) -> Seq<usize>
        decreases self.len() - i, 1int, 0int,
    {
        if 0 <= i < self.len() {
            (if lang::spec_is_function(self.kind(i)) {
                seq![i as usize]
            } else {
                seq![]
            }) + self.collect_from(i, 0)
        } else {
            seq![]
        }
    }

    pub open spec fn collect_from(&self, i: int, k: int) -> Seq<usize>
        decreases self.len() - i, 0int, self.children(i).len() - k,
    {
        if 0 <= i < self.len() && 0 <= k < self.children(i).len() {
            let c = self.children(i)[k] as int;
            (if i < c < self.len() {
                self.spec_collect(c)
            } else {
                seq![]
            }) + self.collect_from(i, k + 1)
        } else {
            seq![]
        }
    }

    fn collect(&self, node: usize, found: &mut Vec<usize>)
        requires
            self.wf(),
            node < self.len(),
            forall|j: int| 0 <= j < old(found)@.len() ==> #[trigger] old(found)@[j] < self.len(),
        ensures
            final(found)@ == old(found)@ + self.spec_collect(node as int),
            forall|j: int| 0 <= j < final(found)@.len() ==> #[trigger] final(found)@[j] < self.len(),
        decreases self.len() - node,
    {
        let ghost start = old(found)@;
        if lang::is_function(self.nodes[node].kind.as_str()) {
            found.push(node);
        }
        let ghost first = found@;
        assert(start + self.spec_collect(node as int) =~= first + self.collect_from(node as int, 0));
        let mut k: usize = 0;
        while k < self.nodes[node].children.len()
            invariant
                self.wf(),
                node < self.len(),
                k <= self.children(node as int).len(),
                start + self.spec_collect(node as int) == found@ + self.collect_from(node as int, k as int),
                forall|j: int| 0 <= j < found@.len() ==> #[trigger] found@[j] < self.len(),
            decreases self.children(node as int).len() - k,
        {
            let c = self.nodes[node].children[k];
            assert(node_wf(self.nodes@, node as int));
            let ghost before = found@;
            self.collect(c, found);
            assert(before + self.collect_from(node as int, k as int) =~= found@ + self.collect_from(node as int, k + 1));
            k += 1;
        }
        assert(found@ + self.collect_from(node as int, k as int) =~= found@);
    }

    /// Every function-like node in the file, outermost first.
    pub open spec fn spec_functions(&self) -> Seq<usize> {
        self.spec_collect(0)
    }

    pub fn functions(&self) -> (r: Vec<usize>)
        requires
            self.wf(),
        ensures
            r@ == self.spec_functions(),
            forall|j: int| 0 <= j < r@.len() ==> #[trigger] r@[j] < self.len(),
    {
        let mut found: Vec<usize> = Vec::new();
        if self.nodes.len() > 0 {
            self.collect(0, &mut found);
        }
        assert(found@ =~= self.spec_functions());
        found
    }

    // ------------------------------------------------------------ walking a function

    /// The descendants of `i` in preorder, not descending into nested functions: those are
    /// their own unit of review.
    pub open spec fn spec_within(&self, i: int) -> Seq<usize>
        decreases self.len() - i, 1int, 0int,
    {
        if 0 <= i < self.len() {
            self.within_from(i, 0)
        } else {
            seq![]
        }
    }

    pub open spec fn within_from(&self, i: int, k: int) -> Seq<usize>
        decreases self.len() - i, 0int, self.children(i).len() - k,
    {
        if 0 <= i < self.len() && 0 <= k < self.children(i).len() {
            let c = self.children(i)[k] as int;
            (if i < c < self.len() && !lang::spec_is_function(self.kind(c)) {
                seq![c as usize] + self.spec_within(c)
            } else {
                seq![]
            }) + self.within_from(i, k + 1)
        } else {
            seq![]
        }
    }

    fn within(&self, node: usize, out: &mut Vec<usize>)
        requires
            self.wf(),
            node < self.len(),
            forall|j: int| 0 <= j < old(out)@.len() ==> #[trigger] old(out)@[j] < self.len(),
        ensures
            final(out)@ == old(out)@ + self.spec_within(node as int),
            forall|j: int| 0 <= j < final(out)@.len() ==> #[trigger] final(out)@[j] < self.len(),
        decreases self.len() - node,
    {
        let ghost start = old(out)@;
        let mut k: usize = 0;
        while k < self.nodes[node].children.len()
            invariant
                self.wf(),
                node < self.len(),
                k <= self.children(node as int).len(),
                start + self.spec_within(node as int) == out@ + self.within_from(node as int, k as int),
                forall|j: int| 0 <= j < out@.len() ==> #[trigger] out@[j] < self.len(),
            decreases self.children(node as int).len() - k,
        {
            let c = self.nodes[node].children[k];
            assert(node_wf(self.nodes@, node as int));
            let ghost before = out@;
            if !lang::is_function(self.nodes[c].kind.as_str()) {
                out.push(c);
                self.within(c, out);
                assert(before + self.within_from(node as int, k as int) =~= out@ + self.within_from(node as int, k + 1));
            } else {
                assert(before + self.within_from(node as int, k as int) =~= out@ + self.within_from(node as int, k + 1));
            }
            k += 1;
        }
        assert(out@ + self.within_from(node as int, k as int) =~= out@);
    }

    pub fn descendants(&self, node: usize) -> (r: Vec<usize>)
        requires
            self.wf(),
            node < self.len(),
        ensures
            r@ == self.spec_within(node as int),
            forall|j: int| 0 <= j < r@.len() ==> #[trigger] r@[j] < self.len(),
    {
        let mut out: Vec<usize> = Vec::new();
        self.within(node, &mut out);
        assert(out@ =~= self.spec_within(node as int));
        out
    }

    /// The functions directly below `i`: every function reached without passing through
    /// another one.
    pub open spec fn spec_outer_functions(&self, i: int) -> Seq<usize>
        decreases self.len() - i, 1int, 0int,
    {
        if 0 <= i < self.len() {
            self.outer_functions_from(i, 0)
        } else {
            seq![]
        }
    }

    pub open spec fn outer_functions_from(&self, i: int, k: int) -> Seq<usize>
        decreases self.len() - i, 0int, self.children(i).len() - k,
    {
        if 0 <= i < self.len() && 0 <= k < self.children(i).len() {
            let c = self.children(i)[k] as int;
            (if i < c < self.len() {
                if lang::spec_is_function(self.kind(c)) {
                    seq![c as usize]
                } else {
                    self.spec_outer_functions(c)
                }
            } else {
                seq![]
            }) + self.outer_functions_from(i, k + 1)
        } else {
            seq![]
        }
    }

    pub fn collect_functions(&self, node: usize, out: &mut Vec<usize>)
        requires
            self.wf(),
            node < self.len(),
            forall|j: int| 0 <= j < old(out)@.len() ==> #[trigger] old(out)@[j] < self.len(),
        ensures
            final(out)@ == old(out)@ + self.spec_outer_functions(node as int),
            forall|j: int| 0 <= j < final(out)@.len() ==> #[trigger] final(out)@[j] < self.len(),
        decreases self.len() - node,
    {
        let ghost start = old(out)@;
        let mut k: usize = 0;
        while k < self.nodes[node].children.len()
            invariant
                self.wf(),
                node < self.len(),
                k <= self.children(node as int).len(),
                start + self.spec_outer_functions(node as int) == out@ + self.outer_functions_from(node as int, k as int),
                forall|j: int| 0 <= j < out@.len() ==> #[trigger] out@[j] < self.len(),
            decreases self.children(node as int).len() - k,
        {
            let c = self.nodes[node].children[k];
            assert(node_wf(self.nodes@, node as int));
            let ghost before = out@;
            if lang::is_function(self.nodes[c].kind.as_str()) {
                out.push(c);
            } else {
                self.collect_functions(c, out);
            }
            assert(before + self.outer_functions_from(node as int, k as int) =~= out@ + self.outer_functions_from(node as int, k + 1));
            k += 1;
        }
        assert(out@ + self.outer_functions_from(node as int, k as int) =~= out@);
    }

    /// The nearest switch-like ancestor of `i`.
    pub open spec fn spec_nearest_switch(&self, i: int) -> Option<usize>
        decreases i,
    {
        if 0 <= i < self.len() {
            match self.nodes@[i].parent {
                Some(p) => if p < i {
                    if lang::spec_is_switch(self.kind(p as int)) {
                        Some(p)
                    } else {
                        self.spec_nearest_switch(p as int)
                    }
                } else {
                    None
                },
                None => None,
            }
        } else {
            None
        }
    }

    pub fn nearest_switch(&self, node: usize) -> (r: Option<usize>)
        requires
            self.wf(),
            node < self.len(),
        ensures
            r == self.spec_nearest_switch(node as int),
    {
        let mut current = node;
        loop
            invariant
                self.wf(),
                current < self.len(),
                self.spec_nearest_switch(node as int) == self.spec_nearest_switch(current as int),
            decreases current,
        {
            assert(node_wf(self.nodes@, current as int));
            match self.nodes[current].parent {
                Some(p) => {
                    if lang::is_switch(self.nodes[p].kind.as_str()) {
                        return Some(p);
                    }
                    current = p;
                },
                None => {
                    return None;
                },
            }
        }
    }

    /// The first node at or below `i`, in preorder, whose kind is one of `kinds`.
    pub open spec fn spec_first_of(&self, i: int, kinds: Seq<Seq<char>>) -> Option<usize>
        decreases self.len() - i, 1int, 0int,
    {
        if 0 <= i < self.len() {
            if kinds.contains(self.kind(i)) {
                Some(i as usize)
            } else {
                self.first_of_from(i, 0, kinds)
            }
        } else {
            None
        }
    }

    pub open spec fn first_of_from(&self, i: int, k: int, kinds: Seq<Seq<char>>) -> Option<usize>
        decreases self.len() - i, 0int, self.children(i).len() - k,
    {
        if 0 <= i < self.len() && 0 <= k < self.children(i).len() {
            let c = self.children(i)[k] as int;
            let here = if i < c < self.len() {
                self.spec_first_of(c, kinds)
            } else {
                None
            };
            match here {
                Some(found) => Some(found),
                None => self.first_of_from(i, k + 1, kinds),
            }
        } else {
            None
        }
    }
}

} // verus!
