//! The calls into tree-sitter. Parsing is the one thing only the grammar crates can do: what a
//! grammar makes of a text is given a name per grammar, the tree is read out node by node into
//! plain values, and everything after that is the library's own verified code (see
//! `tree::ParsedFile`).

use vstd::prelude::*;

verus! {

#[verifier::external_type_specification]
#[verifier::external_body]
pub struct ExLanguage(tree_sitter::Language);

#[verifier::external_type_specification]
#[verifier::external_body]
pub struct ExParser(tree_sitter::Parser);

#[verifier::external_type_specification]
#[verifier::external_body]
pub struct ExTree(tree_sitter::Tree);

/// One node of a syntax tree as tree-sitter reports it.
pub struct RawNode {
    /// The grammar's name for the node, e.g. `if_statement`.
    pub kind: String,
    /// Named nodes are the grammar's rules; the others are punctuation and keywords.
    pub named: bool,
    /// The field under which the node hangs from its parent, e.g. `body`.
    pub field: Option<String>,
    /// The number of ancestors the node has.
    pub depth: usize,
    pub start_byte: usize,
    pub end_byte: usize,
    /// Zero-based rows.
    pub start_row: usize,
    pub end_row: usize,
}

/// What a tree holds: its nodes in preorder, the root first (tree-sitter's "descendant index"
/// order).
pub uninterp spec fn tree_nodes(tree: tree_sitter::Tree) -> Seq<RawNode>;

/// What parsing `source` with `grammar` gives: the nodes of the tree in preorder; `None` when
/// the parser does not accept the grammar or gives no tree.
pub uninterp spec fn grammar_syntax(grammar: tree_sitter::Language, source: Seq<char>) -> Option<Seq<RawNode>>;

/// `tree_sitter::Parser::set_language` with `grammar`, then `Parser::parse` of `source`.
#[verifier::external_body]
pub(crate) fn parse_with(grammar: &tree_sitter::Language, source: &str) -> (r: Option<tree_sitter::Tree>)
    ensures
        r matches Some(t) ==> grammar_syntax(*grammar, source@) == Some(tree_nodes(t)),
        r is None ==> grammar_syntax(*grammar, source@) is None,
{
    let mut parser = tree_sitter::Parser::new();
    parser.set_language(grammar).ok()?;
    parser.parse(source, None)
}

/// What tree-sitter's Python grammar makes of `source`: the nodes of the tree in preorder;
/// `None` when the parser does not accept the grammar or gives no tree.
pub uninterp spec fn python_syntax(source: Seq<char>) -> Option<Seq<RawNode>>;

/// `tree_sitter_python::LANGUAGE`, as a `Language`: the Python grammar, so that parsing any text with it gives
/// what that grammar makes of the text.
#[verifier::external_body]
pub(crate) fn python_grammar() -> (r: tree_sitter::Language)
    ensures
        forall|source: Seq<char>| #[trigger] grammar_syntax(r, source) == python_syntax(source),
{
    tree_sitter_python::LANGUAGE.into()
}

/// What tree-sitter's JavaScript grammar makes of `source`: the nodes of the tree in preorder;
/// `None` when the parser does not accept the grammar or gives no tree.
pub uninterp spec fn javascript_syntax(source: Seq<char>) -> Option<Seq<RawNode>>;

/// `tree_sitter_javascript::LANGUAGE`, as a `Language`: the JavaScript grammar, so that parsing any text with it gives
/// what that grammar makes of the text.
#[verifier::external_body]
pub(crate) fn javascript_grammar() -> (r: tree_sitter::Language)
    ensures
        forall|source: Seq<char>| #[trigger] grammar_syntax(r, source) == javascript_syntax(source),
{
    tree_sitter_javascript::LANGUAGE.into()
}

/// What tree-sitter's TypeScript grammar makes of `source`: the nodes of the tree in preorder;
/// `None` when the parser does not accept the grammar or gives no tree.
pub uninterp spec fn typescript_syntax(source: Seq<char>) -> Option<Seq<RawNode>>;

/// `tree_sitter_typescript::LANGUAGE_TYPESCRIPT`, as a `Language`: the TypeScript grammar, so that parsing any text with it gives
/// what that grammar makes of the text.
#[verifier::external_body]
pub(crate) fn typescript_grammar() -> (r: tree_sitter::Language)
    ensures
        forall|source: Seq<char>| #[trigger] grammar_syntax(r, source) == typescript_syntax(source),
{
    tree_sitter_typescript::LANGUAGE_TYPESCRIPT.into()
}

/// What tree-sitter's TSX grammar makes of `source`: the nodes of the tree in preorder;
/// `None` when the parser does not accept the grammar or gives no tree.
pub uninterp spec fn tsx_syntax(source: Seq<char>) -> Option<Seq<RawNode>>;

/// `tree_sitter_typescript::LANGUAGE_TSX`, as a `Language`: the TSX grammar, so that parsing any text with it gives
/// what that grammar makes of the text.
#[verifier::external_body]
pub(crate) fn tsx_grammar() -> (r: tree_sitter::Language)
    ensures
        forall|source: Seq<char>| #[trigger] grammar_syntax(r, source) == tsx_syntax(source),
{
    tree_sitter_typescript::LANGUAGE_TSX.into()
}

/// What tree-sitter's Java grammar makes of `source`: the nodes of the tree in preorder;
/// `None` when the parser does not accept the grammar or gives no tree.
pub uninterp spec fn java_syntax(source: Seq<char>) -> Option<Seq<RawNode>>;

/// `tree_sitter_java::LANGUAGE`, as a `Language`: the Java grammar, so that parsing any text with it gives
/// what that grammar makes of the text.
#[verifier::external_body]
pub(crate) fn java_grammar() -> (r: tree_sitter::Language)
    ensures
        forall|source: Seq<char>| #[trigger] grammar_syntax(r, source) == java_syntax(source),
{
    tree_sitter_java::LANGUAGE.into()
}

/// What tree-sitter's Go grammar makes of `source`: the nodes of the tree in preorder;
/// `None` when the parser does not accept the grammar or gives no tree.
pub uninterp spec fn go_syntax(source: Seq<char>) -> Option<Seq<RawNode>>;

/// `tree_sitter_go::LANGUAGE`, as a `Language`: the Go grammar, so that parsing any text with it gives
/// what that grammar makes of the text.
#[verifier::external_body]
pub(crate) fn go_grammar() -> (r: tree_sitter::Language)
    ensures
        forall|source: Seq<char>| #[trigger] grammar_syntax(r, source) == go_syntax(source),
{
    tree_sitter_go::LANGUAGE.into()
}

/// What tree-sitter's PHP grammar makes of `source`: the nodes of the tree in preorder;
/// `None` when the parser does not accept the grammar or gives no tree.
pub uninterp spec fn php_syntax(source: Seq<char>) -> Option<Seq<RawNode>>;

/// `tree_sitter_php::LANGUAGE_PHP`, as a `Language`: the PHP grammar, so that parsing any text with it gives
/// what that grammar makes of the text.
#[verifier::external_body]
pub(crate) fn php_grammar() -> (r: tree_sitter::Language)
    ensures
        forall|source: Seq<char>| #[trigger] grammar_syntax(r, source) == php_syntax(source),
{
    tree_sitter_php::LANGUAGE_PHP.into()
}

/// What tree-sitter's Rust grammar makes of `source`: the nodes of the tree in preorder;
/// `None` when the parser does not accept the grammar or gives no tree.
pub uninterp spec fn rust_syntax(source: Seq<char>) -> Option<Seq<RawNode>>;

/// `tree_sitter_rust::LANGUAGE`, as a `Language`: the Rust grammar, so that parsing any text with it gives
/// what that grammar makes of the text.
#[verifier::external_body]
pub(crate) fn rust_grammar() -> (r: tree_sitter::Language)
    ensures
        forall|source: Seq<char>| #[trigger] grammar_syntax(r, source) == rust_syntax(source),
{
    tree_sitter_rust::LANGUAGE.into()
}

/// What tree-sitter's C grammar makes of `source`: the nodes of the tree in preorder;
/// `None` when the parser does not accept the grammar or gives no tree.
pub uninterp spec fn c_syntax(source: Seq<char>) -> Option<Seq<RawNode>>;

/// `tree_sitter_c::LANGUAGE`, as a `Language`: the C grammar, so that parsing any text with it gives
/// what that grammar makes of the text.
#[verifier::external_body]
pub(crate) fn c_grammar() -> (r: tree_sitter::Language)
    ensures
        forall|source: Seq<char>| #[trigger] grammar_syntax(r, source) == c_syntax(source),
{
    tree_sitter_c::LANGUAGE.into()
}

/// What tree-sitter's C++ grammar makes of `source`: the nodes of the tree in preorder;
/// `None` when the parser does not accept the grammar or gives no tree.
pub uninterp spec fn cpp_syntax(source: Seq<char>) -> Option<Seq<RawNode>>;

/// `tree_sitter_cpp::LANGUAGE`, as a `Language`: the C++ grammar, so that parsing any text with it gives
/// what that grammar makes of the text.
#[verifier::external_body]
pub(crate) fn cpp_grammar() -> (r: tree_sitter::Language)
    ensures
        forall|source: Seq<char>| #[trigger] grammar_syntax(r, source) == cpp_syntax(source),
{
    tree_sitter_cpp::LANGUAGE.into()
}

/// What tree-sitter's C# grammar makes of `source`: the nodes of the tree in preorder;
/// `None` when the parser does not accept the grammar or gives no tree.
pub uninterp spec fn csharp_syntax(source: Seq<char>) -> Option<Seq<RawNode>>;

/// `tree_sitter_c_sharp::LANGUAGE`, as a `Language`: the C# grammar, so that parsing any text with it gives
/// what that grammar makes of the text.
#[verifier::external_body]
pub(crate) fn csharp_grammar() -> (r: tree_sitter::Language)
    ensures
        forall|source: Seq<char>| #[trigger] grammar_syntax(r, source) == csharp_syntax(source),
{
    tree_sitter_c_sharp::LANGUAGE.into()
}

/// `Node::descendant_count` of the root: the number of nodes in the tree, the root included.
#[verifier::external_body]
pub(crate) fn node_count(tree: &tree_sitter::Tree) -> (r: usize)
    ensures
        r == tree_nodes(*tree).len(),
{
    tree.root_node().descendant_count()
}

/// Two nodes that start at the same byte start on the same row, and two that end at the same
/// byte end on the same row.
pub open spec fn rows_agree(a: RawNode, b: RawNode) -> bool {
    &&& a.start_byte == b.start_byte ==> a.start_row == b.start_row
    &&& a.end_byte == b.end_byte ==> a.end_row == b.end_row
}

/// The node at position `index` of the tree's preorder, read with
/// `TreeCursor::goto_descendant`: its kind, named flag, field name, depth, byte range and rows.
/// Its rows agree with those of every node of the tree at the same byte: tree-sitter keeps each
/// position as a `Length` of bytes and a point summed side by side (`length_add` in
/// `src/length.h`), so within one tree a point follows from its byte offset.
#[verifier::external_body]
pub(crate) fn node_at(tree: &tree_sitter::Tree, index: usize) -> (r: RawNode)
    requires
        index < tree_nodes(*tree).len(),
    ensures
        r == tree_nodes(*tree)[index as int],
        forall|j: int| 0 <= j < tree_nodes(*tree).len() ==> rows_agree(r, #[trigger] tree_nodes(*tree)[j]),
{
    let mut cursor = tree.walk();
    cursor.goto_descendant(index);
    let node = cursor.node();
    RawNode {
        kind: node.kind().to_string(),
        named: node.is_named(),
        field: cursor.field_name().map(|f| f.to_string()),
        depth: cursor.depth() as usize,
        start_byte: node.start_byte(),
        end_byte: node.end_byte(),
        start_row: node.start_position().row,
        end_row: node.end_position().row,
    }
}

/// `std::str::from_utf8` of `bytes`, as an owned string.
///
/// Trusted: `from_utf8` succeeds exactly on valid UTF-8 and returns the text those bytes
/// encode, as its documentation says.
#[verifier::external_body]
pub(crate) fn utf8_string(bytes: &[u8]) -> (r: Option<String>)
    ensures
        r is Some <==> vstd::utf8::valid_utf8(bytes@),
        r matches Some(s) ==> s@ == vstd::utf8::decode_utf8(bytes@),
{
    std::str::from_utf8(bytes).ok().map(|s| s.to_string())
}

} // verus!
