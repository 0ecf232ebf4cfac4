use vstd::prelude::*;
use crate::tree::{lemma_wf_same_shape, node_view, SyntaxNode, SyntaxTree, MAX_NODES};
use tree_sitter::{LanguageError, Node, Parser, Tree, TreeCursor};

verus! {

#[verifier::external_type_specification]
#[verifier::external_body]
pub struct ExParser(Parser);

#[verifier::external_type_specification]
#[verifier::external_body]
pub struct ExTree(Tree);

#[verifier::external_type_specification]
#[verifier::external_body]
pub struct ExLanguageError(LanguageError);

#[verifier::external_type_specification]
#[verifier::external_body]
pub struct ExTreeCursor<'a>(TreeCursor<'a>);

#[verifier::external_type_specification]
#[verifier::external_body]
pub struct ExNode<'a>(Node<'a>);

/// The nodes, in depth-first order (kind, named, depth, start byte, end
/// byte), of the tree that tree-sitter's Rust grammar gives for the bytes.
pub uninterp spec fn rust_tree_of(src: Seq<u8>) -> Seq<(Seq<char>, bool, nat, nat, nat)>;

/// The nodes a tree holds, in depth-first order.
pub uninterp spec fn tree_nodes(t: Tree) -> Seq<(Seq<char>, bool, nat, nat, nat)>;

/// The nodes of the tree a cursor walks, in depth-first order.
pub uninterp spec fn cursor_nodes(c: TreeCursor) -> Seq<(Seq<char>, bool, nat, nat, nat)>;

/// The depth-first index of the cursor's current node.
pub uninterp spec fn cursor_index(c: TreeCursor) -> int;

/// A node's kind, whether it is named, and its start and end bytes.
pub uninterp spec fn node_fields(n: Node) -> (Seq<char>, bool, nat, nat);

/// The number of nodes in a node's subtree, itself included.
pub uninterp spec fn node_descendants(n: Node) -> nat;

/// Relies on tree_sitter::Parser::new: a parser with no language yet.
#[verifier::external_body]
fn new_parser() -> Parser {
    Parser::new()
}

/// Relies on tree_sitter::Parser::set_language with the grammar of
/// tree_sitter_rust::LANGUAGE, whose ABI version the parser accepts.
#[verifier::external_body]
fn set_rust_language(p: &mut Parser) -> (r: Result<(), LanguageError>)
    ensures
        r is Ok,
{
    p.set_language(&tree_sitter_rust::LANGUAGE.into())
}

/// A parser set to the Rust grammar; `RustParser::new` is the only way to
/// make one.
pub struct RustParser {
    parser: Parser,
}

impl RustParser {
    pub fn new() -> (r: RustParser) {
        let mut parser = new_parser();
        let _ = set_rust_language(&mut parser);
        RustParser { parser }
    }
}

/// Relies on tree_sitter::Parser::parse: with a language set it gives the
/// tree, which depends on the bytes alone.
#[verifier::external_body]
fn parse_bytes(p: &mut RustParser, src: &[u8]) -> (r: Option<Tree>)
    ensures
        r is Some,
        tree_nodes(r->0) == rust_tree_of(src@),
{
    p.parser.parse(src, None)
}

/// Relies on tree_sitter::Tree::root_node: its subtree is the whole tree.
#[verifier::external_body]
fn tree_root(t: &Tree) -> (r: Node<'_>)
    ensures
        node_descendants(r) == tree_nodes(*t).len(),
{
    t.root_node()
}

/// Relies on tree_sitter::Node::descendant_count.
#[verifier::external_body]
fn node_descendant_count(n: &Node) -> (r: usize)
    ensures
        r == node_descendants(*n),
{
    n.descendant_count()
}

/// Relies on tree_sitter::Tree::walk: a cursor on the root.
#[verifier::external_body]
fn tree_cursor(t: &Tree) -> (r: TreeCursor<'_>)
    ensures
        cursor_nodes(r) == tree_nodes(*t),
        cursor_index(r) == 0,
{
    t.walk()
}

/// Relies on tree_sitter::TreeCursor::goto_descendant: moves to the node of
/// that depth-first index.
#[verifier::external_body]
fn cursor_goto(c: &mut TreeCursor, i: usize)
    requires
        i < cursor_nodes(*old(c)).len(),
    ensures
        cursor_nodes(*final(c)) == cursor_nodes(*old(c)),
        cursor_index(*final(c)) == i,
{
    c.goto_descendant(i)
}

/// Relies on tree_sitter::TreeCursor::depth: the depth below the root.
#[verifier::external_body]
fn cursor_depth(c: &TreeCursor) -> (r: u32)
    requires
        0 <= cursor_index(*c) < cursor_nodes(*c).len(),
    ensures
        r == cursor_nodes(*c)[cursor_index(*c)].2,
{
    c.depth()
}

/// Relies on tree_sitter::TreeCursor::node: the node under the cursor.
#[verifier::external_body]
fn cursor_node<'a>(c: &TreeCursor<'a>) -> (r: Node<'a>)
    requires
        0 <= cursor_index(*c) < cursor_nodes(*c).len(),
    ensures
        node_fields(r) == (
            cursor_nodes(*c)[cursor_index(*c)].0,
            cursor_nodes(*c)[cursor_index(*c)].1,
            cursor_nodes(*c)[cursor_index(*c)].3,
            cursor_nodes(*c)[cursor_index(*c)].4,
        ),
{
    c.node()
}

/// Relies on tree_sitter::Node::kind.
#[verifier::external_body]
fn node_kind(n: &Node) -> (r: String)
    ensures
        r@ == node_fields(*n).0,
{
    n.kind().to_string()
}

/// Relies on tree_sitter::Node::is_named.
#[verifier::external_body]
fn node_is_named(n: &Node) -> (r: bool)
    ensures
        r == node_fields(*n).1,
{
    n.is_named()
}

/// Relies on tree_sitter::Node::start_byte.
#[verifier::external_body]
fn node_start_byte(n: &Node) -> (r: usize)
    ensures
        r == node_fields(*n).2,
{
    n.start_byte()
}

/// Relies on tree_sitter::Node::end_byte.
#[verifier::external_body]
fn node_end_byte(n: &Node) -> (r: usize)
    ensures
        r == node_fields(*n).3,
{
    n.end_byte()
}

/// Some well-formed tree holds exactly these nodes.
pub open spec fn has_wf_tree(nodes: Seq<(Seq<char>, bool, nat, nat, nat)>) -> bool {
    exists|t: SyntaxTree| t.wf() && #[trigger] t.view_nodes() == nodes
}

/// Copies a tree-sitter tree, node by node in depth-first order; `None`
/// where the copy would not be well formed.
fn copy_tree(t: &Tree) -> (r: Option<SyntaxTree>)
    ensures
        r matches Some(st) ==> st.wf() && st.view_nodes() == tree_nodes(*t),
        has_wf_tree(tree_nodes(*t)) ==> r is Some,
{
    let root = tree_root(t);
    let n = node_descendant_count(&root);
    if n > MAX_NODES {
        proof {
            if has_wf_tree(tree_nodes(*t)) {
                let x = choose|x: SyntaxTree| x.wf() && #[trigger] x.view_nodes() == tree_nodes(*t);
                assert(x.view_nodes().len() == x.nodes@.len());
            }
        }
        return None;
    }
    let mut c = tree_cursor(t);
    let mut nodes: Vec<SyntaxNode> = Vec::new();
    let mut i: usize = 0;
    while i < n
        invariant
            n == tree_nodes(*t).len(),
            n <= MAX_NODES,
            i <= n,
            cursor_nodes(c) == tree_nodes(*t),
            nodes@.len() == i,
            forall|k: int| 0 <= k < i ==> node_view(#[trigger] nodes@[k]) == tree_nodes(*t)[k],
        decreases n - i,
    {
        cursor_goto(&mut c, i);
        let depth = cursor_depth(&c);
        let node = cursor_node(&c);
        let kind = node_kind(&node);
        let named = node_is_named(&node);
        let start = node_start_byte(&node);
        let end = node_end_byte(&node);
        nodes.push(SyntaxNode { kind, named, depth: depth as usize, start, end });
        i += 1;
    }
    let st = SyntaxTree { nodes };
    assert(st.view_nodes() =~= tree_nodes(*t));
    if st.check_wf() {
        Some(st)
    } else {
        proof {
            if has_wf_tree(tree_nodes(*t)) {
                let x = choose|x: SyntaxTree| x.wf() && #[trigger] x.view_nodes() == tree_nodes(*t);
                lemma_wf_same_shape(st, x);
            }
        }
        None
    }
}

/// Parses Rust source bytes into a syntax tree: the tree-sitter tree for the
/// bytes, copied where it is well formed.
pub fn parse_rust(src: &[u8]) -> (r: Option<SyntaxTree>)
    ensures
        r matches Some(t) ==> t.wf() && t.view_nodes() == rust_tree_of(src@),
        has_wf_tree(rust_tree_of(src@)) ==> r is Some,
{
    let mut parser = RustParser::new();
    match parse_bytes(&mut parser, src) {
        Some(tree) => copy_tree(&tree),
        None => None,
    }
}

} // verus!
