//! The Python grammar, reached through the `tree-sitter` parser, and the copy
//! of a parsed tree into the library's own nodes.

use crate::syntax::{lemma_shapes_of, shape_of, Shape, SyntaxNode};
use vstd::prelude::*;

verus! {

/// `tree_sitter::Tree`, the parser's own syntax tree, carried as it is.
#[verifier::external_type_specification]
#[verifier::external_body]
pub struct ExTree(tree_sitter::Tree);

/// `tree_sitter::Node`, a node inside such a tree, carried as it is.
#[verifier::external_type_specification]
#[verifier::external_body]
pub struct ExNode<'tree>(tree_sitter::Node<'tree>);

/// The syntax tree that `tree-sitter`, with the `tree-sitter-python` grammar,
/// builds for the source text `src`; `None` where it builds none. Nothing is
/// assumed of the tree beyond its being determined by the text.
pub uninterp spec fn python_tree(src: Seq<char>) -> Option<Shape>;

/// What a `tree_sitter::Tree` holds: the tree below its root node.
pub uninterp spec fn tree_shape(tree: tree_sitter::Tree) -> Shape;

/// What a `tree_sitter::Node` stands for: its kind, its byte range and the
/// trees of its children.
pub uninterp spec fn node_shape(node: tree_sitter::Node) -> Shape;

/// Parses `src` as Python: `Parser::set_language` with
/// `tree_sitter_python::language`, then `Parser::parse` on a fresh parser with
/// no earlier tree. The contract claims only that the outcome is the one that
/// `python_tree` names for this text; `None` stands for a grammar that the
/// parser rejects and for a parse that returns no tree.
#[verifier::external_body]
fn parse_tree(src: &str) -> (out: Option<tree_sitter::Tree>)
    ensures
        python_tree(src@) == match out {
            Some(tree) => Some(tree_shape(tree)),
            None => None,
        },
{
    let mut parser = tree_sitter::Parser::new();
    parser.set_language(tree_sitter_python::language()).ok()?;
    parser.parse(src, None)
}

/// `Tree::root_node`: the node at the top of what the tree holds.
#[verifier::external_body]
fn tree_root<'tree>(tree: &'tree tree_sitter::Tree) -> (out: tree_sitter::Node<'tree>)
    ensures
        node_shape(out) == tree_shape(*tree),
{
    tree.root_node()
}

/// `Node::kind`: the node's kind tag.
#[verifier::external_body]
fn node_kind(node: &tree_sitter::Node) -> (out: &'static str)
    ensures
        out@ == node_shape(*node).kind,
{
    node.kind()
}

/// `Node::start_byte`: where the node's byte range starts.
#[verifier::external_body]
fn node_start(node: &tree_sitter::Node) -> (out: usize)
    ensures
        out == node_shape(*node).start,
{
    node.start_byte()
}

/// `Node::end_byte`: where the node's byte range ends.
#[verifier::external_body]
fn node_end(node: &tree_sitter::Node) -> (out: usize)
    ensures
        out == node_shape(*node).end,
{
    node.end_byte()
}

/// `Node::child_count`: the number of the node's children.
#[verifier::external_body]
fn node_child_count(node: &tree_sitter::Node) -> (out: usize)
    ensures
        out == node_shape(*node).children.len(),
{
    node.child_count()
}

/// `Node::child`: the child at index `i`, which exists for every index below
/// the number of children. Nothing is claimed for other indices.
#[verifier::external_body]
fn node_child<'tree>(node: &tree_sitter::Node<'tree>, i: usize) -> (out: Option<
    tree_sitter::Node<'tree>,
>)
    ensures
        i < node_shape(*node).children.len() ==> out is Some && node_shape(out->Some_0)
            == node_shape(*node).children[i as int],
{
    node.child(i)
}

/// Copies `node` and everything below it into the library's own nodes.
fn lower(node: &tree_sitter::Node) -> (out: SyntaxNode)
    ensures
        out@ == node_shape(*node),
    decreases node_shape(*node),
{
    let n = node_child_count(node);
    let mut children: Vec<SyntaxNode> = Vec::new();
    let mut i: usize = 0;
    while i < n
        invariant
            i <= n,
            n == node_shape(*node).children.len(),
            children@.len() == i,
            forall|k: int| 0 <= k < i ==> shape_of(#[trigger] children@[k]) == node_shape(
                *node,
            ).children[k],
        decreases n - i,
    {
        if let Some(child) = node_child(node, i) {
            let copy = lower(&child);
            children.push(copy);
        }
        i += 1;
    }
    let out = SyntaxNode {
        kind: node_kind(node).to_owned(),
        start: node_start(node),
        end: node_end(node),
        children,
    };
    proof {
        lemma_shapes_of(out.children@);
        assert(out@.children =~= node_shape(*node).children);
    }
    out
}

/// The syntax tree of the Python source text `src`, where the parser builds
/// one.
pub fn parse_python(src: &str) -> (out: Option<SyntaxNode>)
    ensures
        python_tree(src@) == match out {
            Some(root) => Some(root@),
            None => None,
        },
{
    match parse_tree(src) {
        Some(tree) => {
            let root = tree_root(&tree);
            Some(lower(&root))
        },
        None => None,
    }
}

} // verus!
