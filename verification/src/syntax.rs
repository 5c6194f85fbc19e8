//! Syntax trees as the analysis reads them.

use crate::text::same_text;
use vstd::prelude::*;

verus! {

/// The mathematical form of a syntax tree: a kind tag, the byte range that
/// locates the node in the source text, and the ordered children.
pub struct Shape {
    pub kind: Seq<char>,
    pub start: nat,
    pub end: nat,
    pub children: Seq<Shape>,
}

/// One node of a parsed source unit, owning its children.
pub struct SyntaxNode {
    pub kind: String,
    pub start: usize,
    pub end: usize,
    pub children: Vec<SyntaxNode>,
}

/// The mathematical form of the node `n`.
pub open spec fn shape_of(n: SyntaxNode) -> Shape
    decreases n, 0nat,
{
    Shape {
        kind: n.kind@,
        start: n.start as nat,
        end: n.end as nat,
        children: shapes_of(n.children@),
    }
}

/// The mathematical forms of the nodes `s`, in order.
pub open spec fn shapes_of(s: Seq<SyntaxNode>) -> Seq<Shape>
    decreases s, 1nat,
{
    if s.len() == 0 {
        Seq::empty()
    } else {
        shapes_of(s.drop_last()).push(shape_of(s.last()))
    }
}

/// `shapes_of` keeps the length and works item by item.
pub proof fn lemma_shapes_of(s: Seq<SyntaxNode>)
    ensures
        shapes_of(s).len() == s.len(),
        forall|i: int| 0 <= i < s.len() ==> #[trigger] shapes_of(s)[i] == shape_of(s[i]),
    decreases s.len(),
{
    if s.len() > 0 {
        lemma_shapes_of(s.drop_last());
    }
}

impl View for SyntaxNode {
    type V = Shape;

    open spec fn view(&self) -> Shape {
        shape_of(*self)
    }
}

/// The proper descendants of `t`, in the order a pre-order walk meets them.
pub open spec fn descendants(t: Shape) -> Seq<Shape>
    decreases t, 0nat,
{
    forest_nodes(t.children)
}

/// The nodes of a sequence of sibling trees: each tree's root, followed by its
/// descendants, tree after tree.
pub open spec fn forest_nodes(f: Seq<Shape>) -> Seq<Shape>
    decreases f, 1nat,
{
    if f.len() == 0 {
        Seq::empty()
    } else {
        forest_nodes(f.drop_last()).push(f.last()) + descendants(f.last())
    }
}

/// Whether a kind tag names a decision construct: a loop, a conditional or one
/// of its branches, a piece of exception handling, or a function definition.
pub open spec fn is_decision(kind: Seq<char>) -> bool {
    ||| kind == "for_statement"@
    ||| kind == "if_statement"@
    ||| kind == "while_statement"@
    ||| kind == "try_statement"@
    ||| kind == "except_clause"@
    ||| kind == "finally_clause"@
    ||| kind == "elif_clause"@
    ||| kind == "function_definition"@
}

impl SyntaxNode {
    /// The children of the viewed node are the views of the children.
    pub proof fn lemma_view_children(&self)
        ensures
            self@.children.len() == self.children@.len(),
            forall|i: int|
                0 <= i < self.children@.len() ==> #[trigger] self@.children[i]
                    == self.children@[i]@,
    {
        lemma_shapes_of(self.children@);
    }

    /// Whether this node's kind tag is `kind`.
    pub fn has_kind(&self, kind: &str) -> (yes: bool)
        ensures
            yes == (self@.kind == kind@),
    {
        same_text(self.kind.as_str(), kind)
    }

    /// Whether this node is a decision construct.
    pub fn is_decision_node(&self) -> (yes: bool)
        ensures
            yes == is_decision(self@.kind),
    {
        self.has_kind("for_statement") || self.has_kind("if_statement") || self.has_kind(
            "while_statement",
        ) || self.has_kind("try_statement") || self.has_kind("except_clause") || self.has_kind(
            "finally_clause",
        ) || self.has_kind("elif_clause") || self.has_kind("function_definition")
    }
}

} // verus!
