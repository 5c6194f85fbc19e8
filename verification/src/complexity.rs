//! The complexity score of one function: one, plus one for every decision
//! construct anywhere below the function's node.

use crate::syntax::{descendants, forest_nodes, is_decision, Shape, SyntaxNode};
use vstd::prelude::*;

verus! {

/// How many of `nodes` are decision constructs.
pub open spec fn decision_total(nodes: Seq<Shape>) -> nat {
    nodes.filter(|n: Shape| is_decision(n.kind)).len()
}

/// The complexity of the function whose definition node is `t`.
pub open spec fn complexity(t: Shape) -> nat {
    1 + decision_total(descendants(t))
}

/// `n` as a machine integer, held at the largest one where it does not fit.
pub open spec fn saturated(n: int) -> usize {
    if n <= usize::MAX {
        n as usize
    } else {
        usize::MAX
    }
}

/// Counting over a concatenation adds up.
pub proof fn lemma_decision_total_add(a: Seq<Shape>, b: Seq<Shape>)
    ensures
        decision_total(a + b) == decision_total(a) + decision_total(b),
{
    Seq::filter_distributes_over_add(a, b, |n: Shape| is_decision(n.kind));
}

/// Counting one node more adds one exactly where that node is a decision
/// construct.
pub proof fn lemma_decision_total_push(a: Seq<Shape>, x: Shape)
    ensures
        decision_total(a.push(x)) == decision_total(a) + if is_decision(x.kind) {
            1nat
        } else {
            0nat
        },
{
    a.lemma_filter_push(x, |n: Shape| is_decision(n.kind));
}

/// The walk over the first `i + 1` children of a node meets what the walk over
/// the first `i` met, then child `i`, then what lies below child `i`.
pub proof fn lemma_forest_nodes_step(f: Seq<Shape>, i: int)
    requires
        0 <= i < f.len(),
    ensures
        forest_nodes(f.take(i + 1)) == forest_nodes(f.take(i)).push(f[i]) + descendants(f[i]),
{
    assert(f.take(i + 1).drop_last() =~= f.take(i));
}

/// The kind tags of the decision constructs among `nodes`, in order.
pub open spec fn decision_kinds(nodes: Seq<Shape>) -> Seq<Seq<char>> {
    nodes.map_values(|n: Shape| n.kind).filter(|k: Seq<char>| is_decision(k))
}

/// There are as many decision kind tags as decision constructs.
pub proof fn lemma_decision_kinds_len(nodes: Seq<Shape>)
    ensures
        decision_kinds(nodes).len() == decision_total(nodes),
    decreases nodes.len(),
{
    let kind_of = |n: Shape| n.kind;
    let on_kind = |k: Seq<char>| is_decision(k);
    if nodes.len() == 0 {
        assert(nodes.map_values(kind_of) =~= Seq::<Seq<char>>::empty());
        assert(nodes.filter(|n: Shape| is_decision(n.kind)).len() == 0) by {
            nodes.lemma_filter_len(|n: Shape| is_decision(n.kind));
        }
        assert(nodes.map_values(kind_of).filter(on_kind).len() == 0) by {
            nodes.map_values(kind_of).lemma_filter_len(on_kind);
        }
    } else {
        let rest = nodes.drop_last();
        let x = nodes.last();
        assert(nodes =~= rest.push(x));
        lemma_decision_kinds_len(rest);
        lemma_decision_total_push(rest, x);
        rest.lemma_push_map_commute(kind_of, x);
        rest.map_values(kind_of).lemma_filter_push(kind_of(x), on_kind);
    }
}

/// A function with no decision construct anywhere below its node has
/// complexity one.
pub proof fn lemma_straight_line_scores_one(t: Shape)
    requires
        forall|i: int|
            0 <= i < descendants(t).len() ==> !is_decision(#[trigger] descendants(t)[i].kind),
    ensures
        complexity(t) == 1,
{
    let pred = |n: Shape| is_decision(n.kind);
    assert(descendants(t).all(|n: Shape| !pred(n)));
    descendants(t).lemma_all_neg_filter_empty(pred);
}

/// Complexity looks at which decision constructs lie below a function and how
/// often, not at where: two functions whose descendants carry the same
/// decision kinds the same number of times have the same complexity, however
/// the constructs are ordered or nested.
pub proof fn lemma_complexity_ignores_arrangement(a: Shape, b: Shape)
    requires
        decision_kinds(descendants(a)).to_multiset() == decision_kinds(
            descendants(b),
        ).to_multiset(),
    ensures
        complexity(a) == complexity(b),
{
    lemma_decision_kinds_len(descendants(a));
    lemma_decision_kinds_len(descendants(b));
    vstd::seq_lib::to_multiset_len(decision_kinds(descendants(a)));
    vstd::seq_lib::to_multiset_len(decision_kinds(descendants(b)));
}

/// The running count of decision constructs met during one walk.
pub struct FunctionCC {
    cnt: usize,
}

impl FunctionCC {
    /// The complexity of the function rooted at `func_root`: one for the
    /// straight path, and one more for each decision construct among the
    /// node's descendants, at whatever depth. The node itself is not counted.
    /// A count that no `usize` holds stays at `usize::MAX`.
    pub fn count_cc(func_root: &SyntaxNode) -> (cc: usize)
        ensures
            cc == saturated(complexity(func_root@) as int),
            complexity(func_root@) <= usize::MAX ==> cc == 1 + decision_total(
                descendants(func_root@),
            ),
            cc >= 1,
    {
        let mut cc = FunctionCC { cnt: 1 };
        cc.travers(func_root);
        cc.cnt
    }

    /// Walks everything below `node` and adds its decision constructs to the
    /// running count.
    fn travers(&mut self, node: &SyntaxNode)
        ensures
            final(self).cnt == saturated(old(self).cnt + decision_total(descendants(node@))),
        decreases node,
    {
        let n = node.children.len();
        let mut i: usize = 0;
        proof {
            node.lemma_view_children();
            assert(node@.children.take(0) =~= Seq::<Shape>::empty());
        }
        while i < n
            invariant
                i <= n,
                n == node.children@.len(),
                n == node@.children.len(),
                self.cnt == saturated(
                    old(self).cnt + decision_total(forest_nodes(node@.children.take(i as int))),
                ),
            decreases n - i,
        {
            let child = &node.children[i];
            let ghost before = forest_nodes(node@.children.take(i as int));
            proof {
                node.lemma_view_children();
                lemma_forest_nodes_step(node@.children, i as int);
                lemma_decision_total_push(before, child@);
                lemma_decision_total_add(before.push(child@), descendants(child@));
            }
            if child.is_decision_node() && self.cnt < usize::MAX {
                self.cnt += 1;
            }
            self.travers(child);
            i += 1;
        }
        proof {
            assert(node@.children.take(n as int) =~= node@.children);
        }
    }
}

} // verus!
