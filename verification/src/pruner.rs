//! Removal of completed task items from a tree.

use vstd::prelude::*;
use crate::document::{forest, lemma_view_children, Node, Tree};

verus! {

/// The tree without the completed task items below its root. A completed
/// task item goes with everything under it, whatever state its own
/// subtasks are in; the nodes that stay keep their order.
pub open spec fn pruned(tree: Tree) -> Tree
    decreases tree,
{
    Tree { kind: tree.kind, column: tree.column, children: pruned_forest(tree.children) }
}

/// The siblings that are not completed task items, each pruned in turn.
pub open spec fn pruned_forest(trees: Seq<Tree>) -> Seq<Tree>
    decreases trees,
{
    if trees.len() == 0 {
        Seq::empty()
    } else {
        let init = pruned_forest(trees.drop_last());
        if trees.last().is_completed_task() {
            init
        } else {
            init.push(pruned(trees.last()))
        }
    }
}

/// The trees of a run of nodes that grew by one node.
pub proof fn lemma_forest_push(nodes: Seq<Node>, node: Node)
    ensures
        forest(nodes.push(node)) == forest(nodes).push(node@),
{
    assert(forest(nodes.push(node)) =~= forest(nodes).push(node@));
}

/// The trees of the first `n + 1` nodes are those of the first `n` and then
/// the tree of the node at `n`.
pub proof fn lemma_forest_take(nodes: Seq<Node>, n: int)
    requires
        0 <= n < nodes.len(),
    ensures
        forest(nodes.take(n + 1)).drop_last() == forest(nodes.take(n)),
        forest(nodes.take(n + 1)).last() == nodes[n]@,
        forest(nodes.take(n + 1)).len() == n + 1,
{
    assert(forest(nodes.take(n + 1)).drop_last() =~= forest(nodes.take(n)));
}

/// Removes every completed task item below `root`, at any depth.
pub fn remove_task_nodes(root: &mut Node)
    ensures
        final(root)@ == pruned(old(root)@),
    decreases *old(root),
{
    let mut children: Vec<Node> = Vec::new();
    std::mem::swap(&mut root.children, &mut children);
    let ghost before = children@;
    let mut kept: Vec<Node> = Vec::new();
    proof {
        lemma_view_children(*old(root));
        assert(forest(kept@) =~= Seq::empty());
    }
    for child in it: children
        invariant
            before == old(root).children@,
            it.seq() == before,
            forest(kept@) == pruned_forest(forest(before.take(it.index() as int))),
    {
        let ghost i = it.index() as int;
        let ghost kept_before = kept@;
        let mut child = child;
        assert(child == before[i]);
        proof {
            lemma_forest_take(before, i);
        }
        if !child.is_completed_task() {
            assert(decreases_to!(old(root).children => old(root).children@[i]));
            remove_task_nodes(&mut child);
            kept.push(child);
            proof {
                lemma_forest_push(kept_before, child);
            }
        }
    }
    root.children = kept;
    proof {
        lemma_view_children(*root);
        assert(before.take(before.len() as int) =~= before);
    }
}

/// Whether the tree is a completed task item or holds one at any depth.
pub open spec fn holds_completed(tree: Tree) -> bool
    decreases tree,
{
    tree.is_completed_task() || any_completed(tree.children)
}

/// Whether one of the trees is a completed task item or holds one at any
/// depth.
pub open spec fn any_completed(trees: Seq<Tree>) -> bool
    decreases trees,
{
    if trees.len() == 0 {
        false
    } else {
        any_completed(trees.drop_last()) || holds_completed(trees.last())
    }
}

/// After pruning, no completed task item is left below the root of a tree,
/// at any depth.
pub proof fn lemma_pruned_is_clean(tree: Tree)
    ensures
        !any_completed(pruned(tree).children),
    decreases tree,
{
    lemma_pruned_forest_is_clean(tree.children);
}

/// After pruning, no completed task item is left among the trees or below
/// them, at any depth.
pub proof fn lemma_pruned_forest_is_clean(trees: Seq<Tree>)
    ensures
        !any_completed(pruned_forest(trees)),
    decreases trees,
{
    if trees.len() > 0 {
        lemma_pruned_forest_is_clean(trees.drop_last());
        if !trees.last().is_completed_task() {
            lemma_pruned_is_clean(trees.last());
            let init = pruned_forest(trees.drop_last());
            let kept = pruned(trees.last());
            assert(init.push(kept).drop_last() =~= init);
            assert(init.push(kept).last() == kept);
            assert(!kept.is_completed_task());
            assert(!holds_completed(kept));
        }
    }
}

/// Pruning treats a run of trees piece by piece.
pub proof fn lemma_pruned_forest_concat(front: Seq<Tree>, back: Seq<Tree>)
    ensures
        pruned_forest(front + back) == pruned_forest(front) + pruned_forest(back),
    decreases back.len(),
{
    if back.len() == 0 {
        assert(front + back =~= front);
        assert(pruned_forest(front) + pruned_forest(back) =~= pruned_forest(front));
    } else {
        lemma_pruned_forest_concat(front, back.drop_last());
        assert((front + back).drop_last() =~= front + back.drop_last());
        assert((front + back).last() == back.last());
        if !back.last().is_completed_task() {
            assert((pruned_forest(front) + pruned_forest(back.drop_last())).push(pruned(back.last()))
                =~= pruned_forest(front) + pruned_forest(back.drop_last()).push(pruned(back.last())));
        }
    }
}

/// A completed task goes with everything under it: pruning leaves what it
/// would leave if the task and its subtasks had never been there, whatever
/// state the subtasks are in.
pub proof fn lemma_completed_task_goes_whole(before: Seq<Tree>, task: Tree, after: Seq<Tree>)
    requires
        task.is_completed_task(),
    ensures
        pruned_forest(before + seq![task] + after) == pruned_forest(before + after),
{
    lemma_pruned_forest_concat(before + seq![task], after);
    lemma_pruned_forest_concat(before, seq![task]);
    lemma_pruned_forest_concat(before, after);
    assert(seq![task].drop_last() =~= Seq::<Tree>::empty());
    assert(seq![task].last() == task);
    assert(pruned_forest(Seq::<Tree>::empty()) =~= Seq::<Tree>::empty());
    assert(pruned_forest(seq![task]) =~= Seq::<Tree>::empty());
    assert(pruned_forest(before) + Seq::<Tree>::empty() =~= pruned_forest(before));
}

} // verus!
