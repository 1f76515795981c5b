//! The traversal engine: a complete pre-order walk over a syntax tree, driven
//! only by cursor moves, with a callback invoked once per node.
use vstd::prelude::*;
use crate::tree::{Cursor, SyntaxTree};

verus! {

/// The reference pre-order of the sibling subtrees that start at `a` and
/// stop at `b`: a subtree's root, then the subtrees of its children (the
/// first child `a + 1` and its next siblings), then the following siblings.
pub open spec fn preorder_forest(ends: Seq<int>, a: int, b: int) -> Seq<int>
    decreases b - a,
{
    if 0 <= a < b && a < ends.len() && a < ends[a] <= b {
        seq![a] + preorder_forest(ends, a + 1, ends[a]) + preorder_forest(ends, ends[a], b)
    } else {
        seq![]
    }
}

/// The reference pre-order of a whole tree, from its root.
pub open spec fn preorder(tree: SyntaxTree) -> Seq<int> {
    preorder_forest(tree.ends(), 0, tree.nodes@.len() as int)
}

/// The values held by the `Some` entries of `s`, in order.
pub open spec fn kept<T>(s: Seq<Option<T>>) -> Seq<T>
    decreases s.len(),
{
    if s.len() == 0 {
        seq![]
    } else {
        let init = kept(s.drop_last());
        match s.last() {
            Some(v) => init.push(v),
            None => init,
        }
    }
}

/// `outs[k]` is a result that `callback` may give for the `k`-th node of `order`.
pub open spec fn visits<T, F: Fn(usize) -> Option<T>>(
    callback: F,
    order: Seq<int>,
    outs: Seq<Option<T>>,
) -> bool {
    &&& outs.len() == order.len()
    &&& forall|k: int| 0 <= k < outs.len() ==> callback.ensures((order[k] as usize,), #[trigger] outs[k])
}

/// A run of sibling subtrees covering `a .. b` lists `a .. b` in pre-order.
pub proof fn lemma_preorder_forest(tree: SyntaxTree, a: int, b: int)
    requires
        tree.wf(),
        0 <= a <= b <= tree.nodes@.len(),
        forall|j: int| a <= j < b ==> #[trigger] tree.ends()[j] <= b,
    ensures
        preorder_forest(tree.ends(), a, b) =~= Seq::new((b - a) as nat, |k: int| a + k),
    decreases b - a,
{
    let ends = tree.ends();
    if a < b {
        let e = ends[a];
        assert(a < e <= b);
        assert forall|j: int| a + 1 <= j < e implies #[trigger] ends[j] <= e by {
            assert(ends[j] <= ends[a]);
        }
        lemma_preorder_forest(tree, a + 1, e);
        lemma_preorder_forest(tree, e, b);
    }
}

/// The reference pre-order of a tree lists its nodes `0 .. n` in index order.
pub proof fn lemma_preorder_is_layout(tree: SyntaxTree)
    requires
        tree.wf(),
    ensures
        preorder(tree) =~= Seq::new(tree.nodes@.len(), |k: int| k),
{
    lemma_preorder_forest(tree, 0, tree.nodes@.len() as int);
}

/// The reference pre-order lists every node of a tree exactly once.
pub proof fn lemma_preorder_visits_each_node_once(tree: SyntaxTree)
    requires
        tree.wf(),
    ensures
        preorder(tree).len() == tree.nodes@.len(),
        preorder(tree).no_duplicates(),
        forall|i: int| 0 <= i < tree.nodes@.len() ==> preorder(tree).contains(i),
{
    lemma_preorder_is_layout(tree);
    let order = preorder(tree);
    assert forall|i: int| 0 <= i < tree.nodes@.len() implies order.contains(i) by {
        assert(order[i] == i);
    }
}

/// Walks the whole tree in pre-order with a cursor, invoking `callback` once
/// on each node, and returns the values of the callback's `Some` results in
/// visiting order.
pub fn traverse<T, F: Fn(usize) -> Option<T>>(tree: &SyntaxTree, callback: F) -> (found: Vec<T>)
    requires
        tree.wf(),
        forall|i: usize| i < tree.nodes@.len() ==> callback.requires((i,)),
    ensures
        exists|outs: Seq<Option<T>>|
            visits(callback, preorder(*tree), outs) && found@ == kept(outs),
{
    let ghost n = tree.nodes@.len() as int;
    let ghost ends = tree.ends();
    proof {
        lemma_preorder_is_layout(*tree);
    }
    let mut cursor = Cursor::new();
    let mut found: Vec<T> = Vec::new();
    let ghost mut outs: Seq<Option<T>> = seq![];
    loop
        invariant
            tree.wf(),
            n == tree.nodes@.len(),
            ends == tree.ends(),
            preorder(*tree) =~= Seq::new(n as nat, |k: int| k),
            forall|i: usize| i < n ==> callback.requires((i,)),
            cursor.node < n,
            outs.len() == cursor.node,
            forall|k: int| 0 <= k < outs.len() ==> callback.ensures((k as usize,), #[trigger] outs[k]),
            found@ == kept(outs),
        decreases n - cursor.node,
    {
        let r = callback(cursor.node);
        proof {
            let next = outs.push(r);
            assert(next.drop_last() =~= outs);
            outs = next;
        }
        match r {
            Some(v) => found.push(v),
            None => {},
        }
        if cursor.goto_first_child(tree) {
            continue;
        }
        let ghost here = cursor.node;
        if cursor.goto_next_sibling(tree) {
            proof {
                let p = tree.nodes@[here as int].parent.unwrap() as int;
                assert(here > 0);
                assert(crate::tree::parent_ok(tree.nodes@, ends, here as int));
                assert(ends[p] <= n);
            }
            continue;
        }
        loop
            invariant_except_break
                ends[cursor.node as int] == outs.len(),
                match tree.nodes@[cursor.node as int].parent {
                    Some(p) => ends[p as int] <= ends[cursor.node as int],
                    None => true,
                },
            invariant
                tree.wf(),
                n == tree.nodes@.len(),
                ends == tree.ends(),
                preorder(*tree) =~= Seq::new(n as nat, |k: int| k),
                cursor.node < n,
                outs.len() <= n,
                forall|k: int| 0 <= k < outs.len() ==> callback.ensures((k as usize,), #[trigger] outs[k]),
                found@ == kept(outs),
            ensures
                cursor.node == outs.len(),
                cursor.node < n,
            decreases cursor.node,
        {
            let ghost child = cursor.node;
            if !cursor.goto_parent(tree) {
                proof {
                    if cursor.node > 0 {
                        assert(crate::tree::parent_ok(tree.nodes@, ends, cursor.node as int));
                    }
                    assert(visits(callback, preorder(*tree), outs));
                }
                return found;
            }
            proof {
                assert(crate::tree::parent_ok(tree.nodes@, ends, child as int));
                assert(ends[child as int] <= ends[cursor.node as int]);
            }
            let ghost up = cursor.node;
            if cursor.goto_next_sibling(tree) {
                proof {
                    let p = tree.nodes@[up as int].parent.unwrap() as int;
                    assert(up > 0);
                    assert(crate::tree::parent_ok(tree.nodes@, ends, up as int));
                    assert(ends[p] <= n);
                }
                break;
            }
        }
    }
}

} // verus!
