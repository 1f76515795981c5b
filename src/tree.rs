//! A syntax tree held as an arena of nodes laid out in pre-order.
//!
//! Node `0` is the root. The descendants of a node `i` are exactly the nodes
//! `i + 1 .. subtree_end(i)`, so a subtree is a contiguous slice of the arena.
//! Each node also records its parent and its previous sibling, so that the
//! structural context of a node is an O(1) lookup.
use vstd::prelude::*;

verus! {

/// A zero-based text position: `row` counts lines, `column` counts bytes.
#[derive(Clone, Copy, Debug, PartialEq, Eq, Structural)]
pub struct Position {
    pub row: usize,
    pub column: usize,
}

/// One node of a syntax tree, owned by the tree's arena.
#[derive(Clone, Debug)]
pub struct SyntaxNode {
    pub kind_id: u16,
    pub kind_name: String,
    pub start: Position,
    pub end: Position,
    pub start_byte: usize,
    pub end_byte: usize,
    pub parent: Option<usize>,
    pub prev_sibling: Option<usize>,
    /// One past the last descendant of this node.
    pub subtree_end: usize,
}

/// `i`'s recorded parent `p` is the closest node before `i` whose subtree
/// (as given by `ends`) still covers `i`.
pub open spec fn parent_ok(nodes: Seq<SyntaxNode>, ends: Seq<int>, i: int) -> bool {
    match nodes[i].parent {
        Some(p) => {
            &&& p < i
            &&& i < ends[p as int]
            &&& forall|q: int| p < q < i ==> #[trigger] ends[q] <= i
        },
        None => false,
    }
}

/// `i`'s recorded previous sibling is the child of its parent whose subtree
/// ends right before `i`; the first child of a node has none.
pub open spec fn prev_ok(nodes: Seq<SyntaxNode>, ends: Seq<int>, i: int) -> bool {
    let p = nodes[i].parent.unwrap() as int;
    if i == p + 1 {
        nodes[i].prev_sibling is None
    } else {
        match nodes[i].prev_sibling {
            Some(q) => {
                &&& p < q < i
                &&& nodes[q as int].parent == Some(p as usize)
                &&& ends[q as int] == i
            },
            None => false,
        }
    }
}

/// The pre-order layout, with `ends[i]` standing for the subtree end of `i`.
pub open spec fn shaped(nodes: Seq<SyntaxNode>, ends: Seq<int>) -> bool {
    let n = nodes.len() as int;
    &&& ends.len() == n
    &&& forall|i: int| 0 <= i < n ==> i < #[trigger] ends[i] <= n
    &&& forall|i: int, j: int| 0 <= i < n && i < j < ends[i] ==> #[trigger] ends[j] <= #[trigger] ends[i]
    &&& forall|i: int| 0 < i < n ==> #[trigger] parent_ok(nodes, ends, i)
    &&& forall|i: int| 0 < i < n ==> #[trigger] prev_ok(nodes, ends, i)
    &&& n > 0 ==> nodes[0].parent is None && nodes[0].prev_sibling is None
}

pub open spec fn ends_of(nodes: Seq<SyntaxNode>) -> Seq<int> {
    nodes.map_values(|x: SyntaxNode| x.subtree_end as int)
}

/// A well-formed arena: a root spanning all nodes, in pre-order layout.
pub open spec fn arena_wf(nodes: Seq<SyntaxNode>) -> bool {
    &&& nodes.len() > 0
    &&& nodes.len() < usize::MAX
    &&& shaped(nodes, ends_of(nodes))
    &&& ends_of(nodes)[0] == nodes.len()
}

/// Every node but the root has a parent before it whose subtree holds it.
pub proof fn lemma_parent_holds(nodes: Seq<SyntaxNode>, c: int)
    requires
        arena_wf(nodes),
        0 <= c < nodes.len(),
    ensures
        nodes[c].parent is Some <==> c > 0,
        nodes[c].parent matches Some(p) ==> p < c && c < ends_of(nodes)[p as int] && ends_of(nodes)[c]
            <= ends_of(nodes)[p as int] <= nodes.len(),
{
    let ends = ends_of(nodes);
    if c > 0 {
        assert(parent_ok(nodes, ends, c));
        let p = nodes[c].parent.unwrap() as int;
        assert(ends[c] <= ends[p]);
    }
}

/// When `c`'s subtree holds more than `c`, its first child is `c + 1`.
pub proof fn lemma_first_child(nodes: Seq<SyntaxNode>, c: int)
    requires
        arena_wf(nodes),
        0 <= c < nodes.len(),
        ends_of(nodes)[c] > c + 1,
    ensures
        nodes[c + 1].parent == Some(c as usize),
        nodes[c + 1].prev_sibling is None,
{
    let ends = ends_of(nodes);
    assert(parent_ok(nodes, ends, c + 1));
    assert(prev_ok(nodes, ends, c + 1));
    let p = nodes[c + 1].parent.unwrap() as int;
    if p < c {
        assert(ends[c] <= c + 1);
    }
}

/// When `c`'s subtree ends before its parent's, the next sibling of `c`
/// starts right after it, with the same parent and `c` as previous sibling.
pub proof fn lemma_next_sibling(nodes: Seq<SyntaxNode>, c: int)
    requires
        arena_wf(nodes),
        0 <= c < nodes.len(),
        nodes[c].parent matches Some(p) && ends_of(nodes)[c] < ends_of(nodes)[p as int],
    ensures
        0 < ends_of(nodes)[c] < nodes.len(),
        nodes[ends_of(nodes)[c]].parent == nodes[c].parent,
        nodes[ends_of(nodes)[c]].prev_sibling == Some(c as usize),
{
    let ends = ends_of(nodes);
    let n = nodes.len() as int;
    let p = nodes[c].parent.unwrap() as int;
    lemma_parent_holds(nodes, c);
    assert(parent_ok(nodes, ends, c));
    let s = ends[c];
    assert(0 < s < n);
    assert(parent_ok(nodes, ends, s));
    assert(prev_ok(nodes, ends, s));
    let p2 = nodes[s].parent.unwrap() as int;
    if p2 < p {
        assert(ends[p] <= s);
    } else if p < p2 && p2 < c {
        assert(ends[p2] <= c);
    } else if p2 == c {
    } else if c < p2 {
        assert(ends[p2] <= ends[c]);
    }
    assert(p2 == p);
    let q = nodes[s].prev_sibling.unwrap() as int;
    if q < c {
        assert(ends[q] <= c);
    } else if q > c {
        assert(parent_ok(nodes, ends, q));
        assert(ends[c] <= q);
    }
}

/// A syntax tree: an arena of nodes in pre-order, the root first.
#[derive(Clone, Debug)]
pub struct SyntaxTree {
    pub nodes: Vec<SyntaxNode>,
}

impl SyntaxTree {
    pub open spec fn view(&self) -> Seq<SyntaxNode> {
        self.nodes@
    }

    pub open spec fn ends(&self) -> Seq<int> {
        ends_of(self.nodes@)
    }

    pub open spec fn wf(&self) -> bool {
        arena_wf(self.nodes@)
    }

    /// The number of nodes.
    pub fn len(&self) -> (n: usize)
        ensures
            n == self.nodes@.len(),
    {
        self.nodes.len()
    }

    /// The node at index `i`.
    pub fn node(&self, i: usize) -> (x: &SyntaxNode)
        requires
            i < self.nodes@.len(),
        ensures
            *x == self.nodes@[i as int],
    {
        &self.nodes[i]
    }
}

/// A position in a tree: the index of the node it stands on.
#[derive(Clone, Copy, Debug, PartialEq, Eq, Structural)]
pub struct Cursor {
    pub node: usize,
}

impl Cursor {
    /// A cursor on the root.
    pub fn new() -> (c: Cursor)
        ensures
            c.node == 0,
    {
        Cursor { node: 0 }
    }

    /// Moves to the first child, if the current node has one.
    pub fn goto_first_child(&mut self, tree: &SyntaxTree) -> (moved: bool)
        requires
            tree.wf(),
            old(self).node < tree.nodes@.len(),
        ensures
            moved == (tree.ends()[old(self).node as int] > old(self).node + 1),
            moved ==> final(self).node == old(self).node + 1,
            moved ==> tree.nodes@[final(self).node as int].parent == Some(old(self).node),
            !moved ==> *final(self) == *old(self),
    {
        let c = self.node;
        if tree.nodes[c].subtree_end > c + 1 {
            proof {
                lemma_first_child(tree.nodes@, c as int);
            }
            self.node = c + 1;
            true
        } else {
            false
        }
    }

    /// Moves to the next sibling, if the current node has one.
    pub fn goto_next_sibling(&mut self, tree: &SyntaxTree) -> (moved: bool)
        requires
            tree.wf(),
            old(self).node < tree.nodes@.len(),
        ensures
            moved == (match tree.nodes@[old(self).node as int].parent {
                Some(p) => tree.ends()[old(self).node as int] < tree.ends()[p as int],
                None => false,
            }),
            moved ==> final(self).node == tree.ends()[old(self).node as int],
            moved ==> tree.nodes@[final(self).node as int].parent == tree.nodes@[old(
                self,
            ).node as int].parent,
            moved ==> tree.nodes@[final(self).node as int].prev_sibling == Some(old(self).node),
            !moved ==> *final(self) == *old(self),
    {
        let c = self.node;
        match tree.nodes[c].parent {
            Some(p) => {
                proof {
                    lemma_parent_holds(tree.nodes@, c as int);
                }
                let s = tree.nodes[c].subtree_end;
                if s < tree.nodes[p].subtree_end {
                    proof {
                        lemma_next_sibling(tree.nodes@, c as int);
                    }
                    self.node = s;
                    true
                } else {
                    false
                }
            },
            None => false,
        }
    }

    /// Moves to the parent, unless the cursor is on the root.
    pub fn goto_parent(&mut self, tree: &SyntaxTree) -> (moved: bool)
        requires
            tree.wf(),
            old(self).node < tree.nodes@.len(),
        ensures
            moved == (tree.nodes@[old(self).node as int].parent is Some),
            moved ==> Some(final(self).node) == tree.nodes@[old(self).node as int].parent,
            moved ==> final(self).node < old(self).node,
            !moved ==> *final(self) == *old(self),
    {
        let c = self.node;
        match tree.nodes[c].parent {
            Some(p) => {
                proof {
                    if c > 0 {
                        assert(parent_ok(tree.nodes@, tree.ends(), c as int));
                    }
                }
                self.node = p;
                true
            },
            None => false,
        }
    }
}

/// The subtree ends while a tree is being built: a node whose subtree is not
/// closed yet (recorded end `0`) extends to the current end of the arena.
pub open spec fn open_ends(nodes: Seq<SyntaxNode>) -> Seq<int> {
    Seq::new(
        nodes.len(),
        |i: int|
            if nodes[i].subtree_end == 0 {
                nodes.len() as int
            } else {
                nodes[i].subtree_end as int
            },
    )
}

/// Builds a tree node by node in pre-order: `open` a node as the next child
/// of the innermost open node, `close` it once all its children are in.
pub struct TreeBuilder {
    nodes: Vec<SyntaxNode>,
    /// The open nodes, outermost first; each is the parent of the next.
    open: Vec<usize>,
    /// The last closed child of the innermost open node.
    last_child: Option<usize>,
}

impl TreeBuilder {
    pub closed spec fn nodes(&self) -> Seq<SyntaxNode> {
        self.nodes@
    }

    /// The number of open nodes.
    pub closed spec fn open_count(&self) -> nat {
        self.open@.len()
    }

    /// The innermost open node.
    pub closed spec fn innermost(&self) -> int {
        self.open@.last() as int
    }

    pub closed spec fn inv(&self) -> bool {
        let nodes = self.nodes@;
        let n = nodes.len() as int;
        let s = self.open@;
        let d = s.len() as int;
        &&& n < usize::MAX
        &&& shaped(nodes, open_ends(nodes))
        &&& forall|k: int| 0 <= k < d ==> #[trigger] s[k] < n && nodes[s[k] as int].subtree_end == 0
        &&& forall|k1: int, k2: int| 0 <= k1 < k2 < d ==> #[trigger] s[k1] < #[trigger] s[k2]
        &&& d > 0 ==> s[0] == 0
        &&& forall|k: int| 0 < k < d ==> nodes[#[trigger] s[k] as int].parent == Some(s[k - 1])
        &&& forall|i: int| 0 <= i < n && #[trigger] nodes[i].subtree_end == 0 ==> exists|k: int| 0 <= k < d && s[k] == i
        &&& forall|j: int, k: int|
            0 <= j < k < n && #[trigger] nodes[j].subtree_end != 0 && #[trigger] nodes[k].subtree_end == 0
                ==> nodes[j].subtree_end <= k
        &&& d > 0 ==> {
            let t = s[d - 1] as int;
            if n == t + 1 {
                self.last_child is None
            } else {
                match self.last_child {
                    Some(c) => {
                        &&& t < c < n
                        &&& nodes[c as int].parent == Some(t as usize)
                        &&& nodes[c as int].subtree_end == n
                    },
                    None => false,
                }
            }
        }
        &&& d == 0 && n > 0 ==> nodes[0].subtree_end == n
    }

    /// An empty builder.
    pub fn new() -> (b: TreeBuilder)
        ensures
            b.inv(),
            b.nodes().len() == 0,
            b.open_count() == 0,
    {
        let b = TreeBuilder { nodes: Vec::new(), open: Vec::new(), last_child: None };
        proof {
            assert(open_ends(b.nodes@) =~= seq![]);
        }
        b
    }

    /// The number of nodes added so far.
    pub fn len(&self) -> (n: usize)
        ensures
            n == self.nodes().len(),
    {
        self.nodes.len()
    }

    /// The number of open nodes.
    pub fn depth(&self) -> (d: usize)
        ensures
            d == self.open_count(),
    {
        self.open.len()
    }

    /// Adds a node: the root when the builder is empty, else the next child
    /// of the innermost open node. The new node is open.
    pub fn open(
        &mut self,
        kind_id: u16,
        kind_name: String,
        start: Position,
        end: Position,
        start_byte: usize,
        end_byte: usize,
    )
        requires
            old(self).inv(),
            old(self).open_count() > 0 || old(self).nodes().len() == 0,
            old(self).nodes().len() + 1 < usize::MAX,
        ensures
            final(self).inv(),
            final(self).open_count() == old(self).open_count() + 1,
            final(self).nodes().len() == old(self).nodes().len() + 1,
            final(self).nodes().drop_last() == old(self).nodes(),
            final(self).nodes().last().kind_id == kind_id,
            final(self).nodes().last().kind_name == kind_name,
            final(self).nodes().last().start == start,
            final(self).nodes().last().end == end,
            final(self).nodes().last().start_byte == start_byte,
            final(self).nodes().last().end_byte == end_byte,
            final(self).nodes().last().parent == (if old(self).open_count() > 0 {
                Some(old(self).innermost() as usize)
            } else {
                None
            }),
            final(self).innermost() == old(self).nodes().len(),
    {
        let n = self.nodes.len();
        let ghost old_nodes = self.nodes@;
        let ghost old_s = self.open@;
        let ghost old_last = self.last_child;
        let (parent, prev_sibling) = if self.open.len() > 0 {
            (Some(self.open[self.open.len() - 1]), self.last_child)
        } else {
            (None, None)
        };
        let x = SyntaxNode {
            kind_id,
            kind_name,
            start,
            end,
            start_byte,
            end_byte,
            parent,
            prev_sibling,
            subtree_end: 0,
        };
        self.nodes.push(x);
        self.open.push(n);
        self.last_child = None;
        proof {
            let nodes = self.nodes@;
            let oe = open_ends(old_nodes);
            let ne = open_ends(nodes);
            let s = self.open@;
            let od = old_s.len() as int;
            let d = s.len() as int;
            assert(nodes.drop_last() =~= old_nodes);
            assert(s.drop_last() =~= old_s);
            assert(forall|i: int| 0 <= i < n ==> nodes[i] == old_nodes[i]);
            assert(forall|k: int| 0 <= k < od ==> s[k] == old_s[k]);
            // Open nodes of the old arena sit on the old stack, at or below its top.
            assert forall|q: int| 0 <= q < n && #[trigger] old_nodes[q].subtree_end == 0 implies od > 0
                && q <= old_s[od - 1] by {
                let k = choose|k: int| 0 <= k < od && old_s[k] == q;
                if k < od - 1 {
                    assert(old_s[k] < old_s[od - 1]);
                }
            }
            assert forall|i: int| 0 <= i < n + 1 implies i < #[trigger] ne[i] <= n + 1 by {
                if i < n {
                    assert(oe[i] <= n);
                }
            }
            assert forall|i: int, j: int| 0 <= i < n + 1 && i < j < ne[i] implies #[trigger] ne[j] <= #[trigger] ne[i] by {
                assert(i < n);
                if old_nodes[i].subtree_end != 0 {
                    assert(oe[i] <= n);
                    assert(j < n);
                    assert(ne[i] == oe[i]);
                    if old_nodes[j].subtree_end == 0 {
                        assert(old_nodes[i].subtree_end <= j);
                    } else {
                        assert(oe[j] <= oe[i]);
                        assert(ne[j] == oe[j]);
                    }
                } else {
                    assert(ne[i] == n + 1);
                    assert(ne[j] <= n + 1);
                }
            }
            assert forall|i: int| 0 < i < n + 1 implies #[trigger] parent_ok(nodes, ne, i) by {
                if i < n {
                    assert(parent_ok(old_nodes, oe, i));
                    let p = nodes[i].parent.unwrap() as int;
                    assert forall|q: int| p < q < i implies #[trigger] ne[q] <= i by {
                        assert(oe[q] <= i);
                    }
                } else {
                    let t = old_s[od - 1] as int;
                    assert forall|q: int| t < q < i implies #[trigger] ne[q] <= i by {
                        if old_nodes[q].subtree_end == 0 {
                            assert(q <= t);
                        } else {
                            assert(oe[q] <= n);
                            assert(ne[q] == oe[q]);
                        }
                    }
                }
            }
            assert forall|i: int| 0 < i < n + 1 implies #[trigger] prev_ok(nodes, ne, i) by {
                if i < n {
                    assert(prev_ok(old_nodes, oe, i));
                    assert(parent_ok(old_nodes, oe, i));
                    match nodes[i].prev_sibling {
                        Some(q) => {
                            if old_nodes[q as int].subtree_end == 0 {
                                assert(oe[q as int] == n);
                            }
                        },
                        None => {},
                    }
                } else {
                    match old_last {
                        Some(c) => {
                            assert(ne[c as int] == oe[c as int]);
                        },
                        None => {},
                    }
                }
            }
            assert(shaped(nodes, ne));
            assert forall|i: int| 0 <= i < n + 1 && #[trigger] nodes[i].subtree_end == 0 implies exists|k: int|
                0 <= k < d && s[k] == i by {
                if i < n {
                    assert(old_nodes[i].subtree_end == 0);
                    let k = choose|k: int| 0 <= k < od && old_s[k] == i;
                    assert(s[k] == i);
                } else {
                    assert(s[d - 1] == i);
                }
            }
            assert forall|k1: int, k2: int| 0 <= k1 < k2 < d implies #[trigger] s[k1] < #[trigger] s[k2] by {
                if k2 < od {
                    assert(old_s[k1] < old_s[k2]);
                }
            }
            assert forall|jj: int, k: int|
                0 <= jj < k < n + 1 && #[trigger] nodes[jj].subtree_end != 0 && #[trigger] nodes[k].subtree_end
                    == 0 implies nodes[jj].subtree_end <= k by {
                if k < n {
                    assert(old_nodes[jj].subtree_end != 0 && old_nodes[k].subtree_end == 0);
                } else {
                    assert(oe[jj] <= n);
                }
            }
        }
    }

    /// Closes the innermost open node: its subtree ends here.
    pub fn close(&mut self)
        requires
            old(self).inv(),
            old(self).open_count() > 0,
        ensures
            final(self).inv(),
            final(self).open_count() == old(self).open_count() - 1,
            final(self).nodes().len() == old(self).nodes().len(),
            0 <= old(self).innermost() < old(self).nodes().len(),
            final(self).nodes() == old(self).nodes().update(
                old(self).innermost(),
                SyntaxNode {
                    subtree_end: old(self).nodes().len() as usize,
                    ..old(self).nodes()[old(self).innermost()]
                },
            ),
    {
        let n = self.nodes.len();
        let ghost old_nodes = self.nodes@;
        let ghost old_s = self.open@;
        let t = self.open.pop().unwrap();
        proof {
            let od = old_s.len() as int;
            assert(old_s[od - 1] == t);
            assert(t < n);
        }
        self.nodes[t].subtree_end = n;
        self.last_child = Some(t);
        proof {
            let nodes = self.nodes@;
            let oe = open_ends(old_nodes);
            let ne = open_ends(nodes);
            let s = self.open@;
            let od = old_s.len() as int;
            let d = s.len() as int;
            assert(s =~= old_s.drop_last());
            assert(ne =~= oe);
            assert forall|i: int| 0 < i < n implies #[trigger] parent_ok(nodes, ne, i) by {
                assert(parent_ok(old_nodes, oe, i));
            }
            assert forall|i: int| 0 < i < n implies #[trigger] prev_ok(nodes, ne, i) by {
                assert(prev_ok(old_nodes, oe, i));
                assert(parent_ok(old_nodes, oe, i));
            }
            assert(shaped(nodes, ne));
            assert forall|k: int| 0 <= k < d implies #[trigger] s[k] < n && nodes[s[k] as int].subtree_end == 0 by {
                assert(old_s[k] < old_s[od - 1]);
                assert(old_nodes[old_s[k] as int].subtree_end == 0);
            }
            assert forall|i: int| 0 <= i < n && #[trigger] nodes[i].subtree_end == 0 implies exists|k: int|
                0 <= k < d && s[k] == i by {
                assert(old_nodes[i].subtree_end == 0);
                let k = choose|k: int| 0 <= k < od && old_s[k] == i;
                assert(s[k] == i);
            }
            assert forall|jj: int, k: int|
                0 <= jj < k < n && #[trigger] nodes[jj].subtree_end != 0 && #[trigger] nodes[k].subtree_end
                    == 0 implies nodes[jj].subtree_end <= k by {
                assert(old_nodes[k].subtree_end == 0);
                if jj == t {
                    let m = choose|m: int| 0 <= m < od && old_s[m] == k;
                    if m < od - 1 {
                        assert(old_s[m] < old_s[od - 1]);
                    }
                } else {
                    assert(old_nodes[jj].subtree_end != 0);
                }
            }
            if d > 0 {
                assert(old_s[d - 1] < old_s[od - 1]);
                assert(nodes[t as int].parent == Some(s[d - 1]));
            }
        }
    }

    /// The finished tree, once the root has been closed.
    pub fn finish(self) -> (r: Option<SyntaxTree>)
        requires
            self.inv(),
        ensures
            r is Some <==> (self.open_count() == 0 && self.nodes().len() > 0),
            r matches Some(t) ==> t.wf() && t@ == self.nodes(),
    {
        if self.open.len() == 0 && self.nodes.len() > 0 {
            let t = SyntaxTree { nodes: self.nodes };
            proof {
                let nodes = t.nodes@;
                assert forall|i: int| 0 <= i < nodes.len() implies nodes[i].subtree_end != 0 by {
                    if nodes[i].subtree_end == 0 {
                        let k = choose|k: int| 0 <= k < 0 && self.open@[k] == i;
                    }
                }
                assert(open_ends(nodes) =~= t.ends());
            }
            Some(t)
        } else {
            None
        }
    }
}

} // verus!
