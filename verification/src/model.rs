//! Mathematical model of the node arena.
//!
//! A tree is pictured as a sequence of slots, one per identifier ever handed
//! out; a released slot holds `None`. The well-formedness predicate [`wf`]
//! states the two structural invariants of the data model: ownership edges
//! (entries of a `children` sequence) point at live nodes whose back-reference
//! returns to the owner, every back-reference is matched by an owning edge,
//! and no node owns the same child twice.

use vstd::prelude::*;

verus! {

/// Image of one node: its key, the identifier of its parent (absent for a
/// root), and the identifiers of the children it owns, in attachment order.
#[verifier::ext_equal]
pub ghost struct NodeView {
    pub value: i32,
    pub parent: Option<usize>,
    pub children: Seq<usize>,
}

/// Image of the arena: one slot per identifier; `None` marks a released slot.
pub type TreeView = Seq<Option<NodeView>>;

/// The identifier `i` names a node that has not been released.
pub open spec fn live(t: TreeView, i: usize) -> bool {
    i < t.len() && t[i as int] is Some
}

/// The node behind a live identifier.
pub open spec fn node_of(t: TreeView, i: usize) -> NodeView
    recommends
        live(t, i),
{
    t[i as int]->0
}

/// Node `i` holds an owning edge to `c`.
pub open spec fn has_child(t: TreeView, i: usize, c: usize) -> bool {
    live(t, i) && node_of(t, i).children.contains(c)
}

/// An owning edge from `i` to `c` is intact: the child is live and its
/// back-reference returns to `i`.
pub open spec fn child_ok(t: TreeView, i: usize, c: usize) -> bool {
    live(t, c) && node_of(t, c).parent == Some(i)
}

/// All owning edges out of node `i` are intact, and none is duplicated.
pub open spec fn node_children_ok(t: TreeView, i: usize) -> bool {
    &&& (forall|k: int|
        0 <= k < node_of(t, i).children.len() ==> child_ok(
            t,
            i,
            #[trigger] node_of(t, i).children[k],
        ))
    &&& node_of(t, i).children.no_duplicates()
}

/// Every live node's owning edges are intact.
pub open spec fn children_ok(t: TreeView) -> bool {
    forall|i: usize| #[trigger] live(t, i) ==> node_children_ok(t, i)
}

/// The back-reference of node `i`, if present, is matched by an owning edge.
pub open spec fn parent_ok(t: TreeView, i: usize) -> bool {
    match node_of(t, i).parent {
        Some(p) => live(t, p) && node_of(t, p).children.contains(i),
        None => true,
    }
}

/// Every live node's back-reference is matched by an owning edge.
pub open spec fn parents_ok(t: TreeView) -> bool {
    forall|i: usize| #[trigger] live(t, i) ==> parent_ok(t, i)
}

/// Structural well-formedness of the whole arena.
pub open spec fn wf(t: TreeView) -> bool {
    children_ok(t) && parents_ok(t)
}

/// The values of the direct children of node `i`, in stored order.
pub open spec fn child_values(t: TreeView, i: usize) -> Seq<i32>
    recommends
        live(t, i),
{
    node_of(t, i).children.map_values(|c: usize| node_of(t, c).value)
}

/// The tree after the values of `p` and `c` are exchanged; every edge, and
/// every other node, is untouched.
pub open spec fn swapped_view(t: TreeView, p: usize, c: usize) -> TreeView
    recommends
        live(t, p),
        live(t, c),
{
    t.update(
        p as int,
        Some(
            NodeView {
                value: node_of(t, c).value,
                parent: node_of(t, p).parent,
                children: node_of(t, p).children,
            },
        ),
    ).update(
        c as int,
        Some(
            NodeView {
                value: node_of(t, p).value,
                parent: node_of(t, c).parent,
                children: node_of(t, c).children,
            },
        ),
    )
}

/// The tree after the mutual relation between `p` and `c` is established:
/// first the back-reference of `c` is set to `p`, then `c` is appended to the
/// children of `p`.
pub open spec fn linked_view(t: TreeView, p: usize, c: usize) -> TreeView
    recommends
        live(t, p),
        live(t, c),
{
    let t1 = t.update(
        c as int,
        Some(
            NodeView {
                value: node_of(t, c).value,
                parent: Some(p),
                children: node_of(t, c).children,
            },
        ),
    );
    t1.update(
        p as int,
        Some(
            NodeView {
                value: node_of(t1, p).value,
                parent: node_of(t1, p).parent,
                children: node_of(t1, p).children.push(c),
            },
        ),
    )
}

/// Mutual consistency of the two edge kinds, in both directions: in a
/// well-formed tree, the back-reference of `c` resolves to `p` exactly when
/// the children of `p` contain `c`.
pub proof fn lemma_mutual_consistency(t: TreeView, p: usize, c: usize)
    requires
        wf(t),
        live(t, p),
        live(t, c),
    ensures
        node_of(t, c).parent == Some(p) <==> node_of(t, p).children.contains(c),
{
    if node_of(t, p).children.contains(c) {
        let k = choose|k: int|
            0 <= k < node_of(t, p).children.len() && node_of(t, p).children[k] == c;
        assert(node_children_ok(t, p));
        assert(child_ok(t, p, node_of(t, p).children[k]));
    }
    if node_of(t, c).parent == Some(p) {
        assert(parent_ok(t, c));
    }
}

/// A value exchange is an involution, and it is value-only: exchanging twice
/// restores the tree exactly, and one exchange leaves liveness and every
/// ownership edge — each node's parent and children — untouched.
pub proof fn lemma_swap_involution(t: TreeView, p: usize, c: usize)
    requires
        wf(t),
        live(t, p),
        live(t, c),
        node_of(t, p).children.contains(c),
    ensures
        swapped_view(swapped_view(t, p, c), p, c) == t,
        forall|i: usize| live(swapped_view(t, p, c), i) == live(t, i),
        forall|i: usize| #[trigger]
            live(t, i) ==> node_of(swapped_view(t, p, c), i).parent == node_of(t, i).parent
                && node_of(swapped_view(t, p, c), i).children == node_of(t, i).children,
{
    assert(swapped_view(swapped_view(t, p, c), p, c) =~= t);
}

/// No live node holds an owning edge into released space: in a well-formed
/// tree every owning edge ends at a live node.
pub proof fn lemma_no_leaked_edges(t: TreeView)
    requires
        wf(t),
    ensures
        forall|i: usize, c: usize| has_child(t, i, c) ==> live(t, c),
{
    assert forall|i: usize, c: usize| has_child(t, i, c) implies live(t, c) by {
        let k = choose|k: int|
            0 <= k < node_of(t, i).children.len() && node_of(t, i).children[k] == c;
        assert(node_children_ok(t, i));
        assert(child_ok(t, i, node_of(t, i).children[k]));
    }
}

/// Number of live slots; the measure that shrinks as a release tears a
/// subtree down.
pub open spec fn live_count(t: TreeView) -> nat
    decreases t.len(),
{
    if t.len() == 0 {
        0
    } else {
        (if t.last() is Some {
            1nat
        } else {
            0nat
        }) + live_count(t.drop_last())
    }
}

/// Clearing a live slot strictly lowers the number of live slots.
pub proof fn lemma_live_count_kill(t: TreeView, i: int)
    requires
        0 <= i < t.len(),
        t[i] is Some,
    ensures
        live_count(t.update(i, None)) < live_count(t),
    decreases t.len(),
{
    let t1 = t.update(i, None);
    if i == t.len() - 1 {
        assert(t1.drop_last() =~= t.drop_last());
        assert(t1.last() is None);
    } else {
        assert(t1.drop_last() =~= t.drop_last().update(i, None));
        assert(t1.last() == t.last());
        lemma_live_count_kill(t.drop_last(), i);
    }
}

} // verus!
