//! The node type of a linked binary min-heap and its structural operations.
//!
//! Nodes live in an arena ([`Tree`]) and are addressed by stable integer
//! identifiers. A node owns its children — their identifiers stand in its
//! `children` sequence, in attachment order — and holds a non-owning
//! back-reference to its parent as a plain identifier. Every public operation
//! requires and preserves the structural invariant [`crate::model::wf`]:
//! holding an identifier to a released node is thereby ruled out statically
//! for verified callers, so no operation needs a dead-reference error at run
//! time.

use vstd::prelude::*;

use crate::model::{
    child_ok, child_values, children_ok, has_child, lemma_live_count_kill, linked_view, live,
    live_count, node_children_ok, node_of, parent_ok, swapped_view, wf, NodeView, TreeView,
};
use crate::reach::{
    closed_under_children, in_subtree, lemma_detached_facts, lemma_parent_in_subtree,
    lemma_root_facts, lemma_subtree_elim, lemma_subtree_root, lemma_subtree_step,
};

verus! {

/// Why a structural operation was refused.
#[derive(Debug, Clone, Copy, PartialEq, Eq)]
pub enum NodeError {
    /// The child handed to a value exchange is not a direct child of the
    /// parent.
    InvalidRelation,
    /// The child handed to a linking operation already has a parent.
    AlreadyAttached,
}

/// A node type in the binary minimum heap: a single piece of a heap.
///
/// The node owns its children and holds a non-owning reference to its parent;
/// both relations are kept as identifiers into the [`Tree`] the node lives in.
#[derive(Debug)]
pub struct Node {
    value: i32,
    parent: Option<usize>,
    children: Vec<usize>,
}

/// The arena that owns every node of a forest. Released slots stay behind as
/// `None`, so identifiers of live nodes are never reused or invalidated.
#[derive(Debug)]
pub struct Tree {
    nodes: Vec<Option<Node>>,
}

impl View for Node {
    type V = NodeView;

    closed spec fn view(&self) -> NodeView {
        NodeView { value: self.value, parent: self.parent, children: self.children@ }
    }
}

impl View for Tree {
    type V = TreeView;

    closed spec fn view(&self) -> TreeView {
        Seq::new(
            self.nodes@.len(),
            |j: int|
                match self.nodes@[j] {
                    Some(n) => Some(n@),
                    None => None,
                },
        )
    }
}

impl Tree {
    /// Creates an empty arena: no node has been handed out yet.
    pub fn new() -> (t: Tree)
        ensures
            t@.len() == 0,
            wf(t@),
    {
        Tree { nodes: Vec::new() }
    }

    /// Whether `i` names a node that has not been released.
    pub fn is_live(&self, i: usize) -> (r: bool)
        ensures
            r == live(self@, i),
    {
        i < self.nodes.len() && self.nodes[i].is_some()
    }

    /// Borrows the live node behind `i`.
    pub fn get(&self, i: usize) -> (n: &Node)
        requires
            live(self@, i),
        ensures
            n@ == node_of(self@, i),
    {
        self.nodes[i].as_ref().unwrap()
    }

    /// Replaces slot `i` wholesale; the building block of every mutation.
    fn put_slot(&mut self, i: usize, slot: Option<Node>)
        requires
            i < old(self)@.len(),
        ensures
            final(self)@ == old(self)@.update(
                i as int,
                match slot {
                    Some(n) => Some(n@),
                    None => None,
                },
            ),
    {
        self.nodes.remove(i);
        self.nodes.insert(i, slot);
        proof {
            assert(self@ =~= old(self)@.update(
                i as int,
                match slot {
                    Some(n) => Some(n@),
                    None => None,
                },
            ));
        }
    }

    /// Moves the live node behind `i` out of its slot, leaving `None`.
    fn take_node(&mut self, i: usize) -> (n: Node)
        requires
            live(old(self)@, i),
        ensures
            n@ == node_of(old(self)@, i),
            final(self)@ == old(self)@.update(i as int, None),
    {
        let slot = self.nodes.remove(i);
        self.nodes.insert(i, None);
        proof {
            assert(self@ =~= old(self)@.update(i as int, None));
        }
        slot.unwrap()
    }
}

impl Node {
    /// Creates a new node with no parent and no children, owned directly by
    /// the arena, and returns its identifier. Always succeeds.
    pub fn new_orphan(tree: &mut Tree, value: i32) -> (id: usize)
        requires
            wf(old(tree)@),
        ensures
            wf(final(tree)@),
            id == old(tree)@.len(),
            final(tree)@ == old(tree)@.push(
                Some(NodeView { value, parent: None, children: Seq::empty() }),
            ),
            live(final(tree)@, id),
            node_of(final(tree)@, id) == (NodeView {
                value,
                parent: None,
                children: Seq::<usize>::empty(),
            }),
    {
        let id = tree.nodes.len();
        tree.nodes.push(Some(Node { value, parent: None, children: Vec::new() }));
        proof {
            let t0 = old(tree)@;
            let t1 = tree@;
            assert(t1 =~= t0.push(Some(NodeView { value, parent: None, children: Seq::empty() })));
            assert forall|i: usize| #[trigger] live(t1, i) implies node_children_ok(t1, i)
                && parent_ok(t1, i) by {
                if i < id {
                    assert(live(t0, i));
                    assert(node_children_ok(t0, i) && parent_ok(t0, i));
                    assert(node_of(t1, i) == node_of(t0, i));
                    assert forall|k: int| 0 <= k < node_of(t1, i).children.len() implies child_ok(
                        t1,
                        i,
                        #[trigger] node_of(t1, i).children[k],
                    ) by {
                        let c = node_of(t0, i).children[k];
                        assert(child_ok(t0, i, c));
                        assert(node_of(t1, c) == node_of(t0, c));
                    }
                    match node_of(t0, i).parent {
                        Some(p) => {
                            assert(live(t1, p));
                            assert(node_of(t1, p) == node_of(t0, p));
                        },
                        None => {},
                    }
                } else {
                    assert(i == id);
                    assert(node_of(t1, i).children.len() == 0);
                }
            }
        }
        id
    }

    /// Creates a new node holding `child_value`, with the node behind
    /// `parent` as its parent, and returns its identifier. The relation is
    /// established on both sides at once: the child's back-reference is set
    /// and the child is appended to the parent's children sequence.
    pub fn new_child(tree: &mut Tree, parent: usize, child_value: i32) -> (id: usize)
        requires
            wf(old(tree)@),
            live(old(tree)@, parent),
        ensures
            wf(final(tree)@),
            id == old(tree)@.len(),
            final(tree)@ == old(tree)@.update(
                parent as int,
                Some(
                    NodeView {
                        value: node_of(old(tree)@, parent).value,
                        parent: node_of(old(tree)@, parent).parent,
                        children: node_of(old(tree)@, parent).children.push(id),
                    },
                ),
            ).push(Some(NodeView { value: child_value, parent: Some(parent), children: Seq::empty() })),
            node_of(final(tree)@, id) == (NodeView {
                value: child_value,
                parent: Some(parent),
                children: Seq::<usize>::empty(),
            }),
            child_values(final(tree)@, parent) == child_values(old(tree)@, parent).push(child_value),
    {
        let ghost t0 = old(tree)@;
        let id = tree.nodes.len();
        tree.nodes.push(Some(Node { value: child_value, parent: Some(parent), children: Vec::new() }));
        proof {
            assert(tree@ =~= t0.push(
                Some(NodeView { value: child_value, parent: Some(parent), children: Seq::empty() }),
            ));
        }
        let mut p_node = tree.take_node(parent);
        p_node.children.push(id);
        tree.put_slot(parent, Some(p_node));
        proof {
            let pv0 = node_of(t0, parent);
            let t3 = tree@;
            assert(t3 =~= t0.update(
                parent as int,
                Some(NodeView { value: pv0.value, parent: pv0.parent, children: pv0.children.push(id) }),
            ).push(Some(NodeView { value: child_value, parent: Some(parent), children: Seq::empty() })));
            // every old child identifier is below `id`, so the pushed child is fresh
            assert(node_children_ok(t0, parent));
            assert forall|k: int| 0 <= k < pv0.children.len() implies pv0.children[k] < id by {
                assert(child_ok(t0, parent, pv0.children[k]));
            }
            assert(pv0.children.push(id).no_duplicates());
            assert forall|i: usize| #[trigger] live(t3, i) implies node_children_ok(t3, i)
                && parent_ok(t3, i) by {
                if i == id {
                    assert(node_of(t3, i).children.len() == 0);
                    assert(node_of(t3, parent).children == pv0.children.push(id));
                    assert(node_of(t3, parent).children[pv0.children.len() as int] == id);
                    assert(node_of(t3, parent).children.contains(id));
                } else {
                    assert(live(t0, i));
                    assert(node_children_ok(t0, i) && parent_ok(t0, i));
                    let chi = node_of(t3, i).children;
                    assert forall|k: int| 0 <= k < chi.len() implies child_ok(
                        t3,
                        i,
                        #[trigger] chi[k],
                    ) by {
                        if i == parent && k == pv0.children.len() {
                            assert(chi[k] == id);
                        } else {
                            let c = node_of(t0, i).children[k];
                            assert(chi[k] == c);
                            assert(child_ok(t0, i, c));
                            assert(node_of(t3, c).parent == node_of(t0, c).parent);
                        }
                    }
                    if i == parent {
                        assert(chi.no_duplicates());
                    } else {
                        assert(chi == node_of(t0, i).children);
                    }
                    match node_of(t3, i).parent {
                        Some(q) => {
                            assert(node_of(t3, i).parent == node_of(t0, i).parent);
                            assert(live(t3, q));
                            if q == parent {
                                let m = choose|m: int|
                                    0 <= m < pv0.children.len() && pv0.children[m] == i;
                                assert(node_of(t3, q).children[m] == i);
                                assert(node_of(t3, q).children.contains(i));
                            } else {
                                assert(node_of(t3, q).children == node_of(t0, q).children);
                            }
                        },
                        None => {},
                    }
                }
            }
            assert(child_values(t3, parent) =~= child_values(t0, parent).push(child_value));
        }
        id
    }

    /// Returns the values of the node's direct children, in stored order; an
    /// empty vector for a leaf. Pure: the tree is not changed.
    pub fn get_child_values(tree: &Tree, id: usize) -> (vals: Vec<i32>)
        requires
            wf(tree@),
            live(tree@, id),
        ensures
            vals@ == child_values(tree@, id),
    {
        let mut vals: Vec<i32> = Vec::new();
        let len = tree.get(id).children.len();
        let mut j: usize = 0;
        while j < len
            invariant
                wf(tree@),
                live(tree@, id),
                len == node_of(tree@, id).children.len(),
                j <= len,
                vals@.len() == j,
                forall|m: int| 0 <= m < j ==> vals@[m] == child_values(tree@, id)[m],
            decreases len - j,
        {
            let c = tree.get(id).children[j];
            proof {
                assert(node_children_ok(tree@, id));
                assert(child_ok(tree@, id, node_of(tree@, id).children[j as int]));
            }
            let v = tree.get(c).get_value();
            vals.push(v);
            j += 1;
        }
        proof {
            assert(vals@ =~= child_values(tree@, id));
        }
        vals
    }

    /// Establishes the mutual parent/child relation between two existing
    /// nodes: sets the child's back-reference to `parent` and appends `child`
    /// to the parent's children sequence, atomically from the caller's view.
    ///
    /// A node that already has a parent is refused with
    /// [`NodeError::AlreadyAttached`] and nothing is changed: re-linking would
    /// otherwise leave a stale owning edge in the old parent. No cycle check
    /// is made beyond that.
    pub fn parent_child(tree: &mut Tree, parent: usize, child: usize) -> (r: Result<
        (),
        NodeError,
    >)
        requires
            wf(old(tree)@),
            live(old(tree)@, parent),
            live(old(tree)@, child),
        ensures
            wf(final(tree)@),
            match node_of(old(tree)@, child).parent {
                Some(_) => r == Err::<(), NodeError>(NodeError::AlreadyAttached) && final(tree)@
                    == old(tree)@,
                None => {
                    &&& r == Ok::<(), NodeError>(())
                    &&& final(tree)@ == linked_view(old(tree)@, parent, child)
                    &&& node_of(final(tree)@, child).parent == Some(parent)
                    &&& node_of(final(tree)@, parent).children == node_of(
                        old(tree)@,
                        parent,
                    ).children.push(child)
                },
            },
    {
        let ghost t0 = old(tree)@;
        if tree.get(child).parent.is_some() {
            return Err(NodeError::AlreadyAttached);
        }
        let mut c_node = tree.take_node(child);
        c_node.parent = Some(parent);
        tree.put_slot(child, Some(c_node));
        let mut p_node = tree.take_node(parent);
        p_node.children.push(child);
        tree.put_slot(parent, Some(p_node));
        proof {
            let t3 = tree@;
            let ch0 = node_of(t0, parent).children;
            assert(t3 =~= linked_view(t0, parent, child));
            // the child was a root, so no node owned it: the pushed edge is fresh
            assert forall|i: usize, k: int|
                live(t0, i) && 0 <= k < node_of(t0, i).children.len() implies node_of(
                t0,
                i,
            ).children[k] != child by {
                assert(node_children_ok(t0, i));
                assert(child_ok(t0, i, node_of(t0, i).children[k]));
            }
            assert(node_children_ok(t0, parent));
            assert(ch0.push(child).no_duplicates());
            assert forall|i: usize| #[trigger] live(t3, i) implies node_children_ok(t3, i)
                && parent_ok(t3, i) by {
                assert(live(t0, i));
                assert(node_children_ok(t0, i) && parent_ok(t0, i));
                let chi = node_of(t3, i).children;
                assert forall|k: int| 0 <= k < chi.len() implies child_ok(
                    t3,
                    i,
                    #[trigger] chi[k],
                ) by {
                    if i == parent && k == ch0.len() {
                        assert(chi[k] == child);
                        assert(node_of(t3, child).parent == Some(parent));
                    } else {
                        let c = node_of(t0, i).children[k];
                        assert(chi[k] == c);
                        assert(child_ok(t0, i, c));
                        assert(c != child);
                        assert(node_of(t3, c).parent == node_of(t0, c).parent);
                    }
                }
                if i != parent {
                    assert(chi == node_of(t0, i).children);
                }
                if i == child {
                    assert(node_of(t3, i).parent == Some(parent));
                    assert(node_of(t3, parent).children[ch0.len() as int] == child);
                    assert(node_of(t3, parent).children.contains(child));
                } else {
                    assert(node_of(t3, i).parent == node_of(t0, i).parent);
                    match node_of(t0, i).parent {
                        Some(q) => {
                            assert(live(t3, q));
                            if q == parent {
                                let m = choose|m: int| 0 <= m < ch0.len() && ch0[m] == i;
                                assert(node_of(t3, q).children[m] == i);
                                assert(node_of(t3, q).children.contains(i));
                            } else {
                                assert(node_of(t3, q).children == node_of(t0, q).children);
                            }
                        },
                        None => {},
                    }
                }
            }
        }
        Ok(())
    }

    /// Exchanges the values of a parent and one of its direct children. This
    /// is the whole of the heap-maintenance exchange: only the two integer
    /// payloads move, every ownership edge and every node position stays
    /// exactly as it was.
    ///
    /// A `child` that is not a direct child of `parent` is refused with
    /// [`NodeError::InvalidRelation`] and nothing is changed.
    pub fn swap(tree: &mut Tree, parent: usize, child: usize) -> (r: Result<(), NodeError>)
        requires
            wf(old(tree)@),
            live(old(tree)@, parent),
            live(old(tree)@, child),
        ensures
            wf(final(tree)@),
            if node_of(old(tree)@, parent).children.contains(child) {
                &&& r == Ok::<(), NodeError>(())
                &&& final(tree)@ == swapped_view(old(tree)@, parent, child)
                &&& node_of(final(tree)@, parent).value == node_of(old(tree)@, child).value
                &&& node_of(final(tree)@, child).value == node_of(old(tree)@, parent).value
                &&& forall|i: usize| live(final(tree)@, i) == live(old(tree)@, i)
                &&& forall|i: usize| #[trigger]
                    live(old(tree)@, i) ==> node_of(final(tree)@, i).parent == node_of(
                        old(tree)@,
                        i,
                    ).parent && node_of(final(tree)@, i).children == node_of(
                        old(tree)@,
                        i,
                    ).children
            } else {
                r == Err::<(), NodeError>(NodeError::InvalidRelation) && final(tree)@ == old(
                    tree,
                )@
            },
    {
        let ghost t0 = old(tree)@;
        let len = tree.get(parent).children.len();
        let mut idx: usize = 0;
        while idx < len && tree.get(parent).children[idx] != child
            invariant
                live(tree@, parent),
                len == node_of(tree@, parent).children.len(),
                idx <= len,
                forall|m: int| 0 <= m < idx ==> node_of(tree@, parent).children[m] != child,
            decreases len - idx,
        {
            idx += 1;
        }
        if idx == len {
            proof {
                if node_of(t0, parent).children.contains(child) {
                    let m = choose|m: int|
                        0 <= m < node_of(t0, parent).children.len() && node_of(
                            t0,
                            parent,
                        ).children[m] == child;
                    assert(false);
                }
            }
            return Err(NodeError::InvalidRelation);
        }
        proof {
            assert(node_of(t0, parent).children[idx as int] == child);
            assert(node_of(t0, parent).children.contains(child));
        }
        let vp = tree.get(parent).get_value();
        let vc = tree.get(child).get_value();
        let mut p_node = tree.take_node(parent);
        p_node.value = vc;
        tree.put_slot(parent, Some(p_node));
        let mut c_node = tree.take_node(child);
        c_node.value = vp;
        tree.put_slot(child, Some(c_node));
        proof {
            let t3 = tree@;
            assert(t3 =~= swapped_view(t0, parent, child));
            assert forall|i: usize| #[trigger] live(t0, i) implies node_of(t3, i).parent
                == node_of(t0, i).parent && node_of(t3, i).children == node_of(t0, i).children by {}
            assert forall|i: usize| #[trigger] live(t3, i) implies node_children_ok(t3, i)
                && parent_ok(t3, i) by {
                assert(live(t0, i));
                assert(node_children_ok(t0, i) && parent_ok(t0, i));
                let chi = node_of(t3, i).children;
                assert(chi == node_of(t0, i).children);
                assert forall|k: int| 0 <= k < chi.len() implies child_ok(
                    t3,
                    i,
                    #[trigger] chi[k],
                ) by {
                    assert(child_ok(t0, i, node_of(t0, i).children[k]));
                }
                match node_of(t3, i).parent {
                    Some(q) => {
                        assert(live(t3, q));
                        assert(node_of(t3, q).children == node_of(t0, q).children);
                    },
                    None => {},
                }
            }
        }
        Ok(())
    }

    /// Returns the value field of the node.
    pub fn get_value(&self) -> (v: i32)
        ensures
            v == self@.value,
    {
        self.value
    }

    /// Returns the identifier of the node's parent, or `None` for a root.
    pub fn get_parent(&self) -> (p: Option<usize>)
        ensures
            p == self@.parent,
    {
        self.parent
    }

    /// Releases the owning reference to the node behind `id`: detaches it
    /// from its parent, if it has one, and tears the whole subtree it owns
    /// down. Afterwards exactly the members of that subtree are gone, every
    /// node outside it is untouched — except the old parent, whose children
    /// sequence loses `id` — and, the tree being well-formed again, no owning
    /// edge into the released subtree remains.
    #[verifier::loop_isolation(false)]
    pub fn release(tree: &mut Tree, id: usize)
        requires
            wf(old(tree)@),
            live(old(tree)@, id),
        ensures
            wf(final(tree)@),
            final(tree)@.len() == old(tree)@.len(),
            forall|i: usize|
                #![trigger live(final(tree)@, i)]
                #![trigger live(old(tree)@, i)]
                live(final(tree)@, i) <==> (live(old(tree)@, i) && !in_subtree(
                    old(tree)@,
                    id,
                    i,
                )),
            forall|i: usize|
                #![trigger live(final(tree)@, i)]
                live(final(tree)@, i) && node_of(old(tree)@, id).parent != Some(i)
                    ==> final(tree)@[i as int] == old(tree)@[i as int],
            match node_of(old(tree)@, id).parent {
                Some(p) => live(final(tree)@, p) ==> node_of(final(tree)@, p) == (NodeView {
                    value: node_of(old(tree)@, p).value,
                    parent: node_of(old(tree)@, p).parent,
                    children: node_of(old(tree)@, p).children.remove_value(id),
                }),
                None => true,
            },
    {
        let ghost t0 = old(tree)@;
        let pr = tree.get(id).get_parent();
        if let Some(p) = pr {
            proof {
                assert(parent_ok(t0, id));
            }
            let plen = tree.get(p).children.len();
            let mut idx: usize = 0;
            while idx < plen && tree.get(p).children[idx] != id
                invariant
                    idx <= plen,
                    forall|m: int| 0 <= m < idx ==> node_of(tree@, p).children[m] != id,
                decreases plen - idx,
            {
                idx += 1;
            }
            proof {
                if idx == plen {
                    let m = choose|m: int|
                        0 <= m < node_of(t0, p).children.len() && node_of(t0, p).children[m]
                            == id;
                    assert(false);
                }
            }
            let mut p_node = tree.take_node(p);
            p_node.children.remove(idx);
            tree.put_slot(p, Some(p_node));
            proof {
                let ch = node_of(t0, p).children;
                assert(tree@ =~= t0.update(
                    p as int,
                    Some(
                        NodeView {
                            value: node_of(t0, p).value,
                            parent: node_of(t0, p).parent,
                            children: ch.remove(idx as int),
                        },
                    ),
                ));
                ch.index_of_first_ensures(id);
                match ch.index_of_first(id) {
                    Some(i0) => {
                        assert(i0 == idx);
                    },
                    None => {
                        assert(ch[idx as int] == id);
                        assert(ch.contains(id));
                        assert(false);
                    },
                }
                assert(ch.remove_value(id) == ch.remove(idx as int));
                lemma_detached_facts(t0, tree@, id, p, idx as int);
            }
        } else {
            proof {
                lemma_root_facts(t0, id);
            }
        }
        let ghost d = tree@;
        proof {
            assert(d.len() == t0.len());
            assert(forall|i: usize| live(d, i) == live(t0, i));
            assert(children_ok(d));
            assert(forall|i: usize| #[trigger] live(d, i) && i != id ==> parent_ok(d, i));
            assert(forall|i: usize, c: usize| #[trigger] has_child(d, i, c) ==> c != id);
            assert(forall|i: usize| in_subtree(d, id, i) <==> in_subtree(t0, id, i));
            assert(forall|i: usize|
                live(t0, i) && node_of(t0, id).parent != Some(i) ==> d[i as int] == t0[i as int]);
            lemma_subtree_root(d, id);
        }
        let mut stack: Vec<usize> = Vec::new();
        stack.push(id);
        proof {
            assert(stack@[0] == id);
            assert(stack@.contains(id));
        }
        while stack.len() > 0
            invariant
                tree@.len() == d.len(),
                forall|i: usize| #[trigger]
                    live(tree@, i) ==> live(d, i) && tree@[i as int] == d[i as int],
                forall|i: usize| #[trigger] live(d, i) && !live(tree@, i) ==> in_subtree(d, id, i),
                forall|j: int| 0 <= j < stack@.len() ==> in_subtree(d, id, #[trigger] stack@[j]),
                forall|i: usize, c: usize|
                    live(d, i) && !live(tree@, i) && #[trigger] has_child(d, i, c) ==> (!live(
                        tree@,
                        c,
                    ) || stack@.contains(c)),
                !live(tree@, id) || stack@.contains(id),
            decreases live_count(tree@), stack@.len(),
        {
            let ghost stack0 = stack@;
            let x = stack.pop().unwrap();
            proof {
                assert(x == stack0[stack0.len() - 1]);
                assert(in_subtree(d, id, x));
            }
            if tree.is_live(x) {
                let clen = tree.get(x).children.len();
                let ghost chx = node_of(tree@, x).children;
                proof {
                    assert(tree@[x as int] == d[x as int]);
                    assert(chx == node_of(d, x).children);
                    assert forall|i: usize, c: usize|
                        live(d, i) && !live(tree@, i) && #[trigger] has_child(d, i, c) implies (
                    !live(tree@, c) || stack@.contains(c) || c == x) by {
                        if live(tree@, c) && c != x {
                            assert(stack0.contains(c));
                            lemma_pop_contains(stack0, c);
                        }
                    }
                    if live(tree@, id) && id != x {
                        assert(stack0.contains(id));
                        lemma_pop_contains(stack0, id);
                    }
                }
                let mut j: usize = 0;
                while j < clen
                    invariant
                        j <= clen,
                        forall|m: int| 0 <= m < j ==> stack@.contains(#[trigger] chx[m]),
                        forall|jj: int|
                            0 <= jj < stack@.len() ==> in_subtree(d, id, #[trigger] stack@[jj]),
                        forall|i: usize, c: usize|
                            live(d, i) && !live(tree@, i) && #[trigger] has_child(d, i, c) ==> (
                            !live(tree@, c) || stack@.contains(c) || c == x),
                        !live(tree@, id) || stack@.contains(id) || id == x,
                    decreases clen - j,
                {
                    let c = tree.get(x).children[j];
                    proof {
                        assert(has_child(d, x, c)) by {
                            assert(node_of(d, x).children[j as int] == c);
                            assert(node_of(d, x).children.contains(c));
                        }
                        lemma_subtree_step(d, id, x, c);
                    }
                    let ghost spre = stack@;
                    stack.push(c);
                    proof {
                        assert(stack@ == spre.push(c));
                        assert forall|y: usize| spre.contains(y) implies stack@.contains(y) by {
                            lemma_push_contains(spre, c, y);
                        }
                        assert(stack@[spre.len() as int] == c);
                        assert(stack@.contains(c));
                        assert(chx[j as int] == c);
                    }
                    j += 1;
                }
                let ghost tpre = tree@;
                tree.put_slot(x, None);
                proof {
                    lemma_live_count_kill(tpre, x as int);
                    assert forall|i: usize| #[trigger] live(tree@, i) implies live(d, i)
                        && tree@[i as int] == d[i as int] by {
                        assert(i != x);
                        assert(live(tpre, i));
                    }
                    assert forall|i: usize, c: usize|
                        live(d, i) && !live(tree@, i) && #[trigger] has_child(d, i, c) implies (
                    !live(tree@, c) || stack@.contains(c)) by {
                        if c != x && live(tree@, c) {
                            if i == x {
                                let m = choose|m: int| 0 <= m < chx.len() && chx[m] == c;
                                assert(stack@.contains(chx[m]));
                            } else {
                                assert(live(d, i) && !live(tpre, i));
                                assert(!live(tpre, c) || stack@.contains(c));
                                assert(live(tpre, c));
                            }
                        }
                    }
                }
            } else {
                proof {
                    assert forall|i: usize, c: usize|
                        live(d, i) && !live(tree@, i) && #[trigger] has_child(d, i, c) implies (
                    !live(tree@, c) || stack@.contains(c)) by {
                        if live(tree@, c) {
                            assert(stack0.contains(c));
                            assert(c != x);
                            lemma_pop_contains(stack0, c);
                        }
                    }
                    if live(tree@, id) {
                        assert(stack0.contains(id));
                        assert(id != x);
                        lemma_pop_contains(stack0, id);
                    }
                }
            }
        }
        proof {
            let tf = tree@;
            let aset = Set::new(|i: usize| !live(tf, i));
            assert forall|i2: usize, c2: usize|
                aset.contains(i2) && has_child(d, i2, c2) implies aset.contains(c2) by {
                assert(live(d, i2));
                assert(!live(tf, i2));
                assert(!live(tf, c2) || stack@.contains(c2));
                if stack@.contains(c2) {
                    let jj = choose|jj: int| 0 <= jj < stack@.len() && stack@[jj] == c2;
                    assert(false);
                }
            }
            assert(closed_under_children(d, aset));
            assert(aset.contains(id)) by {
                if live(tf, id) {
                    let jj = choose|jj: int| 0 <= jj < stack@.len() && stack@[jj] == id;
                    assert(false);
                }
            }
            assert forall|i: usize| in_subtree(d, id, i) implies !live(tf, i) by {
                lemma_subtree_elim(d, id, i, aset);
            }
            assert(!live(tf, id));
            assert forall|i: usize|
                live(tf, i) <==> (live(t0, i) && !in_subtree(t0, id, i)) by {
                assert(in_subtree(d, id, i) <==> in_subtree(t0, id, i));
                if live(tf, i) {
                    assert(live(d, i));
                    assert(!in_subtree(d, id, i));
                }
                if live(t0, i) && !in_subtree(t0, id, i) && !live(tf, i) {
                    assert(live(d, i));
                    assert(in_subtree(d, id, i));
                    assert(false);
                }
            }
            assert forall|i: usize| #[trigger] live(tf, i) implies node_children_ok(tf, i)
                && parent_ok(tf, i) by {
                assert(live(d, i) && tf[i as int] == d[i as int]);
                assert(node_children_ok(d, i));
                let chi = node_of(tf, i).children;
                assert(chi == node_of(d, i).children);
                assert forall|k: int| 0 <= k < chi.len() implies child_ok(
                    tf,
                    i,
                    #[trigger] chi[k],
                ) by {
                    let c = chi[k];
                    assert(child_ok(d, i, c));
                    assert(has_child(d, i, c)) by {
                        assert(node_of(d, i).children.contains(c));
                    }
                    assert(c != id);
                    if !live(tf, c) {
                        assert(in_subtree(d, id, c));
                        lemma_parent_in_subtree(d, id, c, i);
                        assert(!live(tf, i));
                        assert(false);
                    }
                    assert(tf[c as int] == d[c as int]);
                }
                assert(i != id);
                assert(parent_ok(d, i));
                match node_of(tf, i).parent {
                    Some(q) => {
                        assert(node_of(d, i).parent == Some(q));
                        assert(live(d, q) && node_of(d, q).children.contains(i));
                        if !live(tf, q) {
                            assert(in_subtree(d, id, q));
                            lemma_subtree_step(d, id, q, i);
                            assert(false);
                        }
                        assert(tf[q as int] == d[q as int]);
                    },
                    None => {},
                }
            }
            assert forall|i: usize|
                live(tf, i) && node_of(t0, id).parent != Some(i) implies tf[i as int]
                == t0[i as int] by {
                assert(tf[i as int] == d[i as int]);
                assert(live(t0, i));
            }
        }
    }
}

/// An element of a sequence is still an element after an unrelated last entry
/// is popped.
proof fn lemma_pop_contains<A>(s: Seq<A>, x: A)
    requires
        s.len() > 0,
        s.contains(x),
        x != s[s.len() - 1],
    ensures
        s.subrange(0, s.len() - 1).contains(x),
{
    let j = choose|j: int| 0 <= j < s.len() && s[j] == x;
    assert(j < s.len() - 1);
    assert(s.subrange(0, s.len() - 1)[j] == x);
}

/// An element of a sequence is still an element after a push.
proof fn lemma_push_contains<A>(s: Seq<A>, y: A, x: A)
    requires
        s.contains(x),
    ensures
        s.push(y).contains(x),
{
    let j = choose|j: int| 0 <= j < s.len() && s[j] == x;
    assert(s.push(y)[j] == x);
}

} // verus!
