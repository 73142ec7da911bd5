//! Reachability along owning edges.
//!
//! The subtree owned by a node is the least set of identifiers that contains
//! the node and is closed under owning edges. Stating it as "member of every
//! closed set that contains the root" needs no recursion and no acyclicity
//! assumption, and is exactly what a cascading release must clear.

use vstd::prelude::*;

use crate::model::{
    child_ok, children_ok, has_child, live, node_children_ok, node_of, parent_ok, wf, NodeView,
    TreeView,
};

verus! {

/// `s` is closed under owning edges: a child of a live member is a member.
pub open spec fn closed_under_children(t: TreeView, s: Set<usize>) -> bool {
    forall|i: usize, c: usize| #![trigger s.contains(i), has_child(t, i, c)]
        s.contains(i) && has_child(t, i, c) ==> s.contains(c)
}

/// `i` belongs to the subtree owned by `r`: it lies in every set of
/// identifiers that contains `r` and is closed under owning edges.
pub open spec fn in_subtree(t: TreeView, r: usize, i: usize) -> bool {
    forall|s: Set<usize>| #![trigger closed_under_children(t, s), s.contains(r)]
        closed_under_children(t, s) && s.contains(r) ==> s.contains(i)
}

/// The root of a subtree belongs to it.
pub proof fn lemma_subtree_root(t: TreeView, r: usize)
    ensures
        in_subtree(t, r, r),
{
}

/// A subtree is closed under owning edges.
pub proof fn lemma_subtree_step(t: TreeView, r: usize, i: usize, c: usize)
    requires
        in_subtree(t, r, i),
        has_child(t, i, c),
    ensures
        in_subtree(t, r, c),
{
    assert forall|s: Set<usize>|
        closed_under_children(t, s) && s.contains(r) implies s.contains(c) by {
        assert(s.contains(i));
    }
}

/// A member of a subtree lies in any particular closed set containing the
/// root.
pub proof fn lemma_subtree_elim(t: TreeView, r: usize, i: usize, s: Set<usize>)
    requires
        in_subtree(t, r, i),
        closed_under_children(t, s),
        s.contains(r),
    ensures
        s.contains(i),
{
}

/// An element of a sequence with one entry removed was an element of the
/// sequence.
pub proof fn lemma_remove_keeps_membership<A>(s: Seq<A>, k: int, x: A)
    requires
        0 <= k < s.len(),
        s.remove(k).contains(x),
    ensures
        s.contains(x),
{
    let j = choose|j: int| 0 <= j < s.remove(k).len() && s.remove(k)[j] == x;
    s.remove_ensures(k);
    if j < k {
        assert(s[j] == x);
    } else {
        assert(s[j + 1] == x);
    }
}

/// An element other than the removed entry is still an element afterwards.
pub proof fn lemma_remove_other_membership<A>(s: Seq<A>, k: int, x: A)
    requires
        0 <= k < s.len(),
        s.contains(x),
        x != s[k],
    ensures
        s.remove(k).contains(x),
{
    let j = choose|j: int| 0 <= j < s.len() && s[j] == x;
    s.remove_ensures(k);
    if j < k {
        assert(s.remove(k)[j] == x);
    } else {
        assert(j > k);
        assert(s.remove(k)[j - 1] == x);
    }
}

/// Removing one entry keeps a duplicate-free sequence duplicate-free.
pub proof fn lemma_remove_no_duplicates<A>(s: Seq<A>, k: int)
    requires
        0 <= k < s.len(),
        s.no_duplicates(),
    ensures
        s.remove(k).no_duplicates(),
{
    let s2 = s.remove(k);
    s.remove_ensures(k);
    assert forall|i: int, j: int|
        0 <= i < s2.len() && 0 <= j < s2.len() && i != j implies s2[i] != s2[j] by {
        let io: int = if i < k {
            i
        } else {
            i + 1
        };
        let jo: int = if j < k {
            j
        } else {
            j + 1
        };
        assert(s2[i] == s[io]);
        assert(s2[j] == s[jo]);
    }
}

/// In a duplicate-free sequence, removing the one occurrence of a value
/// removes every occurrence.
pub proof fn lemma_remove_sole_occurrence<A>(s: Seq<A>, k: int)
    requires
        0 <= k < s.len(),
        s.no_duplicates(),
    ensures
        !s.remove(k).contains(s[k]),
{
    let s2 = s.remove(k);
    s.remove_ensures(k);
    if s2.contains(s[k]) {
        let j = choose|j: int| 0 <= j < s2.len() && s2[j] == s[k];
        if j < k {
            assert(s[j] == s[k]);
            assert(false);
        } else {
            assert(s[j + 1] == s[k]);
            assert(false);
        }
    }
}

/// Walking one owning edge backwards stays inside a subtree: a non-root
/// member's parent is a member. Needs only the owning-edge half of
/// well-formedness, which pins the parent down as the sole owner.
pub proof fn lemma_parent_in_subtree(t: TreeView, r: usize, c: usize, x: usize)
    requires
        children_ok(t),
        in_subtree(t, r, c),
        c != r,
        live(t, c),
        node_of(t, c).parent == Some(x),
    ensures
        in_subtree(t, r, x),
{
    if !in_subtree(t, r, x) {
        let s = choose|s: Set<usize>|
            closed_under_children(t, s) && s.contains(r) && !s.contains(x);
        let s2 = s.remove(c);
        assert(s2.contains(r));
        assert forall|i: usize, cc: usize|
            s2.contains(i) && has_child(t, i, cc) implies s2.contains(cc) by {
            assert(s.contains(i));
            assert(s.contains(cc));
            if cc == c {
                let kk = choose|kk: int|
                    0 <= kk < node_of(t, i).children.len() && node_of(t, i).children[kk] == cc;
                assert(live(t, i));
                assert(node_children_ok(t, i));
                assert(child_ok(t, i, node_of(t, i).children[kk]));
                assert(i == x);
                assert(false);
            }
        }
        assert(closed_under_children(t, s2));
        lemma_subtree_elim(t, r, c, s2);
        assert(false);
    }
}

/// Detaching a node from its parent does not change which identifiers lie in
/// the subtree it owns: the only owning edge that goes away ends at the
/// subtree's own root.
pub proof fn lemma_detach_subtree_eq(t0: TreeView, d: TreeView, r: usize, p: usize, k: int)
    requires
        live(t0, p),
        0 <= k < node_of(t0, p).children.len(),
        node_of(t0, p).children[k] == r,
        d == t0.update(
            p as int,
            Some(
                NodeView {
                    value: node_of(t0, p).value,
                    parent: node_of(t0, p).parent,
                    children: node_of(t0, p).children.remove(k),
                },
            ),
        ),
    ensures
        forall|i: usize| in_subtree(d, r, i) <==> in_subtree(t0, r, i),
{
    assert forall|i: usize| in_subtree(d, r, i) <==> in_subtree(t0, r, i) by {
        if in_subtree(d, r, i) {
            assert forall|s: Set<usize>|
                closed_under_children(t0, s) && s.contains(r) implies s.contains(i) by {
                assert forall|i2: usize, c2: usize|
                    s.contains(i2) && has_child(d, i2, c2) implies s.contains(c2) by {
                    if i2 == p {
                        lemma_remove_keeps_membership(node_of(t0, p).children, k, c2);
                        assert(has_child(t0, i2, c2));
                    } else {
                        assert(node_of(d, i2) == node_of(t0, i2));
                        assert(has_child(t0, i2, c2));
                    }
                }
                assert(closed_under_children(d, s));
                lemma_subtree_elim(d, r, i, s);
            }
            assert(in_subtree(t0, r, i));
        }
        if in_subtree(t0, r, i) {
            assert forall|s: Set<usize>|
                closed_under_children(d, s) && s.contains(r) implies s.contains(i) by {
                assert forall|i2: usize, c2: usize|
                    s.contains(i2) && has_child(t0, i2, c2) implies s.contains(c2) by {
                    if i2 == p && c2 == r {
                    } else if i2 == p {
                        lemma_remove_other_membership(node_of(t0, p).children, k, c2);
                        assert(has_child(d, i2, c2));
                    } else {
                        assert(node_of(d, i2) == node_of(t0, i2));
                        assert(has_child(d, i2, c2));
                    }
                }
                assert(closed_under_children(t0, s));
                lemma_subtree_elim(t0, r, i, s);
            }
            assert(in_subtree(d, r, i));
        }
    }
}

/// Everything the teardown of a subtree needs to know about the tree right
/// after its root was detached from its parent.
pub proof fn lemma_detached_facts(t0: TreeView, d: TreeView, r: usize, p: usize, k: int)
    requires
        wf(t0),
        live(t0, r),
        node_of(t0, r).parent == Some(p),
        live(t0, p),
        0 <= k < node_of(t0, p).children.len(),
        node_of(t0, p).children[k] == r,
        d == t0.update(
            p as int,
            Some(
                NodeView {
                    value: node_of(t0, p).value,
                    parent: node_of(t0, p).parent,
                    children: node_of(t0, p).children.remove(k),
                },
            ),
        ),
    ensures
        d.len() == t0.len(),
        forall|i: usize| live(d, i) == live(t0, i),
        children_ok(d),
        forall|i: usize| #[trigger] live(d, i) && i != r ==> parent_ok(d, i),
        forall|i: usize, c: usize| #[trigger] has_child(d, i, c) ==> c != r,
        forall|i: usize| in_subtree(d, r, i) <==> in_subtree(t0, r, i),
        forall|i: usize| live(t0, i) && i != p ==> d[i as int] == t0[i as int],
{
    let ch = node_of(t0, p).children;
    assert(node_children_ok(t0, p));
    assert(forall|i: usize| live(d, i) == live(t0, i));
    assert forall|i: usize| #[trigger] live(d, i) implies node_children_ok(d, i) by {
        assert(live(t0, i));
        assert(node_children_ok(t0, i));
        let chi = node_of(d, i).children;
        assert forall|k2: int| 0 <= k2 < chi.len() implies child_ok(d, i, #[trigger] chi[k2]) by {
            let c = chi[k2];
            if i == p {
                lemma_remove_keeps_membership(ch, k, c);
                let m = choose|m: int| 0 <= m < ch.len() && ch[m] == c;
                assert(child_ok(t0, p, ch[m]));
            } else {
                assert(child_ok(t0, i, c));
            }
            assert(node_of(d, c).parent == node_of(t0, c).parent);
        }
        if i == p {
            lemma_remove_no_duplicates(ch, k);
        }
    }
    assert forall|i: usize| #[trigger] live(d, i) && i != r implies parent_ok(d, i) by {
        assert(live(t0, i));
        assert(parent_ok(t0, i));
        assert(node_of(d, i).parent == node_of(t0, i).parent);
        match node_of(t0, i).parent {
            Some(q) => {
                assert(live(d, q));
                if q == p {
                    lemma_remove_other_membership(ch, k, i);
                } else {
                    assert(node_of(d, q).children == node_of(t0, q).children);
                }
            },
            None => {},
        }
    }
    assert forall|i: usize, c: usize| #[trigger] has_child(d, i, c) implies c != r by {
        if c == r {
            if i == p {
                lemma_remove_sole_occurrence(ch, k);
                assert(node_of(d, p).children == ch.remove(k));
                assert(false);
            } else {
                lemma_remove_keeps_membership(ch, k, c);
                let m = choose|m: int|
                    0 <= m < node_of(d, i).children.len() && node_of(d, i).children[m] == c;
                assert(live(t0, i));
                assert(node_children_ok(t0, i));
                assert(child_ok(t0, i, node_of(t0, i).children[m]));
                assert(node_of(t0, r).parent == Some(i));
                assert(false);
            }
        }
    }
    lemma_detach_subtree_eq(t0, d, r, p, k);
}

/// Everything the teardown of a subtree needs when its root has no parent:
/// a root owns no incoming edge, because an owner would be named in the
/// root's back-reference.
pub proof fn lemma_root_facts(t0: TreeView, r: usize)
    requires
        wf(t0),
        live(t0, r),
        node_of(t0, r).parent is None,
    ensures
        forall|i: usize, c: usize| #[trigger] has_child(t0, i, c) ==> c != r,
{
    assert forall|i: usize, c: usize| #[trigger] has_child(t0, i, c) implies c != r by {
        if c == r {
            let m = choose|m: int|
                0 <= m < node_of(t0, i).children.len() && node_of(t0, i).children[m] == c;
            assert(node_children_ok(t0, i));
            assert(child_ok(t0, i, node_of(t0, i).children[m]));
            assert(false);
        }
    }
}

} // verus!
