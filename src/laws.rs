//! Properties that hold of every well-formed tree, and so of every tree that the operations of
//! this crate build: each operation that changes a tree keeps it well formed.
use vstd::prelude::*;

use crate::octant::in_grid;
use crate::tree::{Octree, ProxyData};

verus! {

/// The root is its own parent.
pub proof fn lemma_root_sentinel<T>(t: Octree<T>)
    requires
        t.wf(),
    ensures
        t.is_proxy(t.spec_root()),
        t.parent(t.spec_root()) == t.spec_root(),
{
}

/// Every node but the root is listed in its parent's branch record, exactly once.
pub proof fn lemma_parent_child<T>(t: Octree<T>, p: int)
    requires
        t.wf(),
        t.is_proxy(p),
        p != t.spec_root(),
    ensures
        t.is_proxy(t.parent(p)),
        t.proxy(t.parent(p)).data is Branch,
        exists|o: int| 0 <= o < 8 && t.child(t.parent(p), o) == p,
        forall|o1: int, o2: int|
            0 <= o1 < 8 && 0 <= o2 < 8 && #[trigger] t.child(t.parent(p), o1) == p && #[trigger] t.child(
                t.parent(p),
                o2,
            ) == p ==> o1 == o2,
{
    assert(t.linked_up(p));
    let q = t.parent(p);
    assert(t.linked_down(q));
    let b = t.proxy(q).data->Branch_0 as int;
    assert(t.child(q, t.slot(p) as int) == p);
    assert forall|o1: int, o2: int|
        0 <= o1 < 8 && 0 <= o2 < 8 && #[trigger] t.child(q, o1) == p && #[trigger] t.child(q, o2) == p implies o1
        == o2 by {
        assert(t.slot(t.record(b)[o1] as int) == o1);
        assert(t.slot(t.record(b)[o2] as int) == o2);
    }
}

/// A leaf refers to a stored payload; a branch refers to a stored record whose eight entries are
/// nodes.
pub proof fn lemma_arena_integrity<T>(t: Octree<T>, p: int)
    requires
        t.wf(),
        t.is_proxy(p),
    ensures
        t.proxy(p).data is Leaf ==> t.is_leaf_slot(t.proxy(p).data->Leaf_0 as int),
        t.proxy(p).data is Branch ==> t.is_record(t.proxy(p).data->Branch_0 as int) && forall|o: int|
            0 <= o < 8 ==> t.is_proxy(#[trigger] t.record(t.proxy(p).data->Branch_0 as int)[o] as int),
{
    assert(t.linked_down(p));
}

/// The depth coordinate of a node's point is its depth.
pub proof fn lemma_depth_agreement<T>(t: Octree<T>, i: int)
    requires
        t.wf(),
        t.is_proxy(i),
        t.depth(i) < 32,
    ensures
        t.point_of(i).d == t.depth(i),
        in_grid(t.point_of(i)),
    decreases t.depth(i),
{
    if i != t.spec_root() {
        assert(t.linked_up(i));
        let p = t.parent(i);
        assert(t.linked_down(p));
        assert(t.record(t.proxy(p).data->Branch_0 as int)[t.slot(i) as int] == i);
        assert(t.depth(i) == t.depth(p) + 1);
        lemma_depth_agreement(t, p);
        let q = t.point_of(p);
        crate::octant::lemma_pow2_bound(q.d as nat);
        crate::octant::lemma_pow2_bound((q.d + 1) as nat);
        vstd::arithmetic::power2::lemma_pow2_unfold((q.d + 1) as nat);
    } else {
        vstd::arithmetic::power2::lemma2_to64();
    }
}

} // verus!
