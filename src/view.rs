//! A read-only cursor over the nodes of a tree.
use vstd::prelude::*;

use crate::tree::{Error, Octree, Proxy, ProxyData};
use vstd::view::View as _;

verus! {

/// A position in a tree: the tree and the index of one of its nodes.
pub struct View<'tree, T> {
    tree: &'tree Octree<T>,
    target: u32,
}

impl<'tree, T> View<'tree, T> {
    /// The tree looked at.
    pub closed spec fn spec_tree(&self) -> Octree<T> {
        *self.tree
    }

    /// The index of the node looked at.
    pub closed spec fn spec_target(&self) -> int {
        self.target as int
    }

    /// The tree is well formed and the index names one of its nodes.
    pub open spec fn valid(&self) -> bool {
        self.spec_tree().wf() && self.spec_tree().is_proxy(self.spec_target())
    }

    /// A view of node `target` of `tree`.
    pub fn new(tree: &'tree Octree<T>, target: u32) -> (r: View<'tree, T>)
        ensures
            r.spec_tree() == *tree,
            r.spec_target() == target,
    {
        View { tree, target }
    }

    /// The index of the node looked at.
    pub fn index(&self) -> (r: u32)
        ensures
            r == self.spec_target(),
    {
        self.target
    }

    /// The record of the node looked at.
    pub fn proxy(&self) -> (r: Proxy)
        requires
            self.valid(),
        ensures
            r == self.spec_tree().proxy(self.spec_target()),
    {
        self.tree.get(self.target).unwrap()
    }

    /// A view of the parent node; the root has none.
    pub fn parent(&self) -> (r: Result<View<'tree, T>, Error>)
        requires
            self.valid(),
        ensures
            self.spec_target() == self.spec_tree().spec_root() ==> r == Err::<View<'tree, T>, Error>(Error::NoParent),
            self.spec_target() != self.spec_tree().spec_root() ==> r is Ok && r->Ok_0.spec_tree() == self.spec_tree()
                && r->Ok_0.spec_target() == self.spec_tree().parent(self.spec_target()) && r->Ok_0.valid(),
    {
        let pid = self.proxy().parent;
        proof {
            lemma_parent_of(self.spec_tree(), self.spec_target());
        }
        if pid == self.target {
            return Err(Error::NoParent);
        }
        Ok(View { tree: self.tree, target: pid })
    }

    /// A view of child `index` of the node looked at, which must be a branch.
    pub fn child(&self, index: u8) -> (r: Result<View<'tree, T>, Error>)
        requires
            self.valid(),
        ensures
            !(self.spec_tree().proxy(self.spec_target()).data is Branch) ==> r == Err::<View<'tree, T>, Error>(
                Error::NoChildren(self.spec_target() as u32),
            ),
            self.spec_tree().proxy(self.spec_target()).data is Branch && index >= 8 ==> r == Err::<View<'tree, T>, Error>(
                Error::ChildOutOfRange(index),
            ),
            self.spec_tree().proxy(self.spec_target()).data is Branch && index < 8 ==> r is Ok && r->Ok_0.spec_tree()
                == self.spec_tree() && r->Ok_0.spec_target() == self.spec_tree().child(self.spec_target(), index as int)
                && r->Ok_0.valid(),
    {
        match self.proxy().data {
            ProxyData::Branch(b) => {
                if index >= 8 {
                    return Err(Error::ChildOutOfRange(index));
                }
                proof {
                    assert(self.spec_tree().linked_down(self.spec_target()));
                }
                let rec = self.tree.branch_record(b).unwrap();
                proof {
                    assert(rec@[index as int] == self.spec_tree().record(b as int)[index as int]);
                }
                Ok(View { tree: self.tree, target: rec[index as usize] })
            },
            _ => Err(Error::NoChildren(self.target)),
        }
    }

    /// Views of the children of the node looked at, in octant order; none unless it is a branch.
    pub fn children(&self) -> (r: Vec<View<'tree, T>>)
        requires
            self.valid(),
        ensures
            !(self.spec_tree().proxy(self.spec_target()).data is Branch) ==> r@.len() == 0,
            self.spec_tree().proxy(self.spec_target()).data is Branch ==> r@.len() == 8,
            forall|o: int|
                #![trigger r@[o]]
                0 <= o < r@.len() ==> r@[o].spec_tree() == self.spec_tree() && r@[o].spec_target()
                    == self.spec_tree().child(self.spec_target(), o) && r@[o].valid(),
    {
        let mut r: Vec<View<'tree, T>> = Vec::new();
        if !self.proxy().is_branch() {
            return r;
        }
        let mut o: u8 = 0;
        while o < 8
            invariant
                self.valid(),
                self.spec_tree().proxy(self.spec_target()).data is Branch,
                o <= 8,
                r@.len() == o,
                forall|k: int|
                    #![trigger r@[k]]
                    0 <= k < r@.len() ==> r@[k].spec_tree() == self.spec_tree() && r@[k].spec_target()
                        == self.spec_tree().child(self.spec_target(), k) && r@[k].valid(),
            decreases 8 - o,
        {
            let c = self.child(o);
            match c {
                Ok(v) => r.push(v),
                Err(_) => {},
            }
            o = o + 1;
        }
        r
    }

    /// The payload of the node looked at, if it is a leaf.
    pub fn data(&self) -> (r: Option<&'tree T>)
        requires
            self.valid(),
        ensures
            match self.spec_tree().proxy(self.spec_target()).data {
                ProxyData::Leaf(l) => r is Some && *r->Some_0 == self.spec_tree().leaf_value(l as int),
                _ => r is None,
            },
    {
        match self.proxy().data {
            ProxyData::Leaf(l) => {
                proof {
                    assert(self.spec_tree().linked_down(self.spec_target()));
                }
                self.tree.leaf_data(l)
            },
            _ => None,
        }
    }

    /// Move to the parent node; the root has none.
    pub fn parent_mut(&mut self) -> (r: Result<(), Error>)
        requires
            old(self).valid(),
        ensures
            final(self).spec_tree() == old(self).spec_tree(),
            final(self).valid(),
            old(self).spec_target() == old(self).spec_tree().spec_root() ==> r == Err::<(), Error>(Error::NoParent)
                && final(self).spec_target() == old(self).spec_target(),
            old(self).spec_target() != old(self).spec_tree().spec_root() ==> r is Ok && final(self).spec_target()
                == old(self).spec_tree().parent(old(self).spec_target()),
    {
        match self.parent() {
            Ok(v) => {
                self.target = v.target;
                Ok(())
            },
            Err(e) => Err(e),
        }
    }

    /// Move to child `index` of the node looked at, which must be a branch.
    pub fn child_mut(&mut self, index: u8) -> (r: Result<(), Error>)
        requires
            old(self).valid(),
        ensures
            final(self).spec_tree() == old(self).spec_tree(),
            final(self).valid(),
            r is Err ==> final(self).spec_target() == old(self).spec_target(),
            !(old(self).spec_tree().proxy(old(self).spec_target()).data is Branch) ==> r == Err::<(), Error>(
                Error::NoChildren(old(self).spec_target() as u32),
            ),
            old(self).spec_tree().proxy(old(self).spec_target()).data is Branch && index >= 8 ==> r == Err::<(), Error>(
                Error::ChildOutOfRange(index),
            ),
            old(self).spec_tree().proxy(old(self).spec_target()).data is Branch && index < 8 ==> r is Ok
                && final(self).spec_target() == old(self).spec_tree().child(old(self).spec_target(), index as int),
    {
        match self.child(index) {
            Ok(v) => {
                self.target = v.target;
                Ok(())
            },
            Err(e) => Err(e),
        }
    }
}

/// The parent of a node names a node, and only the root is its own parent.
proof fn lemma_parent_of<T>(t: Octree<T>, i: int)
    requires
        t.wf(),
        t.is_proxy(i),
    ensures
        t.is_proxy(t.parent(i)),
        t.parent(i) == i <==> i == t.spec_root(),
{
    if i != t.spec_root() {
        assert(t.linked_up(i));
        assert(t.linked_down(t.parent(i)));
        assert(t.record(t.proxy(t.parent(i)).data->Branch_0 as int)[t.slot(i) as int] == i);
    }
}

} // verus!
