//! The arena-backed octree core.
use vstd::arithmetic::power2::pow2;
use vstd::prelude::*;

use crate::octant::{NodePoint, Octant, VoxelPoint, child_point, in_grid};
use vstd::set_lib::{lemma_int_range, lemma_len_subset, set_int_range};
use crate::stable_vec::{StableVec, count_init, is_first_free, lemma_count_update, put_at};

verus! {

/// What a node holds, and the index of that data in its arena.
#[derive(Debug, Clone, Copy, PartialEq, Eq, Structural)]
pub enum ProxyData {
    /// Nothing.
    Void,
    /// A payload, by its slot in the leaf arena.
    Leaf(u32),
    /// Eight children, by the slot of their record in the branch arena.
    Branch(u32),
}

/// The record of one node: its parent (itself for the root) and what it holds.
#[derive(Debug, Clone, Copy, PartialEq, Eq, Structural)]
pub struct Proxy {
    pub parent: u32,
    pub data: ProxyData,
}

impl Proxy {
    /// Whether the node holds nothing.
    pub fn is_void(&self) -> (r: bool)
        ensures
            r == (self.data is Void),
    {
        matches!(self.data, ProxyData::Void)
    }

    /// Whether the node holds a payload.
    pub fn is_leaf(&self) -> (r: bool)
        ensures
            r == (self.data is Leaf),
    {
        matches!(self.data, ProxyData::Leaf(_))
    }

    /// Whether the node has children.
    pub fn is_branch(&self) -> (r: bool)
        ensures
            r == (self.data is Branch),
    {
        matches!(self.data, ProxyData::Branch(_))
    }

    /// The slot of the node's branch record, if it is a branch.
    pub fn branch(self) -> (r: Option<u32>)
        ensures
            r == (match self.data {
                ProxyData::Branch(b) => Some(b),
                _ => None,
            }),
    {
        match self.data {
            ProxyData::Branch(b) => Some(b),
            _ => None,
        }
    }

    /// The slot of the node's payload, if it is a leaf.
    pub fn leaf(self) -> (r: Option<u32>)
        ensures
            r == (match self.data {
                ProxyData::Leaf(l) => Some(l),
                _ => None,
            }),
    {
        match self.data {
            ProxyData::Leaf(l) => Some(l),
            _ => None,
        }
    }
}

/// The ways an operation on a tree can fail.
#[derive(Debug, Clone, Copy, PartialEq, Eq, Structural)]
pub enum Error {
    /// The root has no parent.
    NoParent,
    /// A child position outside `0..8`.
    ChildOutOfRange(u8),
    /// The index names no node.
    InvalidIndex(u32),
    /// The node is not a branch.
    NotABranch(u32),
    /// The node is not a leaf.
    NotALeaf(u32),
    /// The node is not void.
    NotAVoid(u32),
    /// The node has no children.
    NoChildren(u32),
    /// No node under the given one is a leaf.
    NoLeafs(u32),
    /// The point lies outside a grid of the given size.
    VoxelOutOfGrid(u32, VoxelPoint),
    /// The position is taken already.
    ChildCollision(u32),
    /// A leaf cannot become a branch.
    BranchCollision,
}

/// Marks types that index the nodes of a tree.
pub trait TreeIndex {}

impl TreeIndex for u32 {}

/// Unsigned integers that can index an array.
pub trait ArrayIndex: Copy {
    /// Zero.
    fn zero() -> Self;

    /// One.
    fn one() -> Self;
}

impl ArrayIndex for u8 {
    fn zero() -> u8 {
        0
    }

    fn one() -> u8 {
        1
    }
}

impl ArrayIndex for u16 {
    fn zero() -> u16 {
        0
    }

    fn one() -> u16 {
        1
    }
}

impl ArrayIndex for u32 {
    fn zero() -> u32 {
        0
    }

    fn one() -> u32 {
        1
    }
}

impl ArrayIndex for u64 {
    fn zero() -> u64 {
        0
    }

    fn one() -> u64 {
        1
    }
}

impl ArrayIndex for usize {
    fn zero() -> usize {
        0
    }

    fn one() -> usize {
        1
    }
}

/// Payloads that two leaves can be merged into one, consuming both.
pub trait LeafMerge: Sized {
    /// The merge of `a` and `b`, as a value.
    spec fn spec_merge(a: Self, b: Self) -> Self;

    /// The merge of `a` and `b`.
    fn leaf_merge(a: Self, b: Self) -> (r: Self)
        ensures
            r == Self::spec_merge(a, b),
    ;
}

/// Counts merge to their maximum.
impl LeafMerge for u32 {
    open spec fn spec_merge(a: u32, b: u32) -> u32 {
        if a >= b { a } else { b }
    }

    fn leaf_merge(a: u32, b: u32) -> (r: u32) {
        if a >= b {
            a
        } else {
            b
        }
    }
}

/// The merge of the payloads `s`, taken from the last to the first: the last one merged with
/// the one before it, that result with the one before, and so on.
pub open spec fn merge_from_back<T: LeafMerge>(s: Seq<T>) -> T
    decreases s.len(),
{
    if s.len() <= 1 {
        s[0]
    } else {
        T::spec_merge(merge_from_back(s.subrange(1, s.len() as int)), s[0])
    }
}

/// Payloads that two leaves can be sampled into a new one, leaving both.
pub trait LeafSample: Sized {
    /// The sample of `a` and `b`, as a value.
    spec fn spec_sample(a: Self, b: Self) -> Self;

    /// A sample of `a` and `b`.
    fn leaf_sample(a: &Self, b: &Self) -> (r: Self)
        ensures
            r == Self::spec_sample(*a, *b),
    ;
}

/// Counts sample to their maximum.
impl LeafSample for u32 {
    open spec fn spec_sample(a: u32, b: u32) -> u32 {
        if a >= b { a } else { b }
    }

    fn leaf_sample(a: &u32, b: &u32) -> (r: u32) {
        if *a >= *b {
            *a
        } else {
            *b
        }
    }
}

/// The sample of the payloads of `s`, from the first to the last: the first sampled with the
/// second, that result with the third, and so on.
pub open spec fn sample_from_front<T: LeafSample>(s: Seq<(T, NodePoint)>) -> T
    decreases s.len(),
{
    if s.len() <= 1 {
        s[0].0
    } else {
        T::spec_sample(sample_from_front(s.drop_last()), s.last().0)
    }
}

/// A tree that partitions a cube into eight sub-cubes, recursively. Nodes, branch records and
/// payloads are kept in three stable-index arenas and refer to each other by index.
pub struct Octree<T> {
    proxies: StableVec<Proxy>,
    branch_data: StableVec<[u32; 8]>,
    leaf_data: StableVec<T>,
    root: u32,
    /// The depth of each node below the root.
    depths: Ghost<Seq<nat>>,
    /// The position of each non-root node within its parent's branch record.
    slots: Ghost<Seq<nat>>,
}

/// `after` is `before` with void node `target` divided: it became a branch, whose record
/// `children` lists eight new void nodes below it; every other node, record and payload stays.
pub open spec fn split_void<T>(
    before: Octree<T>,
    after: Octree<T>,
    target: int,
    children: [u32; 8],
    p: Proxy,
) -> bool {
    &&& after.spec_root() == before.spec_root()
    &&& after.spec_leaves() == before.spec_leaves()
    &&& after.is_proxy(target)
    &&& p == after.proxy(target)
    &&& p.parent == before.proxy(target).parent
    &&& p.data is Branch
    &&& !before.is_record(p.data->Branch_0 as int)
    &&& after.record(p.data->Branch_0 as int) == children@
    &&& forall|b: int| #[trigger] before.is_record(b) ==> after.is_record(b) && after.record(b) == before.record(b)
    &&& forall|i: int|
        #![trigger after.is_proxy(i)]
        before.is_proxy(i) && i != target ==> after.is_proxy(i) && after.proxy(i) == before.proxy(i)
    &&& fresh_void_children(before, after, target, children)
}

/// Each of `children` is a fresh void node below `target`, in first-free order.
pub open spec fn fresh_void_children<T>(before: Octree<T>, after: Octree<T>, target: int, children: [u32; 8]) -> bool {
    forall|o: int| 0 <= o < 8 ==> #[trigger] fresh_void_child(before, after, target, children, o)
}

/// Child `o` of `children` is a void node of `after` below `target`, in the first slot that
/// was free in `before` once the children before it were placed.
pub open spec fn fresh_void_child<T>(before: Octree<T>, after: Octree<T>, target: int, children: [u32; 8], o: int) -> bool {
    &&& !before.is_proxy(children@[o] as int)
    &&& after.is_proxy(children@[o] as int)
    &&& after.proxy(children@[o] as int) == (Proxy { parent: target as u32, data: ProxyData::Void })
    &&& takes_first_free(before, children, o)
}

/// Every slot below `children[o]` held a node of `before` or one of the children before `o`:
/// child `o` took the first free slot.
pub open spec fn takes_first_free<T>(before: Octree<T>, children: [u32; 8], o: int) -> bool {
    forall|j: int| 0 <= j < children@[o] ==> before.is_proxy(j) || exists|o2: int| 0 <= o2 < o && children@[o2] == j
}

/// `after` holds eight new void nodes `children`, in order, below `target` and one level
/// deeper; every node of `before` stays as it was.
pub open spec fn fresh_children<T>(before: Octree<T>, after: Octree<T>, target: u32, children: [u32; 8]) -> bool {
    &&& forall|i: int|
        #![trigger after.is_proxy(i)]
        before.is_proxy(i) ==> after.is_proxy(i) && after.proxy(i) == before.proxy(i)
            && after.depth(i) == before.depth(i) && after.slot(i) == before.slot(i)
    &&& forall|k: int|
        #![trigger children@[k]]
        0 <= k < 8 ==> {
            let c = children@[k] as int;
            &&& !before.is_proxy(c)
            &&& after.is_proxy(c)
            &&& after.proxy(c) == Proxy { parent: target, data: ProxyData::Void }
            &&& after.depth(c) == before.depth(target as int) + 1
            &&& after.slot(c) == k
        }
    &&& forall|k1: int, k2: int| 0 <= k1 < k2 < 8 ==> children@[k1] != children@[k2]
    &&& forall|i: int|
        #![trigger after.is_proxy(i)]
        after.is_proxy(i) ==> before.is_proxy(i) || exists|k: int| 0 <= k < 8 && children@[k] == i
    &&& forall|k: int|
        #![trigger children@[k]]
        0 <= k < 8 ==> takes_first_free(before, children, k)
}

/// Whether `i` is listed in `w`.
pub open spec fn listed(w: Seq<u32>, i: int) -> bool {
    exists|k: int| 0 <= k < w.len() && w[k] == i
}

/// `after` is `before` with node `target` made void: the nodes, records and payloads below it are
/// gone, and `r` holds the payloads that were dropped.
pub open spec fn voided<T>(before: Octree<T>, after: Octree<T>, target: int, r: Seq<T>) -> bool {
    &&& after.wf()
    &&& after.spec_proxies().len() == before.spec_proxies().len()
    &&& after.spec_branches().len() == before.spec_branches().len()
    &&& after.spec_leaves().len() == before.spec_leaves().len()
    &&& after.spec_root() == before.spec_root()
    &&& after.is_proxy(target)
    &&& after.proxy(target) == (Proxy { parent: before.proxy(target).parent, data: ProxyData::Void })
    &&& forall|i: int|
        #![trigger after.is_proxy(i)]
        after.is_proxy(i) ==> before.is_proxy(i) && (i != target ==> after.proxy(i) == before.proxy(i))
    &&& forall|i: int|
        #![trigger before.is_proxy(i)]
        before.is_proxy(i) && !after.is_proxy(i) ==> i != target && before.in_subtree(i, target)
    &&& forall|b: int|
        #![trigger after.is_record(b)]
        after.is_record(b) ==> before.is_record(b) && after.record(b) == before.record(b)
    &&& forall|l: int|
        #![trigger after.is_leaf_slot(l)]
        after.is_leaf_slot(l) ==> before.is_leaf_slot(l) && after.leaf_value(l) == before.leaf_value(l)
    &&& forall|l: int|
        #![trigger before.is_leaf_slot(l)]
        before.is_leaf_slot(l) && !after.is_leaf_slot(l) ==> exists|i: int|
            before.is_proxy(i) && before.in_subtree(i, target) && #[trigger] before.proxy(i).data
                == ProxyData::Leaf(l as u32)
    &&& r.len() + count_init(after.spec_leaves()) == count_init(before.spec_leaves())
    &&& exists|ls: Seq<int>| drawn_from(before, after, r, ls)
    &&& subtree_freed(before, after, target)
}

/// Voiding node `target` of `before` can drop exactly the payloads `r`.
pub open spec fn subtree_dropped<T>(before: Octree<T>, target: int, r: Seq<T>) -> bool {
    exists|mid: Octree<T>| #[trigger] voided(before, mid, target, r)
}

/// What node `n` of `before` referred to, its payload or its branch record, is gone in `after`.
pub open spec fn data_freed<T>(before: Octree<T>, after: Octree<T>, n: int) -> bool {
    match before.proxy(n).data {
        ProxyData::Void => true,
        ProxyData::Leaf(l) => !after.is_leaf_slot(l as int),
        ProxyData::Branch(b) => !after.is_record(b as int),
    }
}

/// Every node strictly below `target` in `before` is gone in `after`, and so is what they and
/// `target` referred to.
pub open spec fn subtree_freed<T>(before: Octree<T>, after: Octree<T>, target: int) -> bool {
    &&& forall|n: int|
        #![trigger before.in_subtree(n, target)]
        before.is_proxy(n) && n != target && before.in_subtree(n, target) ==> !after.is_proxy(n) && data_freed(
            before,
            after,
            n,
        )
    &&& data_freed(before, after, target)
}

/// `after` is `before` with void node `target` given payload `data` in the first free leaf slot.
pub open spec fn leaf_attached<T>(before: Octree<T>, after: Octree<T>, target: int, data: T) -> bool {
    exists|l: int|
        is_first_free(before.spec_leaves(), l) && after.spec_leaves() == put_at(before.spec_leaves(), l, data)
            && after.spec_proxies() == before.spec_proxies().update(
            target,
            Some(Proxy { parent: before.proxy(target).parent, data: ProxyData::Leaf(l as u32) }),
        ) && after.spec_branches() == before.spec_branches() && after.spec_root() == before.spec_root()
}

/// `after` is `before` grown by one level: a new root whose child `oct` is the old root, and
/// whose seven other children are new void nodes; every old node stays, one level deeper.
pub open spec fn grown<T>(before: Octree<T>, after: Octree<T>, oct: int) -> bool {
    let nr = after.spec_root();
    let b = after.proxy(nr).data->Branch_0 as int;
    &&& !before.is_proxy(nr)
    &&& after.is_proxy(nr)
    &&& after.proxy(nr).parent == nr
    &&& after.proxy(nr).data is Branch
    &&& !before.is_record(b)
    &&& after.record(b)[oct] == before.spec_root()
    &&& after.proxy(before.spec_root()) == (Proxy { parent: nr as u32, data: before.proxy(before.spec_root()).data })
    &&& forall|o: int|
        #![trigger after.record(b)[o]]
        0 <= o < 8 && o != oct ==> !before.is_proxy(after.record(b)[o] as int) && after.proxy(
            after.record(b)[o] as int,
        ) == (Proxy { parent: nr as u32, data: ProxyData::Void })
    &&& forall|i: int|
        #![trigger before.is_proxy(i)]
        before.is_proxy(i) ==> after.is_proxy(i) && after.depth(i) == before.depth(i) + 1
    &&& forall|i: int|
        #![trigger before.is_proxy(i)]
        before.is_proxy(i) && i != before.spec_root() ==> after.proxy(i) == before.proxy(i)
    &&& forall|c: int| #![trigger before.is_record(c)] before.is_record(c) ==> after.is_record(c) && after.record(c) == before.record(c)
    &&& after.spec_leaves() == before.spec_leaves()
}

/// The child position that the descent toward `p` takes at depth `k`: the bits of `p`'s
/// coordinates at that level. A cell goes to the upper half on an axis exactly when its center
/// lies strictly above the midpoint of the current cube.
pub open spec fn octant_toward(p: NodePoint, k: int) -> int {
    let s = (p.d - 1 - k) as nat;
    (4 * ((p.x as nat / pow2(s)) % 2) + 2 * ((p.y as nat / pow2(s)) % 2) + (p.z as nat / pow2(s)) % 2) as int
}

/// The point `p` cut to depth `k`: the cell at depth `k` that holds it.
pub open spec fn truncate(p: NodePoint, k: int) -> NodePoint {
    let s = (p.d - k) as nat;
    NodePoint {
        x: (p.x as nat / pow2(s)) as u32,
        y: (p.y as nat / pow2(s)) as u32,
        z: (p.z as nat / pow2(s)) as u32,
        d: k as u32,
    }
}

/// One more level of a coordinate: the bits above `s` doubled, plus the bit at `s`.
proof fn lemma_coord_step(x: nat, s: nat)
    ensures
        x / pow2(s) == 2 * (x / pow2(s + 1)) + (x / pow2(s)) % 2,
        (x / pow2(s)) % 2 < 2,
{
    vstd::arithmetic::power2::lemma_pow2_pos(s);
    vstd::arithmetic::power2::lemma_pow2_unfold(s + 1);
    vstd::arithmetic::div_mod::lemma_div_denominator(x as int, pow2(s) as int, 2);
    vstd::arithmetic::div_mod::lemma_fundamental_div_mod((x / pow2(s)) as int, 2);
    assert(pow2(s) * 2 == pow2(s + 1));
}

/// The bits of an octant code built from three axis bits.
proof fn lemma_octant_bits(bx: int, by: int, bz: int)
    requires
        0 <= bx < 2,
        0 <= by < 2,
        0 <= bz < 2,
    ensures
        crate::octant::bit01((4 * bx + 2 * by + bz) as u8, 4) == bx,
        crate::octant::bit01((4 * bx + 2 * by + bz) as u8, 2) == by,
        crate::octant::bit01((4 * bx + 2 * by + bz) as u8, 1) == bz,
{
}

/// The values held in `s`, in slot order.
pub open spec fn present_values<T>(s: Seq<Option<T>>) -> Seq<T>
    decreases s.len(),
{
    if s.len() == 0 {
        Seq::empty()
    } else if s.last() is Some {
        present_values(s.drop_last()).push(s.last().unwrap())
    } else {
        present_values(s.drop_last())
    }
}

/// The items of `s` with their payloads read through.
pub open spec fn deref_items<T>(s: Seq<(&T, NodePoint)>) -> Seq<(T, NodePoint)> {
    s.map_values(|x: (&T, NodePoint)| (*x.0, x.1))
}

/// Step `j` of `nodes` goes from a branch to its child at `path[j]`.
pub open spec fn chain_step<T>(t: Octree<T>, nodes: Seq<int>, path: Seq<Octant>, j: int) -> bool {
    &&& t.is_proxy(nodes[j])
    &&& t.proxy(nodes[j]).data is Branch
    &&& t.child(nodes[j], path[j].0 as int) == nodes[j + 1]
}

/// `nodes` is the walk from the root along the first `k` steps of `path`, through branches.
pub open spec fn path_chain<T>(t: Octree<T>, nodes: Seq<int>, path: Seq<Octant>, k: int) -> bool {
    &&& 0 <= k <= path.len()
    &&& nodes.len() == k + 1
    &&& nodes[0] == t.spec_root()
    &&& t.is_proxy(nodes[k])
    &&& forall|j: int| 0 <= j < k ==> #[trigger] chain_step(t, nodes, path, j)
}

/// Dividing `target` leaves every other node as it was.
proof fn lemma_split_keeps<T>(t: Octree<T>, t2: Octree<T>, target: int, children: [u32; 8], i: int)
    requires
        split_void(t, t2, target, children, t2.proxy(target)),
        t.is_proxy(i),
        i != target,
    ensures
        t2.is_proxy(i),
        t2.proxy(i) == t.proxy(i),
{
    assert(t2.is_proxy(i));
}

/// Dividing the void last node of a chain extends the chain by the child on the path.
#[verifier::rlimit(100)]
#[verifier::spinoff_prover]
proof fn lemma_chain_extend<T>(t: Octree<T>, t2: Octree<T>, nodes: Seq<int>, path: Seq<Octant>, k: int, children: [u32; 8])
    requires
        t.wf(),
        t2.wf(),
        forall|j: int| 0 <= j < path.len() ==> (#[trigger] path[j]).valid(),
        path_chain(t, nodes, path, k),
        k < path.len(),
        t.proxy(nodes[k]).data is Void,
        split_void(t, t2, nodes[k], children, t2.proxy(nodes[k])),
    ensures
        path_chain(t2, nodes.push(children@[path[k].0 as int] as int), path, k + 1),
        t2.is_proxy(children@[path[k].0 as int] as int),
        t2.proxy(children@[path[k].0 as int] as int).data is Void,
{
    lemma_chain_depth(t, nodes, path, k);
    let cur = nodes[k];
    let o = path[k].0 as int;
    assert(fresh_void_child(t, t2, cur, children, o));
    assert(t2.linked_down(cur));
    assert(t2.child(cur, o) == children@[o]);
    let n2 = nodes.push(children@[o] as int);
    assert forall|j: int| 0 <= j < k + 1 implies #[trigger] chain_step(t2, n2, path, j) by {
        if j < k {
            assert(chain_step(t, nodes, path, j));
            assert(t.depth(nodes[j]) == j);
            assert(nodes[j] != cur);
            assert(t.is_proxy(nodes[j]));
            lemma_split_keeps(t, t2, cur, children, nodes[j]);
            assert(t.linked_down(nodes[j]));
            let bj = t.proxy(nodes[j]).data->Branch_0 as int;
            assert(t.is_record(bj));
            assert(t2.record(bj) == t.record(bj));
        }
    }
    assert(n2[0] == t2.spec_root());
}

/// Along a chain, the walk from its start ends where the walk from its last node ends.
#[verifier::spinoff_prover]
proof fn lemma_chain_walk<T>(t: Octree<T>, nodes: Seq<int>, path: Seq<Octant>, k: int, j: int)
    requires
        path_chain(t, nodes, path, k),
        0 <= j <= k,
    ensures
        t.walk_end(nodes[j], path, j) == t.walk_end(nodes[k], path, k),
    decreases k - j,
{
    if j < k {
        assert(chain_step(t, nodes, path, j));
        lemma_chain_walk(t, nodes, path, k, j + 1);
    }
}

/// In a well-formed tree the `j`th node of a chain is `j` levels deep.
#[verifier::rlimit(100)]
#[verifier::spinoff_prover]
proof fn lemma_chain_depth<T>(t: Octree<T>, nodes: Seq<int>, path: Seq<Octant>, k: int)
    requires
        t.wf(),
        forall|j: int| 0 <= j < path.len() ==> (#[trigger] path[j]).valid(),
        path_chain(t, nodes, path, k),
    ensures
        forall|j: int| 0 <= j <= k ==> t.depth(#[trigger] nodes[j]) == j,
    decreases k,
{
    if k > 0 {
        let short = nodes.subrange(0, k);
        assert(path_chain(t, short, path, k - 1)) by {
            assert forall|j: int| 0 <= j < k - 1 implies #[trigger] chain_step(t, short, path, j) by {
                assert(chain_step(t, nodes, path, j));
            }
            assert(chain_step(t, nodes, path, k - 1));
        }
        lemma_chain_depth(t, short, path, k - 1);
        assert(chain_step(t, nodes, path, k - 1));
        let p = nodes[k - 1];
        assert(t.linked_down(p));
        let o = path[k - 1].0 as int;
        assert forall|j: int| 0 <= j <= k implies t.depth(#[trigger] nodes[j]) == j by {
            if j < k {
                assert(short[j] == nodes[j]);
            } else {
                assert(t.record(t.proxy(p).data->Branch_0 as int)[o] == nodes[k]);
            }
        }
    }
}

/// The state of voiding the subtree of `target` (whose branch record was `b` in `t0`), with the
/// nodes of `w` still to drop and the payloads `res` dropped so far.
pub open spec fn flatten_inv<T>(t0: Octree<T>, t: Octree<T>, target: int, w: Seq<u32>, res: Seq<T>, ls: Seq<int>) -> bool {
    &&& t0.wf()
    &&& t0.is_proxy(target)
    &&& t.arenas_wf()
    &&& t.spec_proxies().len() == t0.spec_proxies().len()
    &&& t.spec_branches().len() == t0.spec_branches().len()
    &&& t.spec_leaves().len() == t0.spec_leaves().len()
    &&& forall|i: int| #![trigger t.depth(i)] t.depth(i) == t0.depth(i)
    &&& forall|i: int| #![trigger t.slot(i)] t.slot(i) == t0.slot(i)
    &&& t.spec_root() == t0.spec_root()
    &&& t.is_proxy(target)
    &&& t.proxy(target) == (Proxy { parent: t0.proxy(target).parent, data: ProxyData::Void })
    &&& forall|i: int|
        #![trigger t.is_proxy(i)]
        t.is_proxy(i) ==> t0.is_proxy(i) && (i != target ==> t.proxy(i) == t0.proxy(i))
    &&& forall|i: int|
        #![trigger t0.is_proxy(i)]
        t0.is_proxy(i) && !t.is_proxy(i) ==> i != target && t0.in_subtree(i, target) && (
        !t.is_proxy(t0.parent(i)) || t0.parent(i) == target) && data_freed(t0, t, i)
    &&& data_freed(t0, t, target)
    &&& forall|k: int|
        #![trigger w[k]]
        0 <= k < w.len() ==> {
            let c = w[k] as int;
            &&& t.is_proxy(c)
            &&& c != target
            &&& t0.in_subtree(c, target)
            &&& (!t.is_proxy(t0.parent(c)) || t0.parent(c) == target)
        }
    &&& forall|k1: int, k2: int| 0 <= k1 < k2 < w.len() ==> w[k1] != w[k2]
    &&& forall|i: int|
        #![trigger t.is_proxy(i)]
        t.is_proxy(i) && i != t.spec_root() && !listed(w, i) ==> t.linked_up(i)
    &&& forall|p: int| #![trigger t.is_proxy(p)] t.is_proxy(p) ==> t.linked_down(p)
    &&& t.owners_unique()
    &&& forall|b: int|
        #![trigger t.is_record(b)]
        t.is_record(b) ==> t0.is_record(b) && t.record(b) == t0.record(b)
    &&& forall|l: int|
        #![trigger t.is_leaf_slot(l)]
        t.is_leaf_slot(l) ==> t0.is_leaf_slot(l) && t.leaf_value(l) == t0.leaf_value(l)
    &&& forall|l: int|
        #![trigger t0.is_leaf_slot(l)]
        t0.is_leaf_slot(l) && !t.is_leaf_slot(l) ==> exists|i: int|
            t0.is_proxy(i) && t0.in_subtree(i, target) && #[trigger] t0.proxy(i).data
                == ProxyData::Leaf(l as u32)
    &&& res.len() + count_init(t.spec_leaves()) == count_init(t0.spec_leaves())
    &&& drawn_from(t0, t, res, ls)
}

/// Each `res[k]` is the payload that `before` held in slot `ls[k]`, which `after` no longer holds.
pub open spec fn drawn_from<T>(before: Octree<T>, after: Octree<T>, res: Seq<T>, ls: Seq<int>) -> bool {
    &&& ls.len() == res.len()
    &&& forall|k1: int, k2: int| 0 <= k1 < k2 < ls.len() ==> ls[k1] != ls[k2]
    &&& forall|k: int|
        #![trigger ls[k]]
        0 <= k < res.len() ==> before.is_leaf_slot(ls[k]) && !after.is_leaf_slot(ls[k]) && res[k]
            == before.leaf_value(ls[k])
}

impl<T> Octree<T> {
    /// The node arena.
    pub closed spec fn spec_proxies(&self) -> Seq<Option<Proxy>> {
        self.proxies@
    }

    /// The branch-record arena.
    pub closed spec fn spec_branches(&self) -> Seq<Option<[u32; 8]>> {
        self.branch_data@
    }

    /// The payload arena.
    pub closed spec fn spec_leaves(&self) -> Seq<Option<T>> {
        self.leaf_data@
    }

    /// The index of the root node.
    pub closed spec fn spec_root(&self) -> int {
        self.root as int
    }

    /// The depth of node `i` below the root.
    pub closed spec fn depth(&self, i: int) -> nat {
        self.depths@[i]
    }

    /// The position of node `i` within its parent's branch record.
    pub closed spec fn slot(&self, i: int) -> nat {
        self.slots@[i]
    }

    /// The arenas are consistent and the ghost tables cover every node slot.
    pub closed spec fn arenas_wf(&self) -> bool {
        &&& self.proxies.wf()
        &&& self.branch_data.wf()
        &&& self.leaf_data.wf()
        &&& self.depths@.len() == self.proxies@.len()
        &&& self.slots@.len() == self.proxies@.len()
    }

    /// Whether `i` names a node.
    pub open spec fn is_proxy(&self, i: int) -> bool {
        0 <= i < self.spec_proxies().len() && self.spec_proxies()[i] is Some
    }

    /// The record of node `i`.
    pub open spec fn proxy(&self, i: int) -> Proxy {
        self.spec_proxies()[i].unwrap()
    }

    /// Whether `b` names a branch record.
    pub open spec fn is_record(&self, b: int) -> bool {
        0 <= b < self.spec_branches().len() && self.spec_branches()[b] is Some
    }

    /// The children listed in branch record `b`.
    pub open spec fn record(&self, b: int) -> Seq<u32> {
        self.spec_branches()[b].unwrap()@
    }

    /// Whether `l` names a payload.
    pub open spec fn is_leaf_slot(&self, l: int) -> bool {
        0 <= l < self.spec_leaves().len() && self.spec_leaves()[l] is Some
    }

    /// The payload in slot `l`.
    pub open spec fn leaf_value(&self, l: int) -> T {
        self.spec_leaves()[l].unwrap()
    }

    /// The child of node `p` at position `o`; `p` must be a branch.
    pub open spec fn child(&self, p: int, o: int) -> int {
        self.record(self.proxy(p).data->Branch_0 as int)[o] as int
    }

    /// The parent of node `i`.
    pub open spec fn parent(&self, i: int) -> int {
        self.proxy(i).parent as int
    }

    /// Node `i`, not the root, is listed in its parent's branch record, at position `slot(i)`.
    pub open spec fn linked_up(&self, i: int) -> bool {
        let p = self.parent(i);
        &&& self.is_proxy(p)
        &&& self.proxy(p).data is Branch
        &&& self.slot(i) < 8
        &&& self.child(p, self.slot(i) as int) == i
    }

    /// What node `p` refers to exists, and a branch's children point back to it.
    pub open spec fn linked_down(&self, p: int) -> bool {
        match self.proxy(p).data {
            ProxyData::Void => true,
            ProxyData::Leaf(l) => self.is_leaf_slot(l as int),
            ProxyData::Branch(b) => {
                &&& self.is_record(b as int)
                &&& forall|o: int|
                    #![trigger self.record(b as int)[o]]
                    0 <= o < 8 ==> {
                        let c = self.record(b as int)[o] as int;
                        &&& self.is_proxy(c)
                        &&& self.parent(c) == p
                        &&& self.slot(c) == o
                        &&& self.depth(c) == self.depth(p) + 1
                    }
            },
        }
    }

    /// No two nodes share a branch record or a payload.
    pub open spec fn owners_unique(&self) -> bool {
        &&& forall|p: int, q: int|
            #![trigger self.proxy(p).data, self.proxy(q).data]
            self.is_proxy(p) && self.is_proxy(q) && self.proxy(p).data is Branch
                && self.proxy(p).data == self.proxy(q).data ==> p == q
        &&& forall|p: int, q: int|
            #![trigger self.proxy(p).data, self.proxy(q).data]
            self.is_proxy(p) && self.is_proxy(q) && self.proxy(p).data is Leaf
                && self.proxy(p).data == self.proxy(q).data ==> p == q
    }

    /// The tree's structural invariant.
    pub open spec fn wf(&self) -> bool {
        &&& self.arenas_wf()
        &&& self.spec_proxies().len() <= u32::MAX
        &&& self.spec_branches().len() <= u32::MAX
        &&& self.spec_leaves().len() <= u32::MAX
        &&& self.is_proxy(self.spec_root())
        &&& self.parent(self.spec_root()) == self.spec_root()
        &&& self.depth(self.spec_root()) == 0
        &&& forall|i: int|
            #![trigger self.is_proxy(i)]
            self.is_proxy(i) && i != self.spec_root() ==> self.linked_up(i)
        &&& forall|p: int| #![trigger self.is_proxy(p)] self.is_proxy(p) ==> self.linked_down(p)
        &&& self.owners_unique()
    }

    /// Whether node `i` lies in the subtree of node `a`: it is `a`, or its parent lies there.
    pub open spec fn in_subtree(&self, i: int, a: int) -> bool
        decreases self.depth(i),
    {
        if i == a {
            true
        } else if self.is_proxy(i) && i != self.spec_root() && self.depth(self.parent(i)) < self.depth(i) {
            self.in_subtree(self.parent(i), a)
        } else {
            false
        }
    }

    /// Whether `h` is the depth of the deepest node.
    pub open spec fn is_height(&self, h: int) -> bool {
        &&& forall|i: int| #[trigger] self.is_proxy(i) ==> self.depth(i) <= h
        &&& exists|i: int| self.is_proxy(i) && self.depth(i) == h
    }

    /// The node that the descent toward `p` from node `i` at depth `k` stops at: it follows
    /// the bits of `p` while it stands on a branch above the depth of `p`.
    pub open spec fn descend(&self, i: int, p: NodePoint, k: int) -> int
        decreases p.d - k,
    {
        if 0 <= k < p.d && self.is_proxy(i) && self.proxy(i).data is Branch {
            self.descend(self.child(i, octant_toward(p, k)), p, k + 1)
        } else {
            i
        }
    }

    /// Where the walk from node `i` along `path`, at step `k`, stops: it goes on while the node
    /// is a branch and steps remain. Returns the node and the step.
    pub open spec fn walk_end(&self, i: int, path: Seq<Octant>, k: int) -> (int, int)
        decreases path.len() - k,
    {
        if 0 <= k < path.len() && self.is_proxy(i) && self.proxy(i).data is Branch {
            self.walk_end(self.child(i, path[k].0 as int), path, k + 1)
        } else {
            (i, k)
        }
    }

    /// Some node in the subtree of `i` is a leaf.
    pub open spec fn has_leaf_below(&self, i: int) -> bool {
        exists|n: int| self.is_proxy(n) && #[trigger] self.in_subtree(n, i) && self.proxy(n).data is Leaf
    }

    /// The payloads under node `i` with the points of their nodes, depth first in octant order.
    pub open spec fn dfs_leaves(&self, i: int) -> Seq<(T, NodePoint)>
        decreases self.spec_proxies().len() - self.depth(i), 9int,
    {
        if !self.is_proxy(i) || self.depth(i) >= self.spec_proxies().len() {
            Seq::empty()
        } else {
            match self.proxy(i).data {
                ProxyData::Void => Seq::empty(),
                ProxyData::Leaf(l) => seq![(self.leaf_value(l as int), self.point_of(i))],
                ProxyData::Branch(_) => self.dfs_children(i, 0),
            }
        }
    }

    /// The listing of the children of branch `i` from position `o` on, each depth first.
    pub open spec fn dfs_children(&self, i: int, o: int) -> Seq<(T, NodePoint)>
        decreases self.spec_proxies().len() - self.depth(i), 8 - o,
    {
        if o < 0 || o >= 8 || self.depth(i) >= self.spec_proxies().len() {
            Seq::empty()
        } else if self.depth(i) < self.depth(self.child(i, o)) < self.spec_proxies().len() {
            self.dfs_leaves(self.child(i, o)) + self.dfs_children(i, o + 1)
        } else {
            self.dfs_children(i, o + 1)
        }
    }

    /// Some node at point `np` is a leaf holding `v`.
    pub open spec fn holds_leaf_at(&self, v: T, np: NodePoint) -> bool {
        exists|n: int|
            self.is_proxy(n) && #[trigger] self.proxy(n).data is Leaf && self.leaf_value(self.proxy(n).data->Leaf_0 as int) == v
                && self.point_of(n) == np
    }

    /// The nodes from `i` up to the root, `i` first.
    pub open spec fn ancestors(&self, i: int) -> Seq<int>
        decreases self.depth(i),
    {
        if self.is_proxy(i) && i != self.spec_root() && self.depth(self.parent(i)) < self.depth(i) {
            seq![i] + self.ancestors(self.parent(i))
        } else {
            seq![i]
        }
    }

    /// The coordinates of node `i` within the grid of its depth.
    pub open spec fn point_of(&self, i: int) -> NodePoint
        decreases self.depth(i),
    {
        if self.is_proxy(i) && i != self.spec_root() && self.depth(self.parent(i)) < self.depth(i) {
            child_point(self.point_of(self.parent(i)), self.slot(i) as u8)
        } else {
            NodePoint { x: 0, y: 0, z: 0, d: 0 }
        }
    }

    /// A tree whose root is void.
    pub fn new() -> (r: Octree<T>)
        ensures
            r.wf(),
            r.spec_root() == 0,
            r.spec_proxies() == seq![Some(Proxy { parent: 0, data: ProxyData::Void })],
            r.spec_branches().len() == 0,
            r.spec_leaves().len() == 0,
    {
        let mut proxies = StableVec::new();
        let i = proxies.push(Proxy { parent: 0, data: ProxyData::Void });
        let ghost zero = seq![0nat];
        let r = Octree {
            proxies,
            branch_data: StableVec::new(),
            leaf_data: StableVec::new(),
            root: 0,
            depths: Ghost(zero),
            slots: Ghost(zero),
        };
        proof {
            assert(r.spec_proxies() =~= seq![Some(Proxy { parent: 0, data: ProxyData::Void })]);
        }
        r
    }

    /// The index of the root node.
    pub fn root(&self) -> (r: u32)
        ensures
            r == self.spec_root(),
    {
        self.root
    }

    /// The record of node `index`, if it names one.
    pub fn get(&self, index: u32) -> (r: Option<Proxy>)
        ensures
            r == (if self.is_proxy(index as int) { Some(self.proxy(index as int)) } else { None }),
    {
        match self.proxies.get(index as usize) {
            Some(p) => Some(*p),
            None => None,
        }
    }

    /// The arenas of `self` and `other` hold the same slots, and the roots agree.
    pub open spec fn same_as(&self, other: &Octree<T>) -> bool {
        &&& self.spec_proxies() == other.spec_proxies()
        &&& self.spec_branches() == other.spec_branches()
        &&& self.spec_leaves() == other.spec_leaves()
        &&& self.spec_root() == other.spec_root()
    }

    /// Add eight void nodes whose parent is `target`, one level below it, and return their
    /// indices in order.
    #[verifier::spinoff_prover]
    fn push_void_children(&mut self, target: u32) -> (children: [u32; 8])
        requires
            old(self).arenas_wf(),
            old(self).spec_proxies().len() + 8 <= u32::MAX,
            old(self).is_proxy(target as int),
        ensures
            final(self).arenas_wf(),
            final(self).spec_branches() == old(self).spec_branches(),
            final(self).spec_leaves() == old(self).spec_leaves(),
            final(self).root == old(self).root,
            final(self).spec_proxies().len() <= old(self).spec_proxies().len() + 8,
            fresh_children(*old(self), *final(self), target, children),
    {
        let ghost t0 = *self;
        let ghost d = self.depths@[target as int] + 1;
        let mut children: [u32; 8] = [0; 8];
        let mut o: usize = 0;
        while o < 8
            invariant
                0 <= o <= 8,
                self.arenas_wf(),
                self.spec_branches() == t0.spec_branches(),
                self.spec_leaves() == t0.spec_leaves(),
                self.root == t0.root,
                self.spec_proxies().len() <= t0.spec_proxies().len() + o,
                t0.spec_proxies().len() + 8 <= u32::MAX,
                d == t0.depth(target as int) + 1,
                forall|i: int|
                    #![trigger self.is_proxy(i)]
                    t0.is_proxy(i) ==> self.is_proxy(i) && self.proxy(i) == t0.proxy(i)
                        && self.depth(i) == t0.depth(i) && self.slot(i) == t0.slot(i),
                forall|k: int|
                    #![trigger children@[k]]
                    0 <= k < o ==> {
                        let c = children@[k] as int;
                        &&& !t0.is_proxy(c)
                        &&& self.is_proxy(c)
                        &&& self.proxy(c) == Proxy { parent: target, data: ProxyData::Void }
                        &&& self.depth(c) == d
                        &&& self.slot(c) == k
                    },
                forall|k1: int, k2: int| 0 <= k1 < k2 < o ==> children@[k1] != children@[k2],
                forall|i: int|
                    #![trigger self.is_proxy(i)]
                    self.is_proxy(i) ==> t0.is_proxy(i) || exists|k: int|
                        0 <= k < o && children@[k] == i,
                forall|k: int|
                    #![trigger children@[k]]
                    0 <= k < o ==> forall|j: int| 0 <= j < children@[k] ==> t0.is_proxy(j) || exists|k2: int| 0 <= k2 < k && children@[k2] == j,
            decreases 8 - o,
        {
            let ghost before = *self;
            let ghost ch0 = children@;
            let i = self.proxies.push(Proxy { parent: target, data: ProxyData::Void });
            proof {
                if (i as int) < self.depths@.len() {
                    self.depths@ = self.depths@.update(i as int, d);
                    self.slots@ = self.slots@.update(i as int, o as nat);
                } else {
                    self.depths@ = self.depths@.push(d);
                    self.slots@ = self.slots@.push(o as nat);
                }
            }
            children[o] = i as u32;
            proof {
                assert(!before.is_proxy(i as int));
                assert forall|i2: int| #[trigger] t0.is_proxy(i2) implies self.is_proxy(i2)
                    && self.proxy(i2) == t0.proxy(i2) && self.depth(i2) == t0.depth(i2)
                    && self.slot(i2) == t0.slot(i2) by {
                    assert(before.is_proxy(i2));
                }
                assert forall|k: int| 0 <= k < o implies children@[k] != i by {
                    assert(before.is_proxy(ch0[k] as int));
                }
                assert forall|k: int|
                    #![trigger children@[k]]
                    0 <= k < o + 1 implies forall|j: int| 0 <= j < children@[k] ==> t0.is_proxy(j) || exists|k2: int| 0 <= k2 < k && children@[k2] == j by {
                    if k < o {
                        assert(children@[k] == ch0[k]);
                        assert forall|j: int| 0 <= j < children@[k] implies t0.is_proxy(j) || exists|k2: int| 0 <= k2 < k && children@[k2] == j by {
                            if !t0.is_proxy(j) {
                                let k2 = choose|k2: int| 0 <= k2 < k && ch0[k2] == j;
                                assert(children@[k2] == ch0[k2]);
                            }
                        }
                    } else {
                        assert forall|j: int| 0 <= j < children@[k] implies t0.is_proxy(j) || exists|k2: int| 0 <= k2 < k && children@[k2] == j by {
                            assert(before.is_proxy(j));
                            if !t0.is_proxy(j) {
                                let k2 = choose|k2: int| 0 <= k2 < o && ch0[k2] == j;
                                assert(children@[k2] == ch0[k2]);
                            }
                        }
                    }
                }
                assert forall|i2: int| #[trigger] self.is_proxy(i2) implies t0.is_proxy(i2) || exists|k: int|
                        0 <= k < o + 1 && children@[k] == i2 by {
                    if i2 != i as int {
                        assert(before.is_proxy(i2));
                        if !t0.is_proxy(i2) {
                            let k = choose|k: int| 0 <= k < o && ch0[k] == i2;
                            assert(children@[k] == ch0[k]);
                        }
                    } else {
                        assert(children@[o as int] == i2);
                    }
                }
            }
            o = o + 1;
        }
        children
    }

    /// The number of slots in the node, branch-record and payload arenas.
    pub fn arena_lens(&self) -> (r: (usize, usize, usize))
        ensures
            r == (self.spec_proxies().len() as usize, self.spec_branches().len() as usize, self.spec_leaves().len() as usize),
    {
        (self.proxies.capacity(), self.branch_data.capacity(), self.leaf_data.capacity())
    }

    /// The number of nodes.
    pub fn node_count(&self) -> (r: usize)
        requires
            self.wf(),
        ensures
            r == count_init(self.spec_proxies()),
    {
        self.proxies.len_init()
    }

    /// The branch record in slot `b`, if there is one.
    pub fn branch_record(&self, b: u32) -> (r: Option<[u32; 8]>)
        ensures
            r == (if self.is_record(b as int) { Some(self.spec_branches()[b as int].unwrap()) } else { None }),
    {
        match self.branch_data.get(b as usize) {
            Some(rec) => Some(*rec),
            None => None,
        }
    }

    /// The payload in leaf slot `l`, if there is one.
    pub fn leaf_data(&self, l: u32) -> (r: Option<&T>)
        ensures
            match r {
                Some(v) => self.is_leaf_slot(l as int) && *v == self.leaf_value(l as int),
                None => !self.is_leaf_slot(l as int),
            },
    {
        self.leaf_data.get(l as usize)
    }

    /// Every payload, in the order of their slots.
    pub fn leaf_unordered(&self) -> (r: Vec<&T>)
        requires
            self.wf(),
        ensures
            r@.map_values(|x: &T| *x) == present_values(self.spec_leaves()),
            r@.len() == count_init(self.spec_leaves()),
    {
        let n = self.leaf_data.capacity();
        let mut r: Vec<&T> = Vec::new();
        let mut i: usize = 0;
        proof {
            assert(self.spec_leaves().subrange(0, 0) =~= Seq::<Option<T>>::empty());
            assert(r@.map_values(|x: &T| *x) =~= Seq::<T>::empty());
        }
        while i < n
            invariant
                i <= n,
                n == self.spec_leaves().len(),
                self.leaf_data.wf(),
                r@.len() == count_init(self.spec_leaves().subrange(0, i as int)),
                r@.map_values(|x: &T| *x) == present_values(self.spec_leaves().subrange(0, i as int)),
            decreases n - i,
        {
            let ghost s = self.spec_leaves();
            let ghost r0 = r@;
            proof {
                assert(s.subrange(0, i + 1).drop_last() =~= s.subrange(0, i as int));
            }
            match self.leaf_data.get(i) {
                Some(v) => {
                    r.push(v);
                    proof {
                        assert(r@.map_values(|x: &T| *x) =~= r0.map_values(|x: &T| *x).push(*v));
                    }
                },
                None => {},
            }
            i = i + 1;
        }
        proof {
            assert(self.spec_leaves().subrange(0, n as int) =~= self.spec_leaves());
        }
        r
    }

    /// The depth of the deepest node: the height of the tree.
    #[verifier::rlimit(100)]
    pub fn height(&self) -> (r: u32)
        requires
            self.wf(),
        ensures
            self.is_height(r as int),
    {
        let n = self.proxies.capacity();
        let mut best: u32 = 0;
        let mut i: usize = 0;
        proof {
            assert(self.is_proxy(self.spec_root()) && self.depth(self.spec_root()) == 0);
        }
        while i < n
            invariant
                i <= n,
                n == self.spec_proxies().len(),
                self.wf(),
                forall|j: int| 0 <= j < i && #[trigger] self.is_proxy(j) ==> self.depth(j) <= best,
                exists|j: int| self.is_proxy(j) && self.depth(j) == best,
            decreases n - i,
        {
            if self.proxies.is_init(i) {
                let d = self.depth_of_unchecked(i as u32);
                if d > best {
                    best = d;
                }
            }
            i = i + 1;
        }
        best
    }

    /// The side of the finest grid, `2^height`, for a tree less than 32 levels high.
    pub fn grid_size(&self) -> (r: Option<u32>)
        requires
            self.wf(),
        ensures
            match r {
                Some(g) => exists|h: int| #[trigger] self.is_height(h) && 0 <= h < 32 && g == pow2(h as nat),
                None => exists|h: int| #[trigger] self.is_height(h) && h >= 32,
            },
    {
        let h = self.height();
        if h >= 32 {
            proof {
                assert(self.is_height(h as int));
            }
            return None;
        }
        let g = 1u32 << h;
        proof {
            crate::octant::lemma_pow2_bound(h as nat);
            vstd::bits::lemma_u32_shl_is_mul(1u32, h);
            vstd::arithmetic::power2::lemma_pow2_pos(h as nat);
            assert(self.is_height(h as int));
        }
        Some(g)
    }

    /// The deepest node that holds point `p`: the descent from the root along the bits of
    /// `p`, which stops at a node that is not a branch or at the depth of `p`.
    pub fn node_at(&self, p: &NodePoint) -> (r: u32)
        requires
            self.wf(),
            in_grid(*p),
        ensures
            r == self.descend(self.spec_root(), *p, 0),
            self.is_proxy(r as int),
            self.depth(r as int) <= p.d,
            self.point_of(r as int) == truncate(*p, self.depth(r as int) as int),
    {
        let mut cur = self.root;
        let mut k: u32 = 0;
        proof {
            lemma_truncate_zero(*p);
        }
        loop
            invariant
                self.wf(),
                in_grid(*p),
                self.is_proxy(cur as int),
                k <= p.d,
                self.depth(cur as int) == k,
                self.point_of(cur as int) == truncate(*p, k as int),
                self.descend(self.spec_root(), *p, 0) == self.descend(cur as int, *p, k as int),
            ensures
                self.is_proxy(cur as int),
                k <= p.d,
                self.depth(cur as int) == k,
                self.point_of(cur as int) == truncate(*p, k as int),
                self.descend(self.spec_root(), *p, 0) == cur,
            decreases p.d - k,
        {
            if k >= p.d {
                proof {
                    assert(self.descend(cur as int, *p, k as int) == cur);
                }
                break;
            }
            let prox = *self.proxies.get_unchecked(cur as usize);
            match prox.data {
                ProxyData::Branch(b) => {
                    let s = p.d - 1 - k;
                    let bx = (p.x >> s) & 1;
                    let by = (p.y >> s) & 1;
                    let bz = (p.z >> s) & 1;
                    proof {
                        lemma_bit_at(p.x, s);
                        lemma_bit_at(p.y, s);
                        lemma_bit_at(p.z, s);
                    }
                    let o = 4 * bx + 2 * by + bz;
                    proof {
                        assert(o == octant_toward(*p, k as int));
                        assert(self.linked_down(cur as int));
                    }
                    let rec = *self.branch_data.get_unchecked(b as usize);
                    let c = rec[o as usize];
                    proof {
                        lemma_descend_step(*self, cur as int, *p, k as int);
                    }
                    cur = c;
                    k = k + 1;
                },
                _ => {
                    proof {
                        assert(self.descend(cur as int, *p, k as int) == cur);
                    }
                    break;
                },
            }
        }
        cur
    }

    /// The deepest node holding voxel `p` of the finest grid, whose side is `2^height`;
    /// `VoxelOutOfGrid` when `p` lies outside that grid or the grid is too large for 32-bit
    /// coordinates.
    pub fn voxel_at(&self, p: &VoxelPoint) -> (r: Result<u32, Error>)
        requires
            self.wf(),
        ensures
            match r {
                Ok(i) => exists|h: int|
                    #[trigger] self.is_height(h) && 0 <= h < 32 && p.x < pow2(h as nat) && p.y < pow2(h as nat) && p.z
                        < pow2(h as nat) && i == self.descend(self.spec_root(), NodePoint { x: p.x, y: p.y, z: p.z, d: h as u32 }, 0),
                Err(e) => exists|h: int|
                    #[trigger] self.is_height(h) && ((h >= 32 && e == Error::VoxelOutOfGrid(u32::MAX, *p)) || (h < 32
                        && e == Error::VoxelOutOfGrid(pow2(h as nat) as u32, *p) && (p.x >= pow2(h as nat) || p.y
                        >= pow2(h as nat) || p.z >= pow2(h as nat)))),
            },
    {
        let h = self.height();
        proof {
            assert forall|h2: int| #[trigger] self.is_height(h2) implies h2 == h by {
                let i = choose|i: int| self.is_proxy(i) && self.depth(i) == h2;
                let j = choose|j: int| self.is_proxy(j) && self.depth(j) == h;
            }
        }
        if h >= 32 {
            proof {
                assert(self.is_height(h as int));
            }
            return Err(Error::VoxelOutOfGrid(u32::MAX, *p));
        }
        let g = 1u32 << h;
        proof {
            crate::octant::lemma_pow2_bound(h as nat);
            vstd::bits::lemma_u32_shl_is_mul(1u32, h);
        }
        if p.x >= g || p.y >= g || p.z >= g {
            proof {
                assert(self.is_height(h as int));
            }
            return Err(Error::VoxelOutOfGrid(g, *p));
        }
        let np = NodePoint { x: p.x, y: p.y, z: p.z, d: h };
        Ok(self.node_at(&np))
    }

    /// Append the payloads under node `i`, whose point is `np`, depth first in octant order,
    /// each with the point of its node.
    #[verifier::rlimit(100)]
    fn collect_leaves<'a>(&'a self, i: u32, np: NodePoint, h: Ghost<int>, out: &mut Vec<(&'a T, NodePoint)>)
        requires
            self.wf(),
            self.is_proxy(i as int),
            np == self.point_of(i as int),
            self.is_height(h@),
            h@ < 32,
        ensures
            deref_items(final(out)@) == deref_items(old(out)@) + self.dfs_leaves(i as int),
        decreases self.spec_proxies().len() - self.depth(i as int),
    {
        proof {
            lemma_depth_bound(*self, i as int);
            crate::laws::lemma_depth_agreement(*self, i as int);
        }
        let p = *self.proxies.get_unchecked(i as usize);
        match p.data {
            ProxyData::Void => {
                proof {
                    assert(deref_items(out@) + self.dfs_leaves(i as int) =~= deref_items(out@));
                }
            },
            ProxyData::Leaf(l) => {
                proof {
                    assert(self.linked_down(i as int));
                }
                let v = self.leaf_data.get_unchecked(l as usize);
                let ghost o0 = out@;
                out.push((v, np));
                proof {
                    assert(deref_items(out@) =~= deref_items(o0) + self.dfs_leaves(i as int));
                }
            },
            ProxyData::Branch(b) => {
                proof {
                    assert(self.linked_down(i as int));
                }
                let rec = *self.branch_data.get_unchecked(b as usize);
                let mut o: u8 = 0;
                let ghost o0 = out@;
                proof {
                    assert(deref_items(out@) + self.dfs_children(i as int, 0) =~= deref_items(o0) + self.dfs_leaves(i as int));
                }
                while o < 8
                    invariant
                        self.wf(),
                        self.is_proxy(i as int),
                        self.proxy(i as int).data == ProxyData::Branch(b),
                        rec@ == self.record(b as int),
                        np == self.point_of(i as int),
                        self.is_height(h@),
                        h@ < 32,
                        self.depth(i as int) < self.spec_proxies().len(),
                        self.point_of(i as int).d == self.depth(i as int),
                        in_grid(np),
                        o <= 8,
                        deref_items(out@) + self.dfs_children(i as int, o as int) == deref_items(o0) + self.dfs_leaves(i as int),
                    decreases 8 - o,
                {
                    let c = rec[o as usize];
                    proof {
                        assert(self.linked_down(i as int));
                        assert(self.is_proxy(c as int));
                        assert(self.depth(c as int) == self.depth(i as int) + 1);
                        assert(self.depth(c as int) <= h@);
                        lemma_depth_bound(*self, c as int);
                        assert(c as int != self.spec_root());
                        assert(self.parent(c as int) == i);
                        assert(self.slot(c as int) == o);
                        assert(self.child(i as int, o as int) == c);
                    }
                    let cp = np.add(Octant(o));
                    let ghost before = out@;
                    self.collect_leaves(c, cp, h, out);
                    proof {
                        assert(self.dfs_children(i as int, o as int) == self.dfs_leaves(c as int) + self.dfs_children(i as int, o + 1));
                        assert(deref_items(out@) + self.dfs_children(i as int, o + 1) =~= deref_items(before) + self.dfs_children(i as int, o as int));
                    }
                    o = o + 1;
                }
                proof {
                    assert(deref_items(out@) + self.dfs_children(i as int, 8) =~= deref_items(out@));
                }
            },
        }
    }

    /// Every payload with the point of its node, depth first in octant order; `None` for a
    /// tree 32 or more levels high, whose points do not fit 32-bit coordinates.
    pub fn leaf_dfi(&self) -> (r: Option<Vec<(&T, NodePoint)>>)
        requires
            self.wf(),
        ensures
            match r {
                Some(v) => deref_items(v@) == self.dfs_leaves(self.spec_root()),
                None => exists|h: int| #[trigger] self.is_height(h) && h >= 32,
            },
    {
        let h = self.height();
        if h >= 32 {
            return None;
        }
        let mut out: Vec<(&T, NodePoint)> = Vec::new();
        proof {
            vstd::arithmetic::power2::lemma2_to64();
            assert(deref_items(out@) =~= Seq::<(T, NodePoint)>::empty());
        }
        self.collect_leaves(self.root, NodePoint::new(0, 0, 0, 0), Ghost(h as int), &mut out);
        proof {
            assert(deref_items(out@) =~= self.dfs_leaves(self.spec_root()));
        }
        Some(out)
    }

    /// The sample of every payload below branch `branch_idx`, taken depth first in octant order.
    /// The tree must be less than 32 levels high, so that every node has a point.
    pub fn sample_branch(&self, branch_idx: u32) -> (r: Result<T, Error>)
        where
            T: LeafSample + Copy,
        requires
            self.wf(),
            exists|h: int| #[trigger] self.is_height(h) && h < 32,
        ensures
            !self.is_proxy(branch_idx as int) ==> r == Err::<T, Error>(Error::InvalidIndex(branch_idx)),
            self.is_proxy(branch_idx as int) && !(self.proxy(branch_idx as int).data is Branch) ==> r == Err::<T, Error>(
                Error::NotABranch(branch_idx),
            ),
            self.is_proxy(branch_idx as int) && self.proxy(branch_idx as int).data is Branch ==> (if self.dfs_leaves(
                branch_idx as int,
            ).len() == 0 {
                r == Err::<T, Error>(Error::NoLeafs(branch_idx))
            } else {
                r == Ok::<T, Error>(sample_from_front(self.dfs_leaves(branch_idx as int)))
            }),
    {
        let p = match self.get(branch_idx) {
            Some(p) => p,
            None => {
                return Err(Error::InvalidIndex(branch_idx));
            },
        };
        if !p.is_branch() {
            return Err(Error::NotABranch(branch_idx));
        }
        let h = self.height();
        proof {
            assert(self.is_height(h as int));
            let h2 = choose|h2: int| #[trigger] self.is_height(h2) && h2 < 32;
            let i = choose|i: int| self.is_proxy(i) && self.depth(i) == h2;
            let j = choose|j: int| self.is_proxy(j) && self.depth(j) == h;
            lemma_depth_bound(*self, branch_idx as int);
            crate::laws::lemma_depth_agreement(*self, branch_idx as int);
        }
        let np = self.node_point_of_unchecked(branch_idx);
        let mut items: Vec<(&T, NodePoint)> = Vec::new();
        proof {
            assert(deref_items(items@) =~= Seq::<(T, NodePoint)>::empty());
        }
        self.collect_leaves(branch_idx, np, Ghost(h as int), &mut items);
        proof {
            assert(deref_items(items@) =~= self.dfs_leaves(branch_idx as int));
        }
        let n = items.len();
        if n == 0 {
            return Err(Error::NoLeafs(branch_idx));
        }
        let ghost d = deref_items(items@);
        let mut acc: T = *items[0].0;
        let mut k: usize = 1;
        proof {
            assert(d.subrange(0, 1).len() == 1);
        }
        while k < n
            invariant
                1 <= k <= n,
                n == items@.len(),
                d == deref_items(items@),
                acc == sample_from_front(d.subrange(0, k as int)),
            decreases n - k,
        {
            let v = items[k].0;
            acc = T::leaf_sample(&acc, v);
            proof {
                assert(d.subrange(0, k + 1).drop_last() =~= d.subrange(0, k as int));
                assert(d[k as int].0 == *v);
            }
            k = k + 1;
        }
        proof {
            assert(d.subrange(0, n as int) =~= d);
        }
        Ok(acc)
    }

    /// The position of node `i` within the branch record of its parent `p`.
    fn octant_in_parent(&self, i: u32, p: u32) -> (r: u8)
        requires
            self.wf(),
            self.is_proxy(i as int),
            i != self.spec_root(),
            p == self.parent(i as int),
        ensures
            r == self.slot(i as int),
    {
        proof {
            assert(self.linked_up(i as int));
        }
        let b = self.proxies.get_unchecked(p as usize).branch().unwrap();
        let rec = self.branch_data.get_unchecked(b as usize);
        let mut o: usize = 0;
        while o < 8
            invariant
                0 <= o <= 8,
                self.wf(),
                self.is_proxy(p as int),
                self.proxy(p as int).data == ProxyData::Branch(b),
                rec@ == self.record(b as int),
                self.record(b as int)[self.slot(i as int) as int] == i,
                self.slot(i as int) < 8,
                forall|k: int| 0 <= k < o ==> self.record(b as int)[k] != i,
            decreases 8 - o,
        {
            if rec[o] == i {
                proof {
                    assert(self.linked_down(p as int));
                    assert(self.slot(self.record(b as int)[o as int] as int) == o);
                }
                return o as u8;
            }
            o = o + 1;
        }
        proof {
            assert(self.record(b as int)[self.slot(i as int) as int] == i);
        }
        0
    }

    /// The depth of node `node` below the root; `node` must name a node.
    pub fn depth_of_unchecked(&self, node: u32) -> (r: u32)
        requires
            self.wf(),
            self.is_proxy(node as int),
        ensures
            r == self.depth(node as int),
    {
        proof {
            lemma_depth_bound(*self, node as int);
        }
        let mut depth: u32 = 0;
        let mut cur = node;
        let mut p = *self.proxies.get_unchecked(cur as usize);
        while p.parent != cur
            invariant
                self.wf(),
                self.is_proxy(cur as int),
                p == self.proxy(cur as int),
                depth + self.depth(cur as int) == self.depth(node as int),
                self.depth(node as int) < u32::MAX,
            decreases self.depth(cur as int),
        {
            proof {
                assert(self.linked_up(cur as int));
                assert(self.linked_down(p.parent as int));
                assert(self.depth(cur as int) == self.depth(p.parent as int) + 1);
            }
            depth = depth + 1;
            cur = p.parent;
            p = *self.proxies.get_unchecked(cur as usize);
        }
        proof {
            if cur as int != self.spec_root() {
                assert(self.linked_up(cur as int));
                assert(self.linked_down(cur as int));
                assert(self.record(self.proxy(cur as int).data->Branch_0 as int)[self.slot(cur as int) as int] == cur);
            }
        }
        depth
    }

    /// The depth of node `node` below the root.
    pub fn depth_of(&self, node: u32) -> (r: Result<u32, Error>)
        requires
            self.wf(),
        ensures
            self.is_proxy(node as int) ==> r == Ok::<u32, Error>(self.depth(node as int) as u32),
            !self.is_proxy(node as int) ==> r == Err::<u32, Error>(Error::InvalidIndex(node)),
    {
        if !self.proxies.is_init(node as usize) {
            return Err(Error::InvalidIndex(node));
        }
        Ok(self.depth_of_unchecked(node))
    }

    /// The coordinates of node `index` within the grid of its depth; `index` must name a node
    /// less than 32 levels deep.
    pub fn node_point_of_unchecked(&self, index: u32) -> (r: NodePoint)
        requires
            self.wf(),
            self.is_proxy(index as int),
            self.depth(index as int) < 32,
        ensures
            r == self.point_of(index as int),
            r.d == self.depth(index as int),
            in_grid(r),
        decreases self.depth(index as int),
    {
        let p = *self.proxies.get_unchecked(index as usize);
        if p.parent == index {
            proof {
                if index as int != self.spec_root() {
                    assert(self.linked_up(index as int));
                    assert(self.linked_down(index as int));
                    assert(self.record(self.proxy(index as int).data->Branch_0 as int)[self.slot(index as int) as int] == index);
                }
                vstd::arithmetic::power2::lemma2_to64();
            }
            NodePoint::new(0, 0, 0, 0)
        } else {
            proof {
                assert(self.linked_up(index as int));
                assert(self.linked_down(p.parent as int));
                assert(self.depth(index as int) == self.depth(p.parent as int) + 1);
            }
            let up = self.node_point_of_unchecked(p.parent);
            let o = self.octant_in_parent(index, p.parent);
            up.add(Octant(o))
        }
    }

    /// The coordinates of node `index` within the grid of its depth, for a node less than 32
    /// levels deep.
    pub fn node_point_of(&self, index: u32) -> (r: Result<NodePoint, Error>)
        requires
            self.wf(),
        ensures
            match r {
                Ok(np) => self.is_proxy(index as int) && self.depth(index as int) < 32 && np == self.point_of(index as int)
                    && np.d == self.depth(index as int),
                Err(e) => e == Error::InvalidIndex(index) && (!self.is_proxy(index as int) || self.depth(index as int) >= 32),
            },
    {
        if !self.proxies.is_init(index as usize) {
            return Err(Error::InvalidIndex(index));
        }
        let d = self.depth_of_unchecked(index);
        if d >= 32 {
            return Err(Error::InvalidIndex(index));
        }
        Ok(self.node_point_of_unchecked(index))
    }

    /// Give void node `target` the payload `data`.
    fn attach_leaf(&mut self, target: u32, data: T)
        requires
            old(self).wf(),
            old(self).is_proxy(target as int),
            old(self).proxy(target as int).data is Void,
            old(self).spec_leaves().len() < u32::MAX,
        ensures
            final(self).wf(),
            leaf_attached(*old(self), *final(self), target as int, data),
    {
        let ghost t0 = *self;
        let p = *self.proxies.get_unchecked(target as usize);
        let l = self.leaf_data.push(data);
        self.proxies.set(target as usize, Proxy { parent: p.parent, data: ProxyData::Leaf(l as u32) });
        proof {
            lemma_attach_wf(t0, *self, target as int, l as int, data);
        }
    }

    /// Set the payload of node `target` to `data` and return what it displaced: the previous
    /// payload of a leaf, or every payload below a branch, which is voided first.
    pub fn set_leaf(&mut self, target: u32, data: T) -> (r: Vec<T>)
        requires
            old(self).wf(),
            old(self).is_proxy(target as int),
            old(self).spec_leaves().len() < u32::MAX,
        ensures
            final(self).wf(),
            final(self).spec_root() == old(self).spec_root(),
            final(self).is_proxy(target as int),
            final(self).proxy(target as int).parent == old(self).proxy(target as int).parent,
            final(self).proxy(target as int).data is Leaf,
            final(self).leaf_value(final(self).proxy(target as int).data->Leaf_0 as int) == data,
            match old(self).proxy(target as int).data {
                ProxyData::Leaf(l) => r@ == seq![old(self).leaf_value(l as int)]
                    && final(self).spec_proxies() == old(self).spec_proxies()
                    && final(self).spec_branches() == old(self).spec_branches()
                    && final(self).spec_leaves() == old(self).spec_leaves().update(l as int, Some(data)),
                ProxyData::Void => r@.len() == 0 && leaf_attached(*old(self), *final(self), target as int, data),
                ProxyData::Branch(_) => exists|mid: Octree<T>|
                    voided(*old(self), mid, target as int, r@) && leaf_attached(mid, *final(self), target as int, data),
            },
    {
        let p = *self.proxies.get_unchecked(target as usize);
        match p.data {
            ProxyData::Leaf(l) => {
                let ghost t0 = *self;
                proof {
                    assert(t0.linked_down(target as int));
                }
                let old_value = self.leaf_data.set(l as usize, data);
                proof {
                    lemma_replace_leaf_wf(t0, *self, l as int, data);
                }
                vec![old_value.unwrap()]
            },
            ProxyData::Void => {
                self.attach_leaf(target, data);
                Vec::new()
            },
            ProxyData::Branch(b) => {
                let r = self.flatten_branch(target, b);
                let ghost mid = *self;
                self.attach_leaf(target, data);
                r
            },
        }
    }

    /// Grow the tree upward: a new root branch takes the old root as its child `oct`, beside
    /// seven new void children. Returns the index of the new root.
    pub fn grow(&mut self, oct: Octant) -> (r: u32)
        requires
            old(self).wf(),
            oct.valid(),
            old(self).spec_proxies().len() + 9 <= u32::MAX,
            old(self).spec_branches().len() < u32::MAX,
        ensures
            final(self).wf(),
            grown(*old(self), *final(self), oct.0 as int),
            r == final(self).spec_root(),
    {
        let ghost t0 = *self;
        let old_root = self.root;
        let nr = self.proxies.push(Proxy { parent: 0, data: ProxyData::Void });
        proof {
            if (nr as int) < self.depths@.len() {
                self.depths@ = self.depths@.update(nr as int, 0);
                self.slots@ = self.slots@.update(nr as int, 0);
            } else {
                self.depths@ = self.depths@.push(0);
                self.slots@ = self.slots@.push(0);
            }
        }
        let ghost ta = *self;
        let mut children = self.push_void_children(nr as u32);
        let ghost mid = *self;
        let ghost pushed = children;
        proof {
            assert(t0.is_proxy(t0.spec_root()));
            assert(ta.spec_proxies()[t0.spec_root()] == t0.spec_proxies()[t0.spec_root()]);
            assert(ta.is_proxy(t0.spec_root()));
            assert(mid.is_proxy(t0.spec_root()));
            assert(mid.is_proxy(nr as int));
        }
        let spare = children[oct.index()];
        self.proxies.remove(spare as usize);
        children.set(oct.index(), old_root);
        let b = self.branch_data.push(children);
        self.proxies.set(nr, Proxy { parent: nr as u32, data: ProxyData::Branch(b as u32) });
        let op = *self.proxies.get_unchecked(old_root as usize);
        self.proxies.set(old_root as usize, Proxy { parent: nr as u32, data: op.data });
        self.root = nr as u32;
        proof {
            let tb = *self;
            assert(tb.spec_proxies().len() <= t0.spec_proxies().len() + 9);
            self.depths@ = Seq::new(
                tb.depths@.len(),
                |i: int| if t0.is_proxy(i) { t0.depths@[i] + 1 } else { tb.depths@[i] },
            );
            self.slots@ = tb.slots@.update(old_root as int, oct.0 as nat);
            lemma_grow_wf(t0, ta, mid, *self, nr as int, oct.0 as int, pushed, children, b as int);
        }
        nr as u32
    }

    /// Walk down from the root along `path` while the nodes are branches, and return where the
    /// walk stopped: the node and the number of steps taken.
    fn walk_stop(&self, path: &Vec<Octant>) -> (r: (u32, usize, Ghost<Seq<int>>))
        requires
            self.wf(),
            forall|k: int| 0 <= k < path@.len() ==> (#[trigger] path@[k]).valid(),
        ensures
            (r.0 as int, r.1 as int) == self.walk_end(self.spec_root(), path@, 0),
            r.1 <= path@.len(),
            path_chain(*self, r.2@, path@, r.1 as int),
            r.2@[r.1 as int] == r.0,
            r.1 < path@.len() ==> !(self.proxy(r.0 as int).data is Branch),
    {
        let mut cur = self.root;
        let mut k: usize = 0;
        let ghost mut nodes: Seq<int> = seq![self.root as int];
        loop
            invariant
                self.wf(),
                forall|j: int| 0 <= j < path@.len() ==> (#[trigger] path@[j]).valid(),
                k <= path@.len(),
                self.is_proxy(cur as int),
                path_chain(*self, nodes, path@, k as int),
                nodes[k as int] == cur,
                self.walk_end(self.spec_root(), path@, 0) == self.walk_end(cur as int, path@, k as int),
            ensures
                k <= path@.len(),
                path_chain(*self, nodes, path@, k as int),
                nodes[k as int] == cur,
                self.walk_end(self.spec_root(), path@, 0) == (cur as int, k as int),
                k < path@.len() ==> !(self.proxy(cur as int).data is Branch),
            decreases path@.len() - k,
        {
            if k >= path.len() {
                proof {
                    assert(self.walk_end(cur as int, path@, k as int) == (cur as int, k as int));
                }
                break;
            }
            let p = *self.proxies.get_unchecked(cur as usize);
            match p.data {
                ProxyData::Branch(b) => {
                    proof {
                        assert(self.linked_down(cur as int));
                    }
                    let rec = *self.branch_data.get_unchecked(b as usize);
                    let o = path[k];
                    let c = rec[o.index()];
                    proof {
                        assert(self.child(cur as int, o.0 as int) == c);
                        assert(self.is_proxy(c as int));
                        let n2 = nodes.push(c as int);
                        assert(path_chain(*self, n2, path@, k + 1)) by {
                            assert forall|j: int| 0 <= j < k + 1 implies #[trigger] chain_step(*self, n2, path@, j) by {
                                if j < k {
                                    assert(chain_step(*self, nodes, path@, j));
                                }
                            }
                        }
                        nodes = n2;
                    }
                    cur = c;
                    k = k + 1;
                },
                _ => {
                    proof {
                        assert(self.walk_end(cur as int, path@, k as int) == (cur as int, k as int));
                    }
                    break;
                },
            }
        }
        (cur, k, Ghost(nodes))
    }

    /// Walk down from the root along `path`, dividing void nodes on the way, and set the payload
    /// of the node reached to `data`. Returns what that node held before. When a leaf stands on
    /// the way, returns `BranchCollision` and leaves the tree as it was.
    #[verifier::rlimit(100)]
    pub fn insert_along(&mut self, path: &Vec<Octant>, data: T) -> (r: Result<Vec<T>, Error>)
        requires
            old(self).wf(),
            forall|k: int| 0 <= k < path@.len() ==> (#[trigger] path@[k]).valid(),
            old(self).spec_proxies().len() + 8 * path@.len() + 8 <= u32::MAX,
            old(self).spec_branches().len() + path@.len() < u32::MAX,
            old(self).spec_leaves().len() < u32::MAX,
        ensures
            final(self).wf(),
            ({
                let (n, k) = old(self).walk_end(old(self).spec_root(), path@, 0);
                &&& (k < path@.len() && old(self).proxy(n).data is Leaf) ==> r == Err::<Vec<T>, Error>(
                    Error::BranchCollision,
                ) && final(self).same_as(old(self))
                &&& !(k < path@.len() && old(self).proxy(n).data is Leaf) ==> r is Ok && ({
                    let (n2, k2) = final(self).walk_end(final(self).spec_root(), path@, 0);
                    &&& k2 == path@.len()
                    &&& final(self).is_proxy(n2)
                    &&& final(self).proxy(n2).data is Leaf
                    &&& final(self).leaf_value(final(self).proxy(n2).data->Leaf_0 as int) == data
                    &&& (k < path@.len() || old(self).proxy(n).data is Void) ==> r->Ok_0@.len() == 0
                    &&& (k == path@.len() && old(self).proxy(n).data is Leaf) ==> r->Ok_0@ == seq![
                        old(self).leaf_value(old(self).proxy(n).data->Leaf_0 as int),
                    ]
                })
            }),
            old(self).walk_end(old(self).spec_root(), path@, 0).1 == path@.len() && old(self).proxy(
                old(self).walk_end(old(self).spec_root(), path@, 0).0,
            ).data is Branch ==> r is Ok && subtree_dropped(*old(self), old(self).walk_end(old(self).spec_root(), path@, 0).0, r->Ok_0@),
    {
        let ghost t0 = *self;
        let (n, k0, Ghost(nodes0)) = self.walk_stop(path);
        if k0 < path.len() {
            let p = *self.proxies.get_unchecked(n as usize);
            if p.is_leaf() {
                return Err(Error::BranchCollision);
            }
        }
        let mut cur = n;
        let mut k = k0;
        let ghost mut nodes = nodes0;
        proof {
            lemma_chain_depth(*self, nodes, path@, k as int);
        }
        while k < path.len()
            invariant
                self.wf(),
                forall|j: int| 0 <= j < path@.len() ==> (#[trigger] path@[j]).valid(),
                k0 <= k <= path@.len(),
                self.is_proxy(cur as int),
                (k < path@.len() || k > k0) ==> self.proxy(cur as int).data is Void,
                k == k0 ==> *self == t0 && cur == n,
                path_chain(*self, nodes, path@, k as int),
                nodes[k as int] == cur,
                self.spec_proxies().len() + 8 * (path@.len() - k) + 8 <= u32::MAX,
                self.spec_branches().len() + (path@.len() - k) < u32::MAX,
                self.spec_leaves() == t0.spec_leaves(),
                self.spec_root() == t0.spec_root(),
            decreases path@.len() - k,
        {
            let ghost t = *self;
            proof {
                lemma_chain_depth(t, nodes, path@, k as int);
            }
            let o = path[k];
            match self.branch(cur) {
                Ok((children, _p)) => {
                    proof {
                        lemma_chain_extend(t, *self, nodes, path@, k as int, children);
                        nodes = nodes.push(children@[o.0 as int] as int);
                    }
                    cur = children[o.index()];
                },
                Err(e) => {
                    return Err(e);
                },
            }
            k = k + 1;
        }
        let ghost t1 = *self;
        proof {
            lemma_chain_depth(t1, nodes, path@, k as int);
            lemma_chain_walk(t0, nodes0, path@, k0 as int, 0);
        }
        let r = self.set_leaf(cur, data);
        proof {
            let t2 = *self;
            assert forall|j: int| 0 <= j < k implies #[trigger] chain_step(t2, nodes, path@, j) by {
                assert(chain_step(t1, nodes, path@, j));
                assert(t1.depth(nodes[j]) == j);
                let x = nodes[j];
                assert(x != cur);
                if t1.proxy(cur as int).data is Branch {
                    let mid = choose|mid: Octree<T>| voided(t1, mid, cur as int, r@) && leaf_attached(mid, t2, cur as int, data);
                    if !mid.is_proxy(x) {
                        assert(t1.in_subtree(x, cur as int));
                        lemma_subtree_depth(t1, x, cur as int);
                    }
                    assert(mid.proxy(x) == t1.proxy(x));
                    assert(mid.linked_down(x));
                    let bj = t1.proxy(x).data->Branch_0 as int;
                    assert(mid.is_record(bj));
                    assert(mid.record(bj) == t1.record(bj));
                    assert(t2.spec_proxies()[x] == mid.spec_proxies()[x]);
                } else if t1.proxy(cur as int).data is Void {
                    assert(t2.spec_proxies()[x] == t1.spec_proxies()[x]);
                }
            }
            assert(path_chain(t2, nodes, path@, k as int));
            lemma_chain_walk(t2, nodes, path@, k as int, 0);
            assert(t2.walk_end(cur as int, path@, k as int) == (cur as int, k as int));
            assert(t2.walk_end(t2.spec_root(), path@, 0) == (cur as int, path@.len() as int));
            if k0 == path@.len() && t0.proxy(n as int).data is Branch {
                assert(t1 == t0 && cur == n);
                let mid = choose|mid: Octree<T>| voided(t1, mid, cur as int, r@) && leaf_attached(mid, t2, cur as int, data);
                assert(voided(t0, mid, n as int, r@));
                assert(t0.walk_end(t0.spec_root(), path@, 0) == (n as int, k0 as int));
                assert(subtree_dropped(t0, n as int, r@));
            }
            if k0 < path@.len() {
                assert(!(t0.proxy(n as int).data is Branch));
                assert(!(t0.proxy(n as int).data is Leaf));
                assert(k > k0);
                assert(r@.len() == 0);
            }
        }
        Ok(r)
    }

    /// Whether some node in the subtree of `i` is a leaf.
    fn subtree_has_leaf(&self, i: u32) -> (r: bool)
        requires
            self.wf(),
            self.is_proxy(i as int),
        ensures
            r == self.has_leaf_below(i as int),
        decreases self.spec_proxies().len() - self.depth(i as int),
    {
        proof {
            lemma_depth_bound(*self, i as int);
        }
        let p = *self.proxies.get_unchecked(i as usize);
        match p.data {
            ProxyData::Leaf(_) => {
                proof {
                    assert(self.in_subtree(i as int, i as int));
                }
                true
            },
            ProxyData::Void => {
                proof {
                    assert forall|n: int| self.is_proxy(n) && #[trigger] self.in_subtree(n, i as int) implies !(self.proxy(n).data is Leaf) by {
                        if n != i {
                            lemma_subtree_split(*self, n, i as int);
                        }
                    }
                }
                false
            },
            ProxyData::Branch(b) => {
                proof {
                    assert(self.linked_down(i as int));
                }
                let rec = *self.branch_data.get_unchecked(b as usize);
                let mut o: usize = 0;
                while o < 8
                    invariant
                        self.wf(),
                        self.is_proxy(i as int),
                        self.proxy(i as int).data == ProxyData::Branch(b),
                        rec@ == self.record(b as int),
                        self.depth(i as int) < self.spec_proxies().len(),
                        o <= 8,
                        forall|k: int| 0 <= k < o ==> !self.has_leaf_below(#[trigger] self.child(i as int, k)),
                    decreases 8 - o,
                {
                    let c = rec[o];
                    proof {
                        assert(self.linked_down(i as int));
                        assert(self.child(i as int, o as int) == c);
                        assert(self.is_proxy(c as int));
                        assert(self.depth(c as int) == self.depth(i as int) + 1);
                    }
                    if self.subtree_has_leaf(c) {
                        proof {
                            let n = choose|n: int| self.is_proxy(n) && #[trigger] self.in_subtree(n, c as int) && self.proxy(n).data is Leaf;
                            lemma_subtree_up(*self, n, c as int);
                        }
                        return true;
                    }
                    o = o + 1;
                }
                proof {
                    assert forall|n: int| self.is_proxy(n) && #[trigger] self.in_subtree(n, i as int) implies !(self.proxy(n).data is Leaf) by {
                        if n != i {
                            lemma_subtree_split(*self, n, i as int);
                            let o2 = choose|o2: int| 0 <= o2 < 8 && self.in_subtree(n, #[trigger] self.child(i as int, o2));
                            assert(!self.has_leaf_below(self.child(i as int, o2)));
                        }
                    }
                }
                false
            },
        }
    }

    /// Replace branch `branch_idx` by one leaf whose payload merges every payload below it,
    /// from the last dropped to the first. A subtree without payloads is left as it is and
    /// `NoLeafs` returned.
    #[verifier::rlimit(100)]
    pub fn merge_branch(&mut self, branch_idx: u32) -> (r: Result<&T, Error>)
        where
            T: LeafMerge,
        requires
            old(self).wf(),
            old(self).spec_leaves().len() < u32::MAX,
        ensures
            final(self).wf(),
            !old(self).is_proxy(branch_idx as int) ==> r is Err && r->Err_0 == Error::InvalidIndex(branch_idx)
                && final(self).same_as(old(self)),
            old(self).is_proxy(branch_idx as int) && !(old(self).proxy(branch_idx as int).data is Branch) ==> r is Err
                && r->Err_0 == Error::NotABranch(branch_idx) && final(self).same_as(old(self)),
            old(self).is_proxy(branch_idx as int) && old(self).proxy(branch_idx as int).data is Branch
                && !old(self).has_leaf_below(branch_idx as int) ==> r is Err && r->Err_0 == Error::NoLeafs(branch_idx)
                && final(self).same_as(old(self)),
            old(self).is_proxy(branch_idx as int) && old(self).proxy(branch_idx as int).data is Branch
                && old(self).has_leaf_below(branch_idx as int) ==> r is Ok && exists|mid: Octree<T>, dropped: Seq<T>|
                #[trigger] voided(*old(self), mid, branch_idx as int, dropped) && dropped.len() > 0
                    && leaf_attached(mid, *final(self), branch_idx as int, merge_from_back(dropped))
                    && *r->Ok_0 == merge_from_back(dropped),
    {
        let p = match self.get(branch_idx) {
            Some(p) => p,
            None => {
                return Err(Error::InvalidIndex(branch_idx));
            },
        };
        let b = match p.data {
            ProxyData::Branch(b) => b,
            _ => {
                return Err(Error::NotABranch(branch_idx));
            },
        };
        if !self.subtree_has_leaf(branch_idx) {
            return Err(Error::NoLeafs(branch_idx));
        }
        let ghost t0 = *self;
        let mut vals = self.flatten_branch(branch_idx, b);
        let ghost mid = *self;
        let ghost dropped = vals@;
        proof {
            lemma_dropped_some(t0, mid, branch_idx as int, dropped);
        }
        let mut acc = vals.pop().unwrap();
        proof {
            assert(dropped.subrange(dropped.len() - 1, dropped.len() as int) =~= seq![acc]);
        }
        while vals.len() > 0
            invariant
                vals@ == dropped.subrange(0, vals@.len() as int),
                vals@.len() < dropped.len(),
                acc == merge_from_back(dropped.subrange(vals@.len() as int, dropped.len() as int)),
            decreases vals@.len(),
        {
            let ghost m = vals@.len();
            let v = vals.pop().unwrap();
            acc = T::leaf_merge(acc, v);
            proof {
                let tail = dropped.subrange(m - 1, dropped.len() as int);
                assert(tail.subrange(1, tail.len() as int) =~= dropped.subrange(m as int, dropped.len() as int));
                assert(tail[0] == v);
                assert(vals@ =~= dropped.subrange(0, vals@.len() as int));
            }
        }
        proof {
            assert(dropped.subrange(0, dropped.len() as int) =~= dropped);
        }
        let ghost merged = acc;
        self.attach_leaf(branch_idx, acc);
        let l = self.proxies.get_unchecked(branch_idx as usize).leaf().unwrap();
        proof {
            let l0 = choose|l0: int|
                is_first_free(mid.spec_leaves(), l0) && self.spec_leaves() == put_at(mid.spec_leaves(), l0, merged)
                    && self.spec_proxies() == mid.spec_proxies().update(
                    branch_idx as int,
                    Some(Proxy { parent: mid.proxy(branch_idx as int).parent, data: ProxyData::Leaf(l0 as u32) }),
                ) && self.spec_branches() == mid.spec_branches() && self.spec_root() == mid.spec_root();
            assert(self.proxy(branch_idx as int).data == ProxyData::Leaf(l0 as u32));
            assert(l0 < u32::MAX);
            assert(l as int == l0);
            assert(self.spec_leaves()[l0] == Some(merged));
        }
        let r = self.leaf_data.get_unchecked(l as usize);
        Ok(r)
    }

    /// Divide void node `target` into eight void children and return them; any other node is
    /// refused and the tree left as it is.
    pub fn split(&mut self, target: u32) -> (r: Result<[u32; 8], Error>)
        requires
            old(self).wf(),
            old(self).spec_proxies().len() + 8 <= u32::MAX,
            old(self).spec_branches().len() < u32::MAX,
        ensures
            final(self).wf(),
            !old(self).is_proxy(target as int) ==> r == Err::<[u32; 8], Error>(Error::InvalidIndex(target))
                && final(self).same_as(old(self)),
            old(self).is_proxy(target as int) && !(old(self).proxy(target as int).data is Void) ==> r == Err::<
                [u32; 8],
                Error,
            >(Error::NotAVoid(target)) && final(self).same_as(old(self)),
            old(self).is_proxy(target as int) && old(self).proxy(target as int).data is Void ==> r is Ok && split_void(
                *old(self),
                *final(self),
                target as int,
                r->Ok_0,
                final(self).proxy(target as int),
            ),
    {
        let p = match self.get(target) {
            Some(p) => p,
            None => {
                return Err(Error::InvalidIndex(target));
            },
        };
        if !p.is_void() {
            return Err(Error::NotAVoid(target));
        }
        match self.branch(target) {
            Ok((children, _)) => Ok(children),
            Err(e) => Err(e),
        }
    }

    /// Make branch `target`, whose record is `b`, void: drop every node, record and payload
    /// below it, and return the dropped payloads.
    #[verifier::rlimit(100)]
    fn flatten_branch(&mut self, target: u32, b: u32) -> (r: Vec<T>)
        requires
            old(self).wf(),
            old(self).is_proxy(target as int),
            old(self).proxy(target as int).data == ProxyData::Branch(b),
        ensures
            voided(*old(self), *final(self), target as int, r@),
    {
        let ghost t0 = *self;
        let p = *self.proxies.get_unchecked(target as usize);
        self.proxies.set(target as usize, Proxy { parent: p.parent, data: ProxyData::Void });
        assert(t0.linked_down(target as int));
        let rec = self.branch_data.remove(b as usize).unwrap();
        let mut pending: Vec<u32> = vec![rec[0], rec[1], rec[2], rec[3], rec[4], rec[5], rec[6], rec[7]];
        assert(pending@ =~= t0.record(b as int));
        let mut res: Vec<T> = Vec::new();
        let ghost mut ls: Seq<int> = Seq::empty();
        proof {
            lemma_flatten_start(t0, *self, target as int, b as int, pending@);
        }
        while pending.len() > 0
            invariant
                flatten_inv(t0, *self, target as int, pending@, res@, ls),
            decreases count_init(self.spec_proxies()),
        {
            let ghost t = *self;
            let ghost w = pending@;
            let ghost rs = res@;
            let ghost ls0 = ls;
            let c = pending.pop().unwrap();
            proof {
                assert(w[w.len() - 1] == c);
                assert(t.is_proxy(c as int));
            }
            let cp = self.proxies.remove(c as usize).unwrap();
            match cp.data {
                ProxyData::Void => {},
                ProxyData::Leaf(l) => {
                    proof {
                        assert(t.linked_down(c as int));
                    }
                    let v = self.leaf_data.remove(l as usize).unwrap();
                    res.push(v);
                    proof {
                        ls = ls.push(l as int);
                    }
                },
                ProxyData::Branch(b2) => {
                    proof {
                        assert(t.linked_down(c as int));
                    }
                    let r2 = self.branch_data.remove(b2 as usize).unwrap();
                    pending.push(r2[0]);
                    pending.push(r2[1]);
                    pending.push(r2[2]);
                    pending.push(r2[3]);
                    pending.push(r2[4]);
                    pending.push(r2[5]);
                    pending.push(r2[6]);
                    pending.push(r2[7]);
                    proof {
                        assert(pending@ =~= w.drop_last() + t.record(b2 as int));
                    }
                },
            }
            proof {
                lemma_flatten_step(t0, t, *self, target as int, w, pending@, rs, res@, ls0, ls);
            }
        }
        proof {
            lemma_flatten_done(t0, *self, target as int, res@, ls);
        }
        res
    }

    /// Make node `target` void and return the payloads of the nodes that were dropped: its own,
    /// or those of every node below it.
    pub fn void(&mut self, target: u32) -> (r: Vec<T>)
        requires
            old(self).wf(),
            old(self).is_proxy(target as int),
        ensures
            voided(*old(self), *final(self), target as int, r@),
            old(self).proxy(target as int).data is Void ==> r@.len() == 0 && final(self).same_as(old(self)),
            old(self).proxy(target as int).data is Leaf ==> r@ == seq![old(self).leaf_value(old(self).proxy(target as int).data->Leaf_0 as int)],
    {
        let p = *self.proxies.get_unchecked(target as usize);
        match p.data {
            ProxyData::Void => {
                proof {
                    assert(self.proxy(target as int) == (Proxy { parent: p.parent, data: ProxyData::Void }));
                    assert(drawn_from(*self, *self, Seq::<T>::empty(), Seq::<int>::empty()));
                    assert forall|n: int|
                        #![trigger self.in_subtree(n, target as int)]
                        self.is_proxy(n) && n != target && self.in_subtree(n, target as int) implies !self.is_proxy(n)
                            && data_freed(*self, *self, n) by {
                        lemma_below_void_gone(*self, *self, target as int, n);
                    }
                }
                Vec::new()
            },
            ProxyData::Leaf(l) => {
                let ghost t0 = *self;
                self.proxies.set(target as usize, Proxy { parent: p.parent, data: ProxyData::Void });
                assert(t0.linked_down(target as int));
                let v = self.leaf_data.remove(l as usize).unwrap();
                proof {
                    lemma_void_leaf(t0, *self, target as int, l as int);
                }
                let r = vec![v];
                proof {
                    assert(drawn_from(t0, *self, r@, seq![l as int]));
                }
                r
            },
            ProxyData::Branch(b) => self.flatten_branch(target, b),
        }
    }

    /// Divide void node `target` into eight void children and return its new branch record and
    /// node record. A branch is left as it is, and its record returned. A leaf cannot be
    /// divided.
    pub fn branch(&mut self, target: u32) -> (r: Result<([u32; 8], Proxy), Error>)
        requires
            old(self).wf(),
            old(self).is_proxy(target as int),
            old(self).spec_proxies().len() + 8 <= u32::MAX,
            old(self).spec_branches().len() < u32::MAX,
        ensures
            final(self).wf(),
            final(self).spec_proxies().len() <= old(self).spec_proxies().len() + 8,
            final(self).spec_branches().len() <= old(self).spec_branches().len() + 1,
            final(self).spec_leaves() == old(self).spec_leaves(),
            match old(self).proxy(target as int).data {
                ProxyData::Leaf(_) => r == Err::<([u32; 8], Proxy), Error>(Error::BranchCollision)
                    && final(self).same_as(old(self)),
                ProxyData::Branch(b) => r == Ok::<([u32; 8], Proxy), Error>(
                    (old(self).spec_branches()[b as int].unwrap(), old(self).proxy(target as int)),
                ) && final(self).same_as(old(self)),
                ProxyData::Void => r is Ok && split_void(*old(self), *final(self), target as int, r->Ok_0.0, r->Ok_0.1),
            },
    {
        let prox = *self.proxies.get_unchecked(target as usize);
        match prox.data {
            ProxyData::Branch(b) => {
                let rec = *self.branch_data.get_unchecked(b as usize);
                Ok((rec, prox))
            },
            ProxyData::Leaf(_) => Err(Error::BranchCollision),
            ProxyData::Void => {
                let ghost t0 = *self;
                let children = self.push_void_children(target);
                let ghost mid = *self;
                assert(mid.is_proxy(target as int));
                let b = self.branch_data.push(children);
                let np = Proxy { parent: prox.parent, data: ProxyData::Branch(b as u32) };
                self.proxies.set(target as usize, np);
                proof {
                    let t1 = *self;
                    lemma_split_wf(t0, mid, t1, target as int, b as int, children);
                }
                Ok((children, np))
            },
        }
    }
}

/// A node in the subtree of `a` is at least as deep as `a`.
pub proof fn lemma_subtree_depth<T>(t: Octree<T>, i: int, a: int)
    requires
        t.in_subtree(i, a),
    ensures
        t.depth(i) >= t.depth(a),
    decreases t.depth(i),
{
    if i != a {
        lemma_subtree_depth(t, t.parent(i), a);
    }
}

/// Dropping the last listed node `c` of the worklist `w` keeps the voiding state.
#[verifier::rlimit(100)]
#[verifier::spinoff_prover]
proof fn lemma_flatten_step<T>(
    t0: Octree<T>,
    t: Octree<T>,
    t2: Octree<T>,
    target: int,
    w: Seq<u32>,
    w2: Seq<u32>,
    res: Seq<T>,
    res2: Seq<T>,
    ls: Seq<int>,
    ls2: Seq<int>,
)
    requires
        flatten_inv(t0, t, target, w, res, ls),
        w.len() > 0,
        t2.arenas_wf(),
        t2.depths@ == t.depths@,
        t2.slots@ == t.slots@,
        t2.root == t.root,
        t2.spec_proxies() == t.spec_proxies().update(w.last() as int, None),
        t2.spec_branches() == (match t.proxy(w.last() as int).data {
            ProxyData::Branch(b2) => t.spec_branches().update(b2 as int, None),
            _ => t.spec_branches(),
        }),
        t2.spec_leaves() == (match t.proxy(w.last() as int).data {
            ProxyData::Leaf(l) => t.spec_leaves().update(l as int, None),
            _ => t.spec_leaves(),
        }),
        w2 == (match t.proxy(w.last() as int).data {
            ProxyData::Branch(b2) => w.drop_last() + t.record(b2 as int),
            _ => w.drop_last(),
        }),
        res2 == (match t.proxy(w.last() as int).data {
            ProxyData::Leaf(l) => res.push(t.leaf_value(l as int)),
            _ => res,
        }),
        ls2 == (match t.proxy(w.last() as int).data {
            ProxyData::Leaf(l) => ls.push(l as int),
            _ => ls,
        }),
    ensures
        flatten_inv(t0, t2, target, w2, res2, ls2),
        count_init(t2.spec_proxies()) < count_init(t.spec_proxies()),
{
    let c = w.last() as int;
    let n = w.len() - 1;
    assert(w[n] == c);
    assert(t.is_proxy(c));
    assert(c != target);
    assert(t0.is_proxy(c));
    assert(t.proxy(c) == t0.proxy(c));
    lemma_count_update(t.spec_proxies(), c, None);
    lemma_subtree_depth(t0, c, target);
    let data = t.proxy(c).data;
    assert(t.linked_down(c));
    assert forall|i: int| 0 <= i < t2.spec_proxies().len() && i != c implies #[trigger] t2.spec_proxies()[i] == t.spec_proxies()[i] by {}
    assert(t2.is_proxy(target));
    // the nodes that stay
    assert forall|i: int|
        #![trigger t2.is_proxy(i)]
        t2.is_proxy(i) implies t.is_proxy(i) && i != c && t2.proxy(i) == t.proxy(i) by {}
    assert forall|i: int|
        #![trigger t0.is_proxy(i)]
        t0.is_proxy(i) && !t2.is_proxy(i) implies i != target && t0.in_subtree(i, target) && (
        !t2.is_proxy(t0.parent(i)) || t0.parent(i) == target) by {
        if i != c {
            assert(!t.is_proxy(i));
            if t2.is_proxy(t0.parent(i)) {
                assert(t.is_proxy(t0.parent(i)));
            }
        } else {
            assert(w[n] == i);
            if t2.is_proxy(t0.parent(i)) {
                assert(t.is_proxy(t0.parent(i)));
            }
        }
    }
    // the records and payloads that stay
    assert forall|b: int| #![trigger t2.is_record(b)] t2.is_record(b) implies t.is_record(b) && t2.record(b) == t.record(b) by {
        if let ProxyData::Branch(b2) = data {
            assert(b != b2);
        }
    }
    assert forall|l: int| #![trigger t2.is_leaf_slot(l)] t2.is_leaf_slot(l) implies t.is_leaf_slot(l) && t2.leaf_value(l) == t.leaf_value(l) by {
        if let ProxyData::Leaf(l2) = data {
            assert(l != l2);
        }
    }
    assert forall|l: int|
        #![trigger t0.is_leaf_slot(l)]
        t0.is_leaf_slot(l) && !t2.is_leaf_slot(l) implies exists|i: int|
            t0.is_proxy(i) && t0.in_subtree(i, target) && #[trigger] t0.proxy(i).data
                == ProxyData::Leaf(l as u32) by {
        if t.is_leaf_slot(l) {
            assert(data == ProxyData::Leaf(l as u32));
            assert(t0.proxy(c).data == ProxyData::Leaf(l as u32));
        }
    }
    if let ProxyData::Leaf(l) = data {
        lemma_count_update(t.spec_leaves(), l as int, None);
        assert(t.is_leaf_slot(l as int));
        assert forall|k: int| #![trigger ls2[k]] 0 <= k < res2.len() implies t0.is_leaf_slot(ls2[k])
            && !t2.is_leaf_slot(ls2[k]) && res2[k] == t0.leaf_value(ls2[k]) by {
            if k < res.len() {
                assert(res2[k] == res[k]);
                assert(ls2[k] == ls[k]);
            }
        }
    } else {
        assert forall|k: int| #![trigger ls2[k]] 0 <= k < res2.len() implies t0.is_leaf_slot(ls2[k])
            && !t2.is_leaf_slot(ls2[k]) && res2[k] == t0.leaf_value(ls2[k]) by {
            assert(ls2[k] == ls[k]);
        }
    }
    // the worklist
    assert forall|k: int| #![trigger w2[k]] 0 <= k < n implies w2[k] == w[k] && w[k] != c by {
        assert(w[k] != w[n]);
    }
    if let ProxyData::Branch(b2) = data {
        let rec = t.record(b2 as int);
        assert(t.is_record(b2 as int));
        assert(rec == t0.record(b2 as int));
        assert forall|o: int| #![trigger rec[o]] 0 <= o < 8 implies {
            let ch = rec[o] as int;
            &&& t0.is_proxy(ch)
            &&& t0.parent(ch) == c
            &&& t0.slot(ch) == o
            &&& t2.is_proxy(ch)
            &&& ch != target
            &&& t0.in_subtree(ch, target)
        } by {
            let ch = rec[o] as int;
            assert(t.is_proxy(ch));
            assert(t.parent(ch) == c);
            assert(t.depth(ch) == t.depth(c) + 1);
            assert(ch != c);
            assert(t0.is_proxy(ch));
            if ch == target {
                assert(false);
            }
            assert(t0.proxy(ch) == t.proxy(ch));
            assert(ch != t0.spec_root());
        }
        assert forall|k: int| #![trigger w2[k]] 0 <= k < w2.len() implies {
            let x = w2[k] as int;
            &&& t2.is_proxy(x)
            &&& x != target
            &&& t0.in_subtree(x, target)
            &&& (!t2.is_proxy(t0.parent(x)) || t0.parent(x) == target)
        } by {
            if k < n {
                assert(w[k] != w[n]);
                if t2.is_proxy(t0.parent(w[k] as int)) {
                    assert(t.is_proxy(t0.parent(w[k] as int)));
                }
            } else {
                assert(w2[k] == rec[k - n]);
            }
        }
        assert forall|k1: int, k2: int| 0 <= k1 < k2 < w2.len() implies w2[k1] != w2[k2] by {
            if k2 < n {
                assert(w[k1] != w[k2]);
            } else if k1 < n {
                assert(w2[k2] == rec[k2 - n]);
                let x = w[k1] as int;
                if x == rec[k2 - n] as int {
                    assert(t0.parent(x) == c);
                    assert(w[k1] == x);
                    assert(t.is_proxy(c));
                }
            } else {
                assert(w2[k1] == rec[k1 - n]);
                assert(w2[k2] == rec[k2 - n]);
                assert(t0.slot(rec[k1 - n] as int) == k1 - n);
                assert(t0.slot(rec[k2 - n] as int) == k2 - n);
            }
        }
        assert forall|i: int|
            #![trigger t2.is_proxy(i)]
            t2.is_proxy(i) && i != t2.spec_root() && !listed(w2, i) implies t2.linked_up(i) by {
            if listed(w, i) {
                let k = choose|k: int| 0 <= k < w.len() && w[k] == i;
                assert(k != n);
                assert(w2[k] == i);
            }
            assert(t.linked_up(i));
            let p = t.parent(i);
            if p == c {
                let o = t.slot(i) as int;
                assert(rec[o] == i);
                assert(w2[n + o] == i);
            }
            assert(t2.is_proxy(p));
            let bp = t.proxy(p).data->Branch_0 as int;
            assert(t.linked_down(p));
            assert(bp != b2);
            assert(t2.is_record(bp));
        }
    } else {
        assert forall|k: int| #![trigger w2[k]] 0 <= k < w2.len() implies {
            let x = w2[k] as int;
            &&& t2.is_proxy(x)
            &&& x != target
            &&& t0.in_subtree(x, target)
            &&& (!t2.is_proxy(t0.parent(x)) || t0.parent(x) == target)
        } by {
            assert(w[k] != w[n]);
            if t2.is_proxy(t0.parent(w[k] as int)) {
                assert(t.is_proxy(t0.parent(w[k] as int)));
            }
        }
        assert forall|k1: int, k2: int| 0 <= k1 < k2 < w2.len() implies w2[k1] != w2[k2] by {
            assert(w[k1] != w[k2]);
        }
        assert forall|i: int|
            #![trigger t2.is_proxy(i)]
            t2.is_proxy(i) && i != t2.spec_root() && !listed(w2, i) implies t2.linked_up(i) by {
            if listed(w, i) {
                let k = choose|k: int| 0 <= k < w.len() && w[k] == i;
                assert(k != n);
                assert(w2[k] == i);
            }
            assert(t.linked_up(i));
            let p = t.parent(i);
            assert(p != c);
            assert(t2.is_proxy(p));
        }
    }
    assert forall|p: int| #![trigger t2.is_proxy(p)] t2.is_proxy(p) implies t2.linked_down(p) by {
        assert(t.linked_down(p));
        match t.proxy(p).data {
            ProxyData::Void => {},
            ProxyData::Leaf(l) => {
                if let ProxyData::Leaf(l2) = data {
                    assert(l != l2);
                }
            },
            ProxyData::Branch(bp) => {
                if let ProxyData::Branch(b2) = data {
                    assert(bp != b2);
                }
                assert forall|o: int| 0 <= o < 8 implies {
                    let ch = #[trigger] t2.record(bp as int)[o] as int;
                    &&& t2.is_proxy(ch)
                    &&& t2.parent(ch) == p
                    &&& t2.slot(ch) == o
                    &&& t2.depth(ch) == t2.depth(p) + 1
                } by {
                    let ch = t.record(bp as int)[o] as int;
                    assert(t.is_proxy(ch));
                    if ch == c {
                        assert(t.parent(c) == p);
                        assert(t0.parent(c) == p);
                        assert(w[n] == c);
                    }
                }
            },
        }
    }
    assert(t2.owners_unique());
    assert forall|i: int| #![trigger t2.depth(i)] t2.depth(i) == t0.depth(i) by {
        assert(t.depth(i) == t0.depth(i));
    }
    assert forall|i: int| #![trigger t2.slot(i)] t2.slot(i) == t0.slot(i) by {
        assert(t.slot(i) == t0.slot(i));
    }
    assert(t2.spec_proxies().len() == t0.spec_proxies().len());
    assert(t2.spec_branches().len() == t0.spec_branches().len());
    assert(t2.spec_leaves().len() == t0.spec_leaves().len());
    assert(t2.proxy(target) == t.proxy(target));
    assert(res2.len() + count_init(t2.spec_leaves()) == count_init(t0.spec_leaves()));
}

/// Voiding starts from `t0` with `target` made void, its record `b` dropped and the record's
/// children listed.
#[verifier::rlimit(100)]
#[verifier::spinoff_prover]
proof fn lemma_flatten_start<T>(t0: Octree<T>, t: Octree<T>, target: int, b: int, w: Seq<u32>)
    requires
        t0.wf(),
        t0.is_proxy(target),
        t0.proxy(target).data == ProxyData::Branch(b as u32),
        0 <= b < 0x1_0000_0000,
        t.arenas_wf(),
        t.depths@ == t0.depths@,
        t.slots@ == t0.slots@,
        t.root == t0.root,
        t.spec_proxies() == t0.spec_proxies().update(target, Some(Proxy { parent: t0.proxy(target).parent, data: ProxyData::Void })),
        t.spec_branches() == t0.spec_branches().update(b, None),
        t.spec_leaves() == t0.spec_leaves(),
        w == t0.record(b),
    ensures
        flatten_inv(t0, t, target, w, Seq::empty(), Seq::empty()),
{
    assert(t0.linked_down(target));
    assert(b as u32 as int == b);
    assert(t0.is_record(b));
    assert forall|i: int| 0 <= i < t.spec_proxies().len() && i != target implies #[trigger] t.spec_proxies()[i] == t0.spec_proxies()[i] by {}
    assert forall|i: int| #![trigger t.is_proxy(i)] t.is_proxy(i) implies t0.is_proxy(i) && (i != target ==> t.proxy(i) == t0.proxy(i)) by {}
    assert forall|k: int| #![trigger w[k]] 0 <= k < w.len() implies {
        let c = w[k] as int;
        &&& t.is_proxy(c)
        &&& c != target
        &&& t0.in_subtree(c, target)
        &&& (!t.is_proxy(t0.parent(c)) || t0.parent(c) == target)
    } by {
        let c = w[k] as int;
        assert(t0.record(b)[k] == w[k]);
        assert(t0.is_proxy(c));
        assert(t0.parent(c) == target);
        assert(t0.depth(c) == t0.depth(target) + 1);
        assert(c != t0.spec_root());
        assert(c != target);
        assert(t0.in_subtree(target, target));
        assert(t0.in_subtree(c, target));
        assert(t.spec_proxies()[c] == t0.spec_proxies()[c]);
    }
    assert forall|k1: int, k2: int| 0 <= k1 < k2 < w.len() implies w[k1] != w[k2] by {
        assert(t0.slot(w[k1] as int) == k1);
        assert(t0.slot(w[k2] as int) == k2);
    }
    assert forall|i: int|
        #![trigger t.is_proxy(i)]
        t.is_proxy(i) && i != t.spec_root() && !listed(w, i) implies t.linked_up(i) by {
        assert(t0.linked_up(i));
        let p = t0.parent(i);
        if p == target {
            let o = t0.slot(i) as int;
            assert(w[o] == i);
        }
        assert(t.is_proxy(p));
        let bp = t0.proxy(p).data->Branch_0 as int;
        assert(t0.linked_down(p));
        assert(bp != b);
    }
    assert forall|p: int| #![trigger t.is_proxy(p)] t.is_proxy(p) implies t.linked_down(p) by {
        assert(t0.linked_down(p));
        if p != target {
            if let ProxyData::Branch(bp) = t0.proxy(p).data {
                assert(bp != b);
                assert forall|o: int| 0 <= o < 8 implies {
                    let ch = #[trigger] t.record(bp as int)[o] as int;
                    &&& t.is_proxy(ch)
                    &&& t.parent(ch) == p
                    &&& t.slot(ch) == o
                    &&& t.depth(ch) == t.depth(p) + 1
                } by {
                    let ch = t0.record(bp as int)[o] as int;
                    assert(t0.is_proxy(ch));
                }
            }
        }
    }
    assert forall|b2: int| #![trigger t.is_record(b2)] t.is_record(b2) implies t0.is_record(b2) && t.record(b2) == t0.record(b2) by {}
    assert(t.proxy(target).data is Void);
    assert(t.owners_unique());
}

/// Voiding a subtree that holds a leaf drops at least one payload.
proof fn lemma_dropped_some<T>(t0: Octree<T>, mid: Octree<T>, target: int, dropped: Seq<T>)
    requires
        t0.wf(),
        t0.is_proxy(target),
        t0.proxy(target).data is Branch,
        t0.has_leaf_below(target),
        voided(t0, mid, target, dropped),
    ensures
        dropped.len() > 0,
{
    let n = choose|n: int| t0.is_proxy(n) && #[trigger] t0.in_subtree(n, target) && t0.proxy(n).data is Leaf;
    assert(n != target);
    assert(t0.linked_down(n));
    let l = t0.proxy(n).data->Leaf_0 as int;
    assert(data_freed(t0, mid, n));
    assert(!mid.is_leaf_slot(l));
    assert forall|j: int| 0 <= j < mid.spec_leaves().len() && (#[trigger] mid.spec_leaves()[j]) is Some implies t0.spec_leaves()[j] is Some by {
        assert(mid.is_leaf_slot(j));
    }
    crate::stable_vec::lemma_count_shrinks(t0.spec_leaves(), mid.spec_leaves(), l);
}

/// A node strictly below `i` lies below one of `i`'s children, and `i` is a branch.
proof fn lemma_subtree_split<T>(t: Octree<T>, n: int, i: int)
    requires
        t.wf(),
        t.in_subtree(n, i),
        n != i,
    ensures
        t.is_proxy(i),
        t.proxy(i).data is Branch,
        exists|o: int| 0 <= o < 8 && t.in_subtree(n, #[trigger] t.child(i, o)),
    decreases t.depth(n),
{
    let p = t.parent(n);
    assert(t.is_proxy(n) && n != t.spec_root() && t.depth(p) < t.depth(n));
    assert(t.linked_up(n));
    if p == i {
        let o = t.slot(n) as int;
        assert(t.child(i, o) == n);
        assert(t.in_subtree(n, n));
    } else {
        lemma_subtree_split(t, p, i);
        let o = choose|o: int| 0 <= o < 8 && t.in_subtree(p, #[trigger] t.child(i, o));
        let c = t.child(i, o);
        if n != c {
            assert(t.in_subtree(n, c));
        }
        assert(t.in_subtree(n, t.child(i, o)));
    }
}

/// A node below a child of `i` lies below `i`.
proof fn lemma_subtree_up<T>(t: Octree<T>, n: int, c: int)
    requires
        t.wf(),
        t.is_proxy(c),
        c != t.spec_root(),
        t.in_subtree(n, c),
    ensures
        t.in_subtree(n, t.parent(c)),
    decreases t.depth(n),
{
    assert(t.linked_up(c));
    assert(t.linked_down(t.parent(c)));
    assert(t.record(t.proxy(t.parent(c)).data->Branch_0 as int)[t.slot(c) as int] == c);
    if n == c {
        assert(t.in_subtree(t.parent(c), t.parent(c)));
    } else {
        lemma_subtree_up(t, t.parent(n), c);
    }
}

/// Once `target` is void in a well-formed `t` that only lost nodes of `t0`, no node strictly
/// below `target` in `t0` is left.
proof fn lemma_below_void_gone<T>(t0: Octree<T>, t: Octree<T>, target: int, n: int)
    requires
        t.wf(),
        t.is_proxy(target),
        t.proxy(target).data is Void,
        t.spec_root() == t0.spec_root(),
        forall|i: int| #![trigger t.is_proxy(i)] t.is_proxy(i) ==> t0.is_proxy(i) && (i != target ==> t.proxy(i) == t0.proxy(i)),
        n != target,
        t0.in_subtree(n, target),
    ensures
        !t.is_proxy(n),
    decreases t0.depth(n),
{
    if t.is_proxy(n) {
        let p = t0.parent(n);
        assert(t0.is_proxy(n) && n != t0.spec_root() && t0.depth(p) < t0.depth(n));
        assert(t0.in_subtree(p, target));
        assert(t.proxy(n) == t0.proxy(n));
        assert(t.linked_up(n));
        assert(t.parent(n) == p);
        if p != target {
            lemma_below_void_gone(t0, t, target, p);
        }
    }
}

/// Voiding ends, with nothing left to drop, in a well-formed tree.
#[verifier::rlimit(100)]
#[verifier::spinoff_prover]
proof fn lemma_flatten_done<T>(t0: Octree<T>, t: Octree<T>, target: int, res: Seq<T>, ls: Seq<int>)
    requires
        flatten_inv(t0, t, target, Seq::empty(), res, ls),
    ensures
        voided(t0, t, target, res),
{
    let root = t0.spec_root();
    if root != target && !t.is_proxy(root) {
        assert(t0.is_proxy(root));
        assert(t0.in_subtree(root, target));
    }
    assert(t.is_proxy(root));
    assert forall|i: int|
        #![trigger t.is_proxy(i)]
        t.is_proxy(i) && i != t.spec_root() implies t.linked_up(i) by {
        assert(!listed(Seq::<u32>::empty(), i));
    }
    assert(t.depth(root) == t0.depth(root));
    assert(drawn_from(t0, t, res, ls));
    assert forall|n: int|
        #![trigger t0.in_subtree(n, target)]
        t0.is_proxy(n) && n != target && t0.in_subtree(n, target) implies !t.is_proxy(n) && data_freed(t0, t, n) by {
        lemma_below_void_gone(t0, t, target, n);
    }
}

/// Making leaf `target` void keeps the tree well formed and drops its one payload.
#[verifier::rlimit(100)]
#[verifier::spinoff_prover]
proof fn lemma_void_leaf<T>(t0: Octree<T>, t: Octree<T>, target: int, l: int)
    requires
        t0.wf(),
        t0.is_proxy(target),
        t0.proxy(target).data == ProxyData::Leaf(l as u32),
        0 <= l < 0x1_0000_0000,
        t.arenas_wf(),
        t.depths@ == t0.depths@,
        t.slots@ == t0.slots@,
        t.root == t0.root,
        t.spec_proxies() == t0.spec_proxies().update(target, Some(Proxy { parent: t0.proxy(target).parent, data: ProxyData::Void })),
        t.spec_branches() == t0.spec_branches(),
        t.spec_leaves() == t0.spec_leaves().update(l, None),
    ensures
        voided(t0, t, target, seq![t0.leaf_value(l)]),
{
    assert(t0.linked_down(target));
    lemma_count_update(t0.spec_leaves(), l, None);
    assert forall|i: int| 0 <= i < t.spec_proxies().len() && i != target implies #[trigger] t.spec_proxies()[i] == t0.spec_proxies()[i] by {}
    assert forall|i: int| #![trigger t.is_proxy(i)] t.is_proxy(i) && i != t.spec_root() implies t.linked_up(i) by {
        assert(t0.is_proxy(i));
        assert(t0.linked_up(i));
        assert(t.is_proxy(t0.parent(i)));
    }
    assert forall|p: int| #![trigger t.is_proxy(p)] t.is_proxy(p) implies t.linked_down(p) by {
        assert(t0.is_proxy(p));
        assert(t0.linked_down(p));
        if p != target {
            if let ProxyData::Leaf(l2) = t0.proxy(p).data {
                assert(l2 != l);
            }
            if let ProxyData::Branch(bp) = t0.proxy(p).data {
                assert forall|o: int| 0 <= o < 8 implies {
                    let ch = #[trigger] t.record(bp as int)[o] as int;
                    &&& t.is_proxy(ch)
                    &&& t.parent(ch) == p
                    &&& t.slot(ch) == o
                    &&& t.depth(ch) == t.depth(p) + 1
                } by {
                    let ch = t0.record(bp as int)[o] as int;
                    assert(t0.is_proxy(ch));
                }
            }
        }
    }
    assert forall|i: int| #![trigger t.is_proxy(i)] t.is_proxy(i) implies t0.is_proxy(i) && (i != target ==> t.proxy(i) == t0.proxy(i)) by {}
    assert forall|p: int, q: int|
        #![trigger t.proxy(p).data, t.proxy(q).data]
        t.is_proxy(p) && t.is_proxy(q) && t.proxy(p).data is Branch
            && t.proxy(p).data == t.proxy(q).data implies p == q by {
        assert(t0.is_proxy(p) && t0.is_proxy(q));
        assert(t0.proxy(p).data == t0.proxy(q).data);
    }
    assert forall|p: int, q: int|
        #![trigger t.proxy(p).data, t.proxy(q).data]
        t.is_proxy(p) && t.is_proxy(q) && t.proxy(p).data is Leaf
            && t.proxy(p).data == t.proxy(q).data implies p == q by {
        assert(t0.is_proxy(p) && t0.is_proxy(q));
        assert(t0.proxy(p).data == t0.proxy(q).data);
    }
    assert(t.owners_unique());
    assert forall|l2: int|
        #![trigger t0.is_leaf_slot(l2)]
        t0.is_leaf_slot(l2) && !t.is_leaf_slot(l2) implies exists|i: int|
            t0.is_proxy(i) && t0.in_subtree(i, target) && #[trigger] t0.proxy(i).data
                == ProxyData::Leaf(l2 as u32) by {
        assert(l2 == l);
        assert(t0.in_subtree(target, target));
    }
    assert(drawn_from(t0, t, seq![t0.leaf_value(l)], seq![l]));
    assert(t.is_proxy(t.spec_root()));
    assert(t.wf());
    assert forall|n: int|
        #![trigger t0.in_subtree(n, target)]
        t0.is_proxy(n) && n != target && t0.in_subtree(n, target) implies !t.is_proxy(n) && data_freed(t0, t, n) by {
        lemma_below_void_gone(t0, t, target, n);
    }
    assert(data_freed(t0, t, target));
}

/// Storing a payload for a void node in a free leaf slot keeps the tree well formed.
#[verifier::rlimit(100)]
#[verifier::spinoff_prover]
proof fn lemma_attach_wf<T>(t0: Octree<T>, t: Octree<T>, target: int, l: int, data: T)
    requires
        t0.wf(),
        t0.is_proxy(target),
        t0.proxy(target).data is Void,
        is_first_free(t0.spec_leaves(), l),
        l < u32::MAX,
        t.arenas_wf(),
        t.depths@ == t0.depths@,
        t.slots@ == t0.slots@,
        t.root == t0.root,
        t.spec_leaves() == put_at(t0.spec_leaves(), l, data),
        t.spec_proxies() == t0.spec_proxies().update(target, Some(Proxy { parent: t0.proxy(target).parent, data: ProxyData::Leaf(l as u32) })),
        t.spec_branches() == t0.spec_branches(),
    ensures
        t.wf(),
        leaf_attached(t0, t, target, data),
        t.leaf_value(l) == data,
{
    assert(t.spec_leaves()[l] == Some(data));
    assert forall|l2: int| #[trigger] t0.is_leaf_slot(l2) implies t.is_leaf_slot(l2) by {
        assert(l2 != l);
    }
    assert forall|i: int| 0 <= i < t.spec_proxies().len() && i != target implies #[trigger] t.spec_proxies()[i] == t0.spec_proxies()[i] by {}
    assert forall|i: int| #![trigger t.is_proxy(i)] t.is_proxy(i) implies t0.is_proxy(i) && (i != target ==> t.proxy(i) == t0.proxy(i)) by {}
    assert forall|i: int| #![trigger t.is_proxy(i)] t.is_proxy(i) && i != t.spec_root() implies t.linked_up(i) by {
        assert(t0.linked_up(i));
        assert(t.is_proxy(t0.parent(i)));
    }
    assert forall|p: int| #![trigger t.is_proxy(p)] t.is_proxy(p) implies t.linked_down(p) by {
        assert(t0.linked_down(p));
        if p != target {
            if let ProxyData::Branch(bp) = t0.proxy(p).data {
                assert forall|o: int| 0 <= o < 8 implies {
                    let ch = #[trigger] t.record(bp as int)[o] as int;
                    &&& t.is_proxy(ch)
                    &&& t.parent(ch) == p
                    &&& t.slot(ch) == o
                    &&& t.depth(ch) == t.depth(p) + 1
                } by {
                    let ch = t0.record(bp as int)[o] as int;
                    assert(t0.is_proxy(ch));
                }
            }
        }
    }
    assert forall|p: int, q: int|
        #![trigger t.proxy(p).data, t.proxy(q).data]
        t.is_proxy(p) && t.is_proxy(q) && t.proxy(p).data is Branch
            && t.proxy(p).data == t.proxy(q).data implies p == q by {
        assert(t0.proxy(p).data == t0.proxy(q).data);
    }
    assert forall|p: int, q: int|
        #![trigger t.proxy(p).data, t.proxy(q).data]
        t.is_proxy(p) && t.is_proxy(q) && t.proxy(p).data is Leaf
            && t.proxy(p).data == t.proxy(q).data implies p == q by {
        if p != target && q != target {
            assert(t0.proxy(p).data == t0.proxy(q).data);
        } else if p != target {
            assert(t0.linked_down(p));
        } else if q != target {
            assert(t0.linked_down(q));
        }
    }
    assert(t.is_proxy(t.spec_root()));
}

/// Overwriting the payload in an occupied leaf slot keeps the tree well formed.
#[verifier::rlimit(100)]
#[verifier::spinoff_prover]
proof fn lemma_replace_leaf_wf<T>(t0: Octree<T>, t: Octree<T>, l: int, data: T)
    requires
        t0.wf(),
        t0.is_leaf_slot(l),
        t.arenas_wf(),
        t.depths@ == t0.depths@,
        t.slots@ == t0.slots@,
        t.root == t0.root,
        t.spec_leaves() == t0.spec_leaves().update(l, Some(data)),
        t.spec_proxies() == t0.spec_proxies(),
        t.spec_branches() == t0.spec_branches(),
    ensures
        t.wf(),
{
    assert forall|p: int| #![trigger t.is_proxy(p)] t.is_proxy(p) implies t.linked_down(p) by {
        assert(t0.is_proxy(p));
        assert(t0.linked_down(p));
        if let ProxyData::Leaf(l2) = t0.proxy(p).data {
            assert(t.is_leaf_slot(l2 as int));
        }
        if let ProxyData::Branch(bp) = t0.proxy(p).data {
            assert forall|o: int| 0 <= o < 8 implies {
                let ch = #[trigger] t.record(bp as int)[o] as int;
                &&& t.is_proxy(ch)
                &&& t.parent(ch) == p
                &&& t.slot(ch) == o
                &&& t.depth(ch) == t.depth(p) + 1
            } by {
                let ch = t0.record(bp as int)[o] as int;
                assert(t0.is_proxy(ch));
            }
        }
    }
    assert forall|i: int| #![trigger t.is_proxy(i)] t.is_proxy(i) && i != t.spec_root() implies t.linked_up(i) by {
        assert(t0.is_proxy(i));
        assert(t0.linked_up(i));
    }
    assert forall|p: int, q: int|
        #![trigger t.proxy(p).data, t.proxy(q).data]
        t.is_proxy(p) && t.is_proxy(q) && t.proxy(p).data is Branch
            && t.proxy(p).data == t.proxy(q).data implies p == q by {
        assert(t0.proxy(p).data == t0.proxy(q).data);
    }
    assert forall|p: int, q: int|
        #![trigger t.proxy(p).data, t.proxy(q).data]
        t.is_proxy(p) && t.is_proxy(q) && t.proxy(p).data is Leaf
            && t.proxy(p).data == t.proxy(q).data implies p == q by {
        assert(t0.proxy(p).data == t0.proxy(q).data);
    }
    assert(t.owners_unique());
    assert(t.is_proxy(t.spec_root()));
    assert(t.depth(t.spec_root()) == 0);
    assert(t.spec_leaves().len() == t0.spec_leaves().len());
}

/// The states of growing `t0`: `ta` after the new root's slot was taken, `mid` after its
/// children were pushed, `t` at the end.
spec fn grow_step<T>(t0: Octree<T>, ta: Octree<T>, mid: Octree<T>, t: Octree<T>, nr: int, oct: int, pushed: [u32; 8], children: [u32; 8], b: int) -> bool {
    &&& t0.wf()
    &&& 0 <= oct < 8
    &&& is_first_free(t0.spec_proxies(), nr)
    &&& nr < u32::MAX
    &&& ta.spec_proxies() == put_at(t0.spec_proxies(), nr, Proxy { parent: 0, data: ProxyData::Void })
    &&& ta.depths@ == (if nr < t0.depths@.len() { t0.depths@.update(nr, 0) } else { t0.depths@.push(0) })
    &&& ta.slots@ == (if nr < t0.slots@.len() { t0.slots@.update(nr, 0) } else { t0.slots@.push(0) })
    &&& fresh_children(ta, mid, nr as u32, pushed)
    &&& children@ == pushed@.update(oct, t0.root)
    &&& mid.arenas_wf()
    &&& mid.spec_branches() == t0.spec_branches()
    &&& mid.spec_leaves() == t0.spec_leaves()
    &&& is_first_free(t0.spec_branches(), b)
    &&& b < u32::MAX
    &&& t.arenas_wf()
    &&& t.root == nr
    &&& t.spec_leaves() == t0.spec_leaves()
    &&& t.spec_branches() == put_at(t0.spec_branches(), b, children)
    &&& t.spec_proxies() == mid.spec_proxies().update(pushed@[oct] as int, None).update(
        nr,
        Some(Proxy { parent: nr as u32, data: ProxyData::Branch(b as u32) }),
    ).update(t0.spec_root(), Some(Proxy { parent: nr as u32, data: t0.proxy(t0.spec_root()).data }))
    &&& t.depths@ == Seq::new(mid.depths@.len(), |i: int| if t0.is_proxy(i) { t0.depths@[i] + 1 } else { mid.depths@[i] })
    &&& t.slots@ == mid.slots@.update(t0.spec_root(), oct as nat)
    &&& t.spec_proxies().len() <= u32::MAX
    &&& t.spec_branches().len() <= u32::MAX
}

/// The steps of growing a tree end in a well-formed tree.
#[verifier::rlimit(100)]
#[verifier::spinoff_prover]
proof fn lemma_grow_wf<T>(
    t0: Octree<T>,
    ta: Octree<T>,
    mid: Octree<T>,
    t: Octree<T>,
    nr: int,
    oct: int,
    pushed: [u32; 8],
    children: [u32; 8],
    b: int,
)
    requires
        grow_step(t0, ta, mid, t, nr, oct, pushed, children, b),
    ensures
        t.wf(),
        grown(t0, t, oct),
{
    lemma_grow_facts(t0, ta, mid, t, nr, oct, pushed, children, b);
    let r0 = t0.spec_root();
    assert forall|i: int| #![trigger t.is_proxy(i)] t.is_proxy(i) && i != t.spec_root() implies t.linked_up(i) by {
        if i == r0 {
            assert(t.record(b)[oct] == r0);
        } else if t0.is_proxy(i) {
            assert(t0.linked_up(i));
            let p = t0.parent(i);
            assert(t0.is_proxy(p));
            assert(t0.linked_down(p));
            let bp = t0.proxy(p).data->Branch_0 as int;
            assert(t.proxy(p).data == t0.proxy(p).data);
            assert(t.record(bp) == t0.record(bp));
        } else {
            let k = choose|k: int| 0 <= k < 8 && k != oct && children@[k] == i;
            assert(t.record(b)[k] == i);
        }
    }
    assert forall|p: int| #![trigger t.is_proxy(p)] t.is_proxy(p) implies t.linked_down(p) by {
        if p == nr {
            assert forall|o: int| 0 <= o < 8 implies {
                let c = #[trigger] t.record(b)[o] as int;
                &&& t.is_proxy(c)
                &&& t.parent(c) == p
                &&& t.slot(c) == o
                &&& t.depth(c) == t.depth(p) + 1
            } by {
                assert(t.record(b)[o] == children@[o]);
            }
        } else if t0.is_proxy(p) {
            assert(t0.linked_down(p));
            assert(t.proxy(p).data == t0.proxy(p).data);
            if let ProxyData::Branch(bp) = t0.proxy(p).data {
                assert forall|o: int| 0 <= o < 8 implies {
                    let c = #[trigger] t.record(bp as int)[o] as int;
                    &&& t.is_proxy(c)
                    &&& t.parent(c) == p
                    &&& t.slot(c) == o
                    &&& t.depth(c) == t.depth(p) + 1
                } by {
                    let c = t0.record(bp as int)[o] as int;
                    assert(t.record(bp as int) == t0.record(bp as int));
                    assert(t0.is_proxy(c));
                    if c == r0 {
                        assert(t0.depth(c) == t0.depth(p) + 1);
                        assert(false);
                    }
                }
            }
        }
    }
    assert forall|p: int, q: int|
        #![trigger t.proxy(p).data, t.proxy(q).data]
        t.is_proxy(p) && t.is_proxy(q) && t.proxy(p).data is Branch
            && t.proxy(p).data == t.proxy(q).data implies p == q by {
        if p != q {
            if p == nr {
                if t0.is_proxy(q) {
                    assert(t0.linked_down(q));
                }
            } else if q == nr {
                if t0.is_proxy(p) {
                    assert(t0.linked_down(p));
                }
            } else if t0.is_proxy(p) && t0.is_proxy(q) {
                assert(t0.proxy(p).data == t0.proxy(q).data);
            }
        }
    }
    assert forall|p: int, q: int|
        #![trigger t.proxy(p).data, t.proxy(q).data]
        t.is_proxy(p) && t.is_proxy(q) && t.proxy(p).data is Leaf
            && t.proxy(p).data == t.proxy(q).data implies p == q by {
        if p != q && t0.is_proxy(p) && t0.is_proxy(q) {
            assert(t0.proxy(p).data == t0.proxy(q).data);
        }
    }
}

/// Where each node of a grown tree came from.
#[verifier::rlimit(100)]
#[verifier::spinoff_prover]
proof fn lemma_grow_facts<T>(
    t0: Octree<T>,
    ta: Octree<T>,
    mid: Octree<T>,
    t: Octree<T>,
    nr: int,
    oct: int,
    pushed: [u32; 8],
    children: [u32; 8],
    b: int,
)
    requires
        grow_step(t0, ta, mid, t, nr, oct, pushed, children, b),
    ensures
        t.record(b) == children@,
        t.is_record(b),
        !t0.is_record(b),
        !t0.is_proxy(nr),
        t.is_proxy(nr),
        t.proxy(nr) == (Proxy { parent: nr as u32, data: ProxyData::Branch(b as u32) }),
        t.depth(nr) == 0,
        t.proxy(t0.spec_root()) == (Proxy { parent: nr as u32, data: t0.proxy(t0.spec_root()).data }),
        t.slot(t0.spec_root()) == oct,
        forall|c: int| #![trigger t0.is_record(c)] t0.is_record(c) ==> t.is_record(c) && t.record(c) == t0.record(c),
        forall|c: int| #![trigger t.is_record(c)] t.is_record(c) ==> t0.is_record(c) || c == b,
        forall|i: int|
            #![trigger t0.is_proxy(i)]
            t0.is_proxy(i) ==> t.is_proxy(i) && t.depth(i) == t0.depth(i) + 1 && i != nr
                && (i != t0.spec_root() ==> t.proxy(i) == t0.proxy(i) && t.slot(i) == t0.slot(i)),
        forall|o: int|
            #![trigger children@[o]]
            0 <= o < 8 && o != oct ==> {
                let c = children@[o] as int;
                &&& !t0.is_proxy(c)
                &&& c != nr
                &&& t.is_proxy(c)
                &&& t.proxy(c) == Proxy { parent: nr as u32, data: ProxyData::Void }
                &&& t.depth(c) == 1
                &&& t.slot(c) == o
            },
        forall|i: int|
            #![trigger t.is_proxy(i)]
            t.is_proxy(i) ==> t0.is_proxy(i) || i == nr || exists|k: int| 0 <= k < 8 && k != oct && children@[k] == i,
{
    let r0 = t0.spec_root();
    let ch2 = pushed@;
    let spare = pushed@[oct] as int;
    assert(children@[oct] == r0);
    if b < t0.spec_branches().len() {
        assert(t.spec_branches()[b] == Some(children));
    } else {
        assert(t.spec_branches()[b] == Some(children));
    }
    assert forall|c: int| #![trigger t0.is_record(c)] t0.is_record(c) implies t.is_record(c) && t.record(c) == t0.record(c) by {
        assert(c != b);
        assert(t.spec_branches()[c] == t0.spec_branches()[c]);
    }
    assert forall|c: int| #![trigger t.is_record(c)] t.is_record(c) implies t0.is_record(c) || c == b by {
        if c != b {
            assert(t.spec_branches()[c] == t0.spec_branches()[c]);
        }
    }
    assert(ta.is_proxy(nr));
    assert(ta.spec_proxies()[nr] == Some(Proxy { parent: 0, data: ProxyData::Void }));
    assert(ta.depth(nr) == 0);
    assert(mid.is_proxy(nr));
    assert(mid.depth(nr) == 0);
    assert(!t0.is_proxy(nr));
    assert(ch2[oct] == spare);
    assert(!ta.is_proxy(spare));
    assert(mid.is_proxy(spare));
    assert(ta.is_proxy(r0));
    assert(mid.is_proxy(r0));
    assert forall|i: int| #![trigger t0.is_proxy(i)] t0.is_proxy(i) implies ta.is_proxy(i) && ta.proxy(i) == t0.proxy(i)
        && ta.depth(i) == t0.depth(i) && ta.slot(i) == t0.slot(i) && i != nr by {
        assert(ta.spec_proxies()[i] == t0.spec_proxies()[i]);
    }
    assert forall|i: int| #![trigger t0.is_proxy(i)] t0.is_proxy(i) implies t.is_proxy(i) && t.depth(i) == t0.depth(i) + 1 && i != nr
        && (i != r0 ==> t.proxy(i) == t0.proxy(i) && t.slot(i) == t0.slot(i)) by {
        assert(ta.is_proxy(i));
        assert(mid.is_proxy(i));
        assert(i != spare);
        assert(i < mid.depths@.len());
        assert(t.depths@[i] == t0.depths@[i] + 1);
        if i != r0 {
            assert(i != nr);
            assert(i < mid.spec_proxies().len());
            assert(t.spec_proxies()[i] == mid.spec_proxies()[i]);
            assert(t.slots@[i] == mid.slots@[i]);
        }
    }
    assert forall|o: int| #![trigger children@[o]] 0 <= o < 8 && o != oct implies {
        let c = children@[o] as int;
        &&& !t0.is_proxy(c)
        &&& c != nr
        &&& t.is_proxy(c)
        &&& t.proxy(c) == Proxy { parent: nr as u32, data: ProxyData::Void }
        &&& t.depth(c) == 1
        &&& t.slot(c) == o
    } by {
        let c = children@[o] as int;
        assert(ch2[o] == children@[o]);
        assert(!ta.is_proxy(c));
        assert(ch2[o] != ch2[oct]);
        if t0.is_proxy(c) {
            assert(ta.is_proxy(c));
        }
        assert(mid.is_proxy(c));
        assert(c != r0);
        assert(t.spec_proxies()[c] == mid.spec_proxies()[c]);
        assert(c < mid.depths@.len());
        assert(t.depths@[c] == mid.depths@[c]);
        assert(t.slots@[c] == mid.slots@[c]);
    }
    assert forall|i: int| #![trigger t.is_proxy(i)] t.is_proxy(i) implies t0.is_proxy(i) || i == nr || exists|k: int| 0 <= k < 8 && k != oct && children@[k] == i by {
        if i != nr && i != r0 {
            assert(i != spare);
            assert(mid.is_proxy(i));
            if !ta.is_proxy(i) {
                let k = choose|k: int| 0 <= k < 8 && ch2[k] == i;
                assert(k != oct);
                assert(children@[k] == ch2[k]);
            } else if i != nr {
                assert(t0.spec_proxies()[i] == ta.spec_proxies()[i]);
            }
        }
    }
    assert(t.depth(r0) == t0.depth(r0) + 1);
}


/// Each ancestor of a node is a node, one level shallower than the one before it.
proof fn lemma_ancestors<T>(t: Octree<T>, i: int)
    requires
        t.wf(),
        t.is_proxy(i),
    ensures
        t.ancestors(i).len() == t.depth(i) + 1,
        forall|k: int|
            #![trigger t.ancestors(i)[k]]
            0 <= k < t.ancestors(i).len() ==> t.is_proxy(t.ancestors(i)[k]) && t.depth(t.ancestors(i)[k]) == t.depth(i) - k,
    decreases t.depth(i),
{
    if i != t.spec_root() {
        assert(t.linked_up(i));
        let p = t.parent(i);
        assert(t.linked_down(p));
        assert(t.record(t.proxy(p).data->Branch_0 as int)[t.slot(i) as int] == i);
        assert(t.depth(i) == t.depth(p) + 1);
        lemma_ancestors(t, p);
        let a = t.ancestors(i);
        assert(a == seq![i] + t.ancestors(p));
        assert forall|k: int| #![trigger a[k]] 0 <= k < a.len() implies t.is_proxy(a[k]) && t.depth(a[k]) == t.depth(i) - k by {
            if k > 0 {
                assert(a[k] == t.ancestors(p)[k - 1]);
            }
        }
    } else {
        assert(t.ancestors(i) == seq![i]);
    }
}

/// A node's depth is below the number of node slots: its ancestors are distinct nodes.
#[verifier::rlimit(100)]
#[verifier::spinoff_prover]
pub proof fn lemma_depth_bound<T>(t: Octree<T>, i: int)
    requires
        t.wf(),
        t.is_proxy(i),
    ensures
        t.depth(i) < t.spec_proxies().len(),
{
    lemma_ancestors(t, i);
    let a = t.ancestors(i);
    assert forall|k1: int, k2: int| 0 <= k1 < a.len() && 0 <= k2 < a.len() && k1 != k2 implies a[k1] != a[k2] by {
        assert(t.depth(a[k1]) == t.depth(i) - k1);
        assert(t.depth(a[k2]) == t.depth(i) - k2);
    }
    assert(a.no_duplicates());
    a.unique_seq_to_set();
    let n = t.spec_proxies().len() as int;
    lemma_int_range(0, n);
    assert forall|x: int| a.to_set().contains(x) implies set_int_range(0, n).contains(x) by {
        let k = choose|k: int| 0 <= k < a.len() && a[k] == x;
        assert(t.is_proxy(a[k]));
    }
    lemma_len_subset(a.to_set(), set_int_range(0, n));
}

/// At depth zero a point is cut to the origin.
proof fn lemma_truncate_zero(p: NodePoint)
    requires
        in_grid(p),
    ensures
        truncate(p, 0) == (NodePoint { x: 0, y: 0, z: 0, d: 0 }),
{
    vstd::arithmetic::power2::lemma_pow2_pos(p.d as nat);
    vstd::arithmetic::div_mod::lemma_basic_div(p.x as int, pow2(p.d as nat) as int);
    vstd::arithmetic::div_mod::lemma_basic_div(p.y as int, pow2(p.d as nat) as int);
    vstd::arithmetic::div_mod::lemma_basic_div(p.z as int, pow2(p.d as nat) as int);
}

/// Shifting right by `s` and keeping the lowest bit gives the bit of `x` at `s`.
proof fn lemma_bit_at(x: u32, s: u32)
    requires
        s < 32,
    ensures
        ((x >> s) & 1) as nat == (x as nat / pow2(s as nat)) % 2,
{
    vstd::bits::lemma_u32_shr_is_div(x, s);
    let y = x >> s;
    assert((y & 1) == y % 2) by (bit_vector);
}

/// One step of the descent: the child toward `p` is the node one level deeper whose point is
/// `p` cut one level deeper.
#[verifier::rlimit(100)]
#[verifier::spinoff_prover]
proof fn lemma_descend_step<T>(t: Octree<T>, cur: int, p: NodePoint, k: int)
    requires
        t.wf(),
        in_grid(p),
        t.is_proxy(cur),
        t.proxy(cur).data is Branch,
        0 <= k < p.d,
        t.depth(cur) == k,
        t.point_of(cur) == truncate(p, k),
    ensures
        t.is_proxy(t.child(cur, octant_toward(p, k))),
        t.depth(t.child(cur, octant_toward(p, k))) == k + 1,
        t.point_of(t.child(cur, octant_toward(p, k))) == truncate(p, k + 1),
        t.descend(cur, p, k) == t.descend(t.child(cur, octant_toward(p, k)), p, k + 1),
{
    let o = octant_toward(p, k);
    let s = (p.d - 1 - k) as nat;
    lemma_coord_step(p.x as nat, s);
    lemma_coord_step(p.y as nat, s);
    lemma_coord_step(p.z as nat, s);
    let bx = (p.x as nat / pow2(s)) % 2;
    let by = (p.y as nat / pow2(s)) % 2;
    let bz = (p.z as nat / pow2(s)) % 2;
    lemma_octant_bits(bx as int, by as int, bz as int);
    assert(0 <= o < 8);
    assert(t.linked_down(cur));
    let b = t.proxy(cur).data->Branch_0 as int;
    let c = t.record(b)[o] as int;
    assert(t.is_proxy(c));
    assert(t.depth(c) == k + 1);
    assert(t.slot(c) == o);
    assert(c != t.spec_root());
    crate::octant::lemma_pow2_bound(p.d as nat);
    vstd::arithmetic::power2::lemma_pow2_pos(s);
    vstd::arithmetic::power2::lemma_pow2_pos(s + 1);
    vstd::arithmetic::div_mod::lemma_div_is_ordered(0, p.x as int, pow2(s) as int);
    vstd::arithmetic::div_mod::lemma_div_is_ordered(0, p.y as int, pow2(s) as int);
    vstd::arithmetic::div_mod::lemma_div_is_ordered(0, p.z as int, pow2(s) as int);
    vstd::arithmetic::div_mod::lemma_div_is_ordered(p.x as int, 0x1_0000_0000, pow2(s) as int);
    vstd::arithmetic::div_mod::lemma_div_is_ordered(p.y as int, 0x1_0000_0000, pow2(s) as int);
    vstd::arithmetic::div_mod::lemma_div_is_ordered(p.z as int, 0x1_0000_0000, pow2(s) as int);
    vstd::arithmetic::div_mod::lemma_div_is_ordered(p.x as int, pow2(p.d as nat) as int, pow2(s) as int);
    vstd::arithmetic::div_mod::lemma_div_is_ordered(p.y as int, pow2(p.d as nat) as int, pow2(s) as int);
    vstd::arithmetic::div_mod::lemma_div_is_ordered(p.z as int, pow2(p.d as nat) as int, pow2(s) as int);
    vstd::arithmetic::power2::lemma_pow2_adds((k + 1) as nat, s);
    vstd::arithmetic::div_mod::lemma_div_by_multiple((pow2((k + 1) as nat)) as int, pow2(s) as int);
    assert(t.point_of(c) == child_point(t.point_of(cur), o as u8));
}

/// The states of dividing void `target`: `mid` after the fresh children were pushed, `t1`
/// after the branch record `b` was stored and `target` pointed at it.
pub open spec fn split_step<T>(t0: Octree<T>, mid: Octree<T>, t1: Octree<T>, target: int, b: int, children: [u32; 8]) -> bool {
    &&& t0.wf()
    &&& t0.is_proxy(target)
    &&& t0.proxy(target).data is Void
    &&& mid.arenas_wf()
    &&& mid.spec_branches() == t0.spec_branches()
    &&& mid.spec_leaves() == t0.spec_leaves()
    &&& mid.spec_root() == t0.spec_root()
    &&& fresh_children(t0, mid, target as u32, children)
    &&& t1.arenas_wf()
    &&& t1.spec_root() == t0.spec_root()
    &&& t1.spec_leaves() == t0.spec_leaves()
    &&& !t0.is_record(b)
    &&& 0 <= b <= t0.spec_branches().len()
    &&& b < u32::MAX
    &&& mid.is_proxy(target)
    &&& t1.spec_branches() == put_at(t0.spec_branches(), b, children)
    &&& t1.spec_proxies() == mid.spec_proxies().update(target, Some(Proxy { parent: t0.proxy(target).parent, data: ProxyData::Branch(b as u32) }))
    &&& forall|i: int| 0 <= i < t1.spec_proxies().len() ==> t1.depth(i) == mid.depth(i) && t1.slot(i) == mid.slot(i)
    &&& t1.spec_proxies().len() <= u32::MAX
    &&& t1.spec_branches().len() <= u32::MAX
}

proof fn lemma_split_facts<T>(t0: Octree<T>, mid: Octree<T>, t1: Octree<T>, target: int, b: int, children: [u32; 8])
    requires
        split_step(t0, mid, t1, target, b, children),
    ensures
        t1.record(b) == children@,
        forall|i: int| 0 <= i < t1.spec_proxies().len() && i != target ==> #[trigger] t1.spec_proxies()[i] == mid.spec_proxies()[i],
        forall|b2: int| #[trigger] t0.is_record(b2) ==> t1.is_record(b2) && t1.record(b2) == t0.record(b2),
        forall|b2: int| #[trigger] t1.is_record(b2) ==> t0.is_record(b2) || b2 == b,
        t1.proxy(target).data == ProxyData::Branch(b as u32),
        t1.proxy(target).parent == t0.proxy(target).parent,
        t1.is_proxy(target),
        forall|i: int|
            #![trigger t1.is_proxy(i)]
            t0.is_proxy(i) && i != target ==> t1.is_proxy(i) && t1.proxy(i) == t0.proxy(i),
        forall|i: int|
            #![trigger t1.is_proxy(i)]
            t1.is_proxy(i) ==> t0.is_proxy(i) || exists|o: int| 0 <= o < 8 && children@[o] == i,
        forall|i: int| 0 <= i < t1.spec_proxies().len() ==> #[trigger] t1.depth(i) == mid.depth(i),
        forall|i: int| 0 <= i < t1.spec_proxies().len() ==> #[trigger] t1.slot(i) == mid.slot(i),
{
    if b < t0.spec_branches().len() {
        assert(t1.spec_branches()[b] == Some(children));
    } else {
        assert(t1.spec_branches()[b] == Some(children));
    }
    assert(t1.record(b as int) == children@);
    assert forall|i: int| 0 <= i < t1.spec_proxies().len() && i != target implies #[trigger] t1.spec_proxies()[i] == mid.spec_proxies()[i] by {}
    assert forall|b2: int| #[trigger] t0.is_record(b2) implies t1.is_record(b2) && t1.record(b2) == t0.record(b2) by {
        assert(b2 != b);
        if b < t0.spec_branches().len() {
            assert(t1.spec_branches()[b2] == t0.spec_branches()[b2]);
        } else {
            assert(t1.spec_branches()[b2] == t0.spec_branches()[b2]);
        }
    }
    assert(t1.proxy(target).data == ProxyData::Branch(b as u32));
    assert forall|i: int| #![trigger t1.is_proxy(i)] t0.is_proxy(i) && i != target implies t1.is_proxy(i) && t1.proxy(i) == t0.proxy(i) by {
        assert(mid.is_proxy(i));
    }
    assert forall|i: int| #![trigger t1.is_proxy(i)] t1.is_proxy(i) implies t0.is_proxy(i) || exists|o: int| 0 <= o < 8 && children@[o] == i by {
        if i != target {
            assert(mid.is_proxy(i));
        }
    }
    assert forall|b2: int| #[trigger] t1.is_record(b2) implies t0.is_record(b2) || b2 == b by {
        if b2 != b {
            if b < t0.spec_branches().len() {
                assert(t1.spec_branches()[b2] == t0.spec_branches()[b2]);
            } else {
                assert(t1.spec_branches()[b2] == t0.spec_branches()[b2]);
            }
        }
    }
}

proof fn lemma_split_up<T>(t0: Octree<T>, mid: Octree<T>, t1: Octree<T>, target: int, b: int, children: [u32; 8])
    requires
        split_step(t0, mid, t1, target, b, children),
    ensures
        forall|i: int| #![trigger t1.is_proxy(i)] t1.is_proxy(i) && i != t1.spec_root() ==> t1.linked_up(i),
{
    lemma_split_facts(t0, mid, t1, target, b, children);
    assert forall|i: int| #[trigger] t1.is_proxy(i) && i != t1.spec_root() implies t1.linked_up(i) by {
        if i != target {
            assert(mid.is_proxy(i));
        }
        if !t0.is_proxy(i) {
            let k = choose|k: int| 0 <= k < 8 && children@[k] == i;
            assert(children@[k] == i);
            assert(t1.proxy(i) == mid.proxy(i));
            assert(t1.parent(i) == target);
            assert(t1.slot(i) == k);
            assert(t1.child(target, k) == i);
        } else {
            assert(t0.linked_up(i));
            let p = t0.parent(i);
            assert(t0.is_proxy(p));
            assert(p != target);
            assert(mid.is_proxy(p));
            assert(t1.proxy(p) == t0.proxy(p));
            assert(t1.parent(i) == p);
            let b2 = t0.proxy(p).data->Branch_0 as int;
            assert(t0.linked_down(p));
            assert(t0.is_record(b2));
            assert(t1.record(b2) == t0.record(b2));
            assert(t1.slot(i) == t0.slot(i));
        }
    }
}

proof fn lemma_split_down<T>(t0: Octree<T>, mid: Octree<T>, t1: Octree<T>, target: int, b: int, children: [u32; 8])
    requires
        split_step(t0, mid, t1, target, b, children),
    ensures
        forall|p: int| #![trigger t1.is_proxy(p)] t1.is_proxy(p) ==> t1.linked_down(p),
{
    lemma_split_facts(t0, mid, t1, target, b, children);
    assert forall|p: int| #[trigger] t1.is_proxy(p) implies t1.linked_down(p) by {
        if p == target as int {
            assert forall|o2: int| 0 <= o2 < 8 implies {
                let c = #[trigger] t1.record(b as int)[o2] as int;
                &&& t1.is_proxy(c)
                &&& t1.parent(c) == p
                &&& t1.slot(c) == o2
                &&& t1.depth(c) == t1.depth(p) + 1
            } by {
                assert(children@[o2] == t1.record(b as int)[o2]);
            }
        } else if !t0.is_proxy(p) {
            assert(mid.is_proxy(p));
            let k = choose|k: int| 0 <= k < 8 && children@[k] == p;
            assert(children@[k] == p);
        } else {
            assert(t0.linked_down(p));
            if let ProxyData::Branch(b2) = t0.proxy(p).data {
                assert(b2 != b);
                assert forall|o2: int| 0 <= o2 < 8 implies {
                    let c = #[trigger] t1.record(b2 as int)[o2] as int;
                    &&& t1.is_proxy(c)
                    &&& t1.parent(c) == p
                    &&& t1.slot(c) == o2
                    &&& t1.depth(c) == t1.depth(p) + 1
                } by {
                    assert(t0.is_record(b2 as int));
                    assert(t0.record(b2 as int)[o2] == t1.record(b2 as int)[o2]);
                    let c = t0.record(b2 as int)[o2] as int;
                    assert(t0.is_proxy(c));
                    assert(t0.parent(c) == p);
                    assert(mid.is_proxy(p));
                    assert(t1.depth(p) == t0.depth(p));
                    assert(mid.is_proxy(c));
                    if c != target {
                        assert(t1.proxy(c) == t0.proxy(c));
                    }
                    assert(t1.depth(c) == t0.depth(c));
                    assert(t1.slot(c) == t0.slot(c));
                }
            }
        }
    }
}

proof fn lemma_split_owners<T>(t0: Octree<T>, mid: Octree<T>, t1: Octree<T>, target: int, b: int, children: [u32; 8])
    requires
        split_step(t0, mid, t1, target, b, children),
    ensures
        t1.owners_unique(),
{
    lemma_split_facts(t0, mid, t1, target, b, children);
    assert forall|p: int, q: int|
        t1.is_proxy(p) && t1.is_proxy(q) && #[trigger] t1.proxy(p).data is Branch
            && t1.proxy(p).data == #[trigger] t1.proxy(q).data implies p == q by {
        if p != q {
            assert(p != target as int ==> mid.is_proxy(p));
            assert(q != target as int ==> mid.is_proxy(q));
            if p == target as int {
                assert(t0.is_proxy(q));
                assert(t0.linked_down(q));
            } else if q == target as int {
                assert(t0.is_proxy(p));
                assert(t0.linked_down(p));
            } else if t0.is_proxy(p) && t0.is_proxy(q) {
            } else if !t0.is_proxy(p) {
                let k = choose|k: int| 0 <= k < 8 && children@[k] == p;
                assert(children@[k] == p);
            } else {
                let k = choose|k: int| 0 <= k < 8 && children@[k] == q;
                assert(children@[k] == q);
            }
        }
    }
    assert forall|p: int, q: int|
        t1.is_proxy(p) && t1.is_proxy(q) && #[trigger] t1.proxy(p).data is Leaf
            && t1.proxy(p).data == #[trigger] t1.proxy(q).data implies p == q by {
        assert(p != target as int ==> mid.is_proxy(p));
        assert(q != target as int ==> mid.is_proxy(q));
        if p != q && t0.is_proxy(p) && t0.is_proxy(q) {
        } else if !t0.is_proxy(p) {
            let k = choose|k: int| 0 <= k < 8 && children@[k] == p;
            assert(children@[k] == p);
        } else if !t0.is_proxy(q) {
            let k = choose|k: int| 0 <= k < 8 && children@[k] == q;
            assert(children@[k] == q);
        }
    }
}

#[verifier::spinoff_prover]
proof fn lemma_split_result<T>(t0: Octree<T>, mid: Octree<T>, t1: Octree<T>, target: int, b: int, children: [u32; 8])
    requires
        split_step(t0, mid, t1, target, b, children),
    ensures
        split_void(t0, t1, target, children, t1.proxy(target)),
{
    lemma_split_facts(t0, mid, t1, target, b, children);
    assert forall|o: int| 0 <= o < 8 implies #[trigger] fresh_void_child(t0, t1, target, children, o) by {
        assert(takes_first_free(t0, children, o));
        let c = children@[o] as int;
        assert(mid.is_proxy(c));
        assert(c != target);
        assert(t1.spec_proxies()[c] == mid.spec_proxies()[c]);
    }
    assert(fresh_void_children(t0, t1, target, children));
    let p = t1.proxy(target);
    assert(t1.spec_root() == t0.spec_root());
    assert(p.parent == t0.proxy(target).parent);
    assert(!t0.is_record(p.data->Branch_0 as int));
    assert(t1.record(p.data->Branch_0 as int) == children@);
    assert(forall|b2: int| #[trigger] t0.is_record(b2) ==> t1.is_record(b2) && t1.record(b2) == t0.record(b2));
    assert(forall|b2: int| #[trigger] t1.is_record(b2) ==> t0.is_record(b2) || b2 == p.data->Branch_0);
    assert(forall|i: int|
        #![trigger t1.is_proxy(i)]
        t0.is_proxy(i) && i != target ==> t1.is_proxy(i) && t1.proxy(i) == t0.proxy(i));
    assert forall|i: int| #![trigger t1.is_proxy(i)] t1.is_proxy(i) implies t0.is_proxy(i) || children@.contains(i as u32) by {
        if !t0.is_proxy(i) {
            let o = choose|o: int| 0 <= o < 8 && children@[o] == i;
            assert(children@[o] == i as u32);
        }
    }
    assert(t1.spec_leaves() == t0.spec_leaves());
}

/// After fresh children are pushed below void `target` and `target` becomes a branch over them,
/// the tree is well formed again.
#[verifier::rlimit(100)]
proof fn lemma_split_wf<T>(t0: Octree<T>, mid: Octree<T>, t1: Octree<T>, target: int, b: int, children: [u32; 8])
    requires
        split_step(t0, mid, t1, target, b, children),
    ensures
        t1.wf(),
        split_void(t0, t1, target, children, t1.proxy(target)),
{
    lemma_split_facts(t0, mid, t1, target, b, children);
    lemma_split_up(t0, mid, t1, target, b, children);
    lemma_split_down(t0, mid, t1, target, b, children);
    lemma_split_owners(t0, mid, t1, target, b, children);
    lemma_split_result(t0, mid, t1, target, b, children);
    let root = t0.spec_root();
    assert(mid.is_proxy(root));
    assert(t1.is_proxy(root));
    assert(t1.parent(root) == root);
    assert(t1.depth(root) == 0);
}

} // verus!
