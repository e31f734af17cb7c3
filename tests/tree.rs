use eightfold::octant::{NodePoint, Octant, VoxelPoint};
use eightfold::tree::{Error, Octree, Proxy, ProxyData};
use eightfold::view::View;

#[test]
fn fresh_tree_has_void_root() {
    let t: Octree<u32> = Octree::new();
    assert_eq!(t.root(), 0);
    assert_eq!(t.get(0), Some(Proxy { parent: 0, data: ProxyData::Void }));
    assert_eq!(t.get(1), None);
    assert_eq!(t.node_count(), 1);
    assert_eq!(t.depth_of(0), Ok(0));
    assert_eq!(t.depth_of(3), Err(Error::InvalidIndex(3)));
}

#[test]
fn branch_then_void_restores_void() {
    let mut t: Octree<u32> = Octree::new();
    let (children, p) = t.branch(0).unwrap();
    assert_eq!(children, [1, 2, 3, 4, 5, 6, 7, 8]);
    assert_eq!(p, Proxy { parent: 0, data: ProxyData::Branch(0) });
    assert_eq!(t.node_count(), 9);
    for c in children.iter() {
        assert_eq!(t.get(*c), Some(Proxy { parent: 0, data: ProxyData::Void }));
    }
    let dropped = t.void(0);
    assert!(dropped.is_empty());
    assert_eq!(t.node_count(), 1);
    assert_eq!(t.branch_record(0), None);
    assert_eq!(t.leaf_unordered().len(), 0);
    assert_eq!(t.get(0), Some(Proxy { parent: 0, data: ProxyData::Void }));
}

#[test]
fn branch_of_branch_returns_existing_record() {
    let mut t: Octree<u32> = Octree::new();
    let (first, _) = t.branch(0).unwrap();
    let (again, p) = t.branch(0).unwrap();
    assert_eq!(first, again);
    assert_eq!(p.data, ProxyData::Branch(0));
    assert_eq!(t.node_count(), 9);
}

#[test]
fn branch_of_leaf_collides() {
    let mut t: Octree<u32> = Octree::new();
    assert!(t.set_leaf(0, 5).is_empty());
    assert_eq!(t.branch(0), Err(Error::BranchCollision));
    assert_eq!(t.node_count(), 1);
}

#[test]
fn set_leaf_displaces_previous_payload() {
    let mut t: Octree<u32> = Octree::new();
    assert_eq!(t.set_leaf(0, 10), Vec::<u32>::new());
    assert_eq!(t.set_leaf(0, 20), vec![10]);
    assert_eq!(t.leaf_unordered(), vec![&20]);
}

#[test]
fn set_leaf_on_branch_voids_subtree() {
    let mut t: Octree<u32> = Octree::new();
    let (children, _) = t.branch(0).unwrap();
    t.set_leaf(children[0], 1);
    t.set_leaf(children[3], 7);
    let (grand, _) = t.branch(children[5]).unwrap();
    t.set_leaf(grand[2], 3);
    assert_eq!(t.node_count(), 17);
    let mut dropped = t.set_leaf(0, 99);
    dropped.sort();
    assert_eq!(dropped, vec![1, 3, 7]);
    assert_eq!(t.node_count(), 1);
    assert_eq!(t.leaf_unordered(), vec![&99]);
}

#[test]
fn void_of_leaf_returns_payload() {
    let mut t: Octree<u32> = Octree::new();
    let (children, _) = t.branch(0).unwrap();
    t.set_leaf(children[2], 4);
    assert_eq!(t.void(children[2]), vec![4]);
    assert_eq!(t.void(children[2]), Vec::<u32>::new());
    assert_eq!(t.leaf_unordered().len(), 0);
}

#[test]
fn insert_twice_at_same_voxel_returns_first_payload() {
    let mut t: Octree<u32> = Octree::new();
    let path: Vec<Octant> = Vec::new();
    assert_eq!(t.insert_along(&path, 10), Ok(vec![]));
    assert_eq!(t.insert_along(&path, 20), Ok(vec![10]));
    assert_eq!(t.leaf_unordered(), vec![&20]);
    assert_eq!(t.node_point_of(0), Ok(NodePoint::new(0, 0, 0, 0)));
}

#[test]
fn insert_along_a_path_builds_branches() {
    let mut t: Octree<u32> = Octree::new();
    let path = vec![Octant(3), Octant(5)];
    assert_eq!(t.insert_along(&path, 1), Ok(vec![]));
    assert_eq!(t.insert_along(&path, 2), Ok(vec![1]));
    assert_eq!(t.node_count(), 17);
    assert_eq!(t.height(), 2);
    assert_eq!(t.grid_size(), Some(4));
    let leaf_path = vec![Octant(3)];
    assert_eq!(t.insert_along(&vec![Octant(3), Octant(5), Octant(0)], 9), Err(Error::BranchCollision));
    assert_eq!(t.insert_along(&leaf_path, 5), Ok(vec![2]));
    assert_eq!(t.node_count(), 9);
}

#[test]
fn grow_puts_old_root_at_octant() {
    let mut t: Octree<u32> = Octree::new();
    t.set_leaf(0, 42);
    let nr = t.grow(Octant(4));
    assert_eq!(t.root(), nr);
    assert_eq!(t.node_count(), 9);
    let root = t.get(nr).unwrap();
    assert_eq!(root.parent, nr);
    let b = root.branch().unwrap();
    let rec = t.branch_record(b).unwrap();
    assert_eq!(rec[4], 0);
    assert_eq!(t.get(0).unwrap().parent, nr);
    assert_eq!(t.depth_of(0), Ok(1));
    assert_eq!(t.node_point_of(0), Ok(NodePoint::new(1, 0, 0, 1)));
    assert_eq!(t.height(), 1);
    assert_eq!(t.grid_size(), Some(2));
    for o in 0..8usize {
        if o != 4 {
            assert_eq!(t.get(rec[o]), Some(Proxy { parent: nr, data: ProxyData::Void }));
        }
    }
}

#[test]
fn node_points_follow_octants() {
    let mut t: Octree<u32> = Octree::new();
    let (children, _) = t.branch(0).unwrap();
    let (grand, _) = t.branch(children[6]).unwrap();
    assert_eq!(t.node_point_of(children[6]), Ok(NodePoint::new(1, 1, 0, 1)));
    assert_eq!(t.node_point_of(grand[1]), Ok(NodePoint::new(2, 2, 1, 2)));
    assert_eq!(t.depth_of(grand[1]), Ok(2));
    assert_eq!(t.node_point_of(100), Err(Error::InvalidIndex(100)));
}

#[test]
fn views_walk_the_tree() {
    let mut t: Octree<u32> = Octree::new();
    let (children, _) = t.branch(0).unwrap();
    t.set_leaf(children[1], 8);
    let root = View::new(&t, 0);
    assert!(matches!(root.parent(), Err(Error::NoParent)));
    assert!(matches!(root.child(8), Err(Error::ChildOutOfRange(8))));
    let c = root.child(1).unwrap();
    assert_eq!(c.index(), children[1]);
    assert_eq!(c.data(), Some(&8));
    assert!(matches!(c.child(0), Err(Error::NoChildren(_))));
    assert_eq!(c.parent().unwrap().index(), 0);
    assert_eq!(root.children().len(), 8);
    assert_eq!(c.children().len(), 0);
    let mut cursor = View::new(&t, 0);
    assert_eq!(cursor.child_mut(1), Ok(()));
    assert_eq!(cursor.index(), children[1]);
    assert_eq!(cursor.parent_mut(), Ok(()));
    assert_eq!(cursor.index(), 0);
    assert_eq!(cursor.parent_mut(), Err(Error::NoParent));
}

#[test]
fn node_at_deeper_than_tree_returns_deepest_ancestor() {
    let mut t: Octree<u32> = Octree::new();
    let (children, _) = t.branch(0).unwrap();
    assert_eq!(t.node_at(&NodePoint::new(0, 0, 0, 5)), children[0]);
    assert_eq!(t.node_at(&NodePoint::new(31, 0, 31, 5)), children[5]);
    assert_eq!(t.node_at(&NodePoint::new(0, 0, 0, 0)), 0);
}

#[test]
fn node_at_finds_node_of_its_point() {
    let mut t: Octree<u32> = Octree::new();
    let (children, _) = t.branch(0).unwrap();
    let (grand, _) = t.branch(children[3]).unwrap();
    let p = NodePoint::new(1, 3, 2, 2);
    let n = t.node_at(&p);
    assert_eq!(n, grand[6]);
    assert_eq!(t.node_point_of(n), Ok(p));
    assert_eq!(t.node_at(&NodePoint::new(3, 3, 3, 2)), children[7]);
}

#[test]
fn voxel_at_checks_the_grid() {
    let mut t: Octree<u32> = Octree::new();
    let (children, _) = t.branch(0).unwrap();
    assert_eq!(t.voxel_at(&VoxelPoint { x: 1, y: 0, z: 1 }), Ok(children[5]));
    assert_eq!(
        t.voxel_at(&VoxelPoint { x: 2, y: 0, z: 0 }),
        Err(Error::VoxelOutOfGrid(2, VoxelPoint { x: 2, y: 0, z: 0 }))
    );
}

#[test]
fn leaf_dfi_lists_payloads_in_octant_order() {
    let mut t: Octree<u32> = Octree::new();
    assert_eq!(t.insert_along(&vec![], 10), Ok(vec![]));
    assert_eq!(t.insert_along(&vec![], 20), Ok(vec![10]));
    assert_eq!(t.leaf_dfi(), Some(vec![(&20, NodePoint::new(0, 0, 0, 0))]));
    t.void(0);
    let (children, _) = t.branch(0).unwrap();
    t.set_leaf(children[7], 3);
    t.set_leaf(children[1], 7);
    t.set_leaf(children[4], 1);
    assert_eq!(
        t.leaf_dfi(),
        Some(vec![
            (&7, NodePoint::new(0, 0, 1, 1)),
            (&1, NodePoint::new(1, 0, 0, 1)),
            (&3, NodePoint::new(1, 1, 1, 1)),
        ])
    );
}

#[test]
fn merge_branch_reduces_subtree() {
    let mut t: Octree<u32> = Octree::new();
    let (children, _) = t.branch(0).unwrap();
    t.set_leaf(children[0], 1);
    t.set_leaf(children[2], 7);
    t.set_leaf(children[5], 3);
    assert_eq!(t.merge_branch(0), Ok(&7));
    assert_eq!(t.node_count(), 1);
    assert_eq!(t.leaf_dfi(), Some(vec![(&7, NodePoint::new(0, 0, 0, 0))]));
    assert_eq!(t.merge_branch(0), Err(Error::NotABranch(0)));
    assert_eq!(t.merge_branch(9), Err(Error::InvalidIndex(9)));
}

#[test]
fn merge_branch_of_empty_subtree_has_no_leafs() {
    let mut t: Octree<u32> = Octree::new();
    let (children, _) = t.branch(0).unwrap();
    t.branch(children[4]).unwrap();
    assert_eq!(t.merge_branch(0), Err(Error::NoLeafs(0)));
    assert_eq!(t.node_count(), 17);
    assert_eq!(t.get(0), Some(Proxy { parent: 0, data: ProxyData::Branch(0) }));
    t.set_leaf(children[1], 4);
    t.set_leaf(children[6], 2);
    assert_eq!(t.merge_branch(0), Ok(&4));
}

#[test]
fn sample_branch_takes_maximum_without_changing_tree() {
    let mut t: Octree<u32> = Octree::new();
    assert_eq!(t.sample_branch(0), Err(Error::NotABranch(0)));
    assert_eq!(t.sample_branch(5), Err(Error::InvalidIndex(5)));
    let (children, _) = t.branch(0).unwrap();
    assert_eq!(t.sample_branch(0), Err(Error::NoLeafs(0)));
    t.set_leaf(children[0], 1);
    t.set_leaf(children[2], 7);
    t.set_leaf(children[5], 3);
    assert_eq!(t.sample_branch(0), Ok(7));
    assert_eq!(t.node_count(), 9);
}

#[test]
fn split_divides_only_void_nodes() {
    let mut t: Octree<u32> = Octree::new();
    assert_eq!(t.split(3), Err(Error::InvalidIndex(3)));
    let children = t.split(0).unwrap();
    assert_eq!(children, [1, 2, 3, 4, 5, 6, 7, 8]);
    assert_eq!(t.split(0), Err(Error::NotAVoid(0)));
    t.set_leaf(children[0], 2);
    assert_eq!(t.split(children[0]), Err(Error::NotAVoid(children[0])));
    assert_eq!(t.node_count(), 9);
}
