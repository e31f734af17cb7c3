//! An octree over index arenas: a pointer-free tree whose nodes, branch records and leaf
//! payloads live in stable-index vectors, with verified structural invariants.

pub mod laws;
pub mod mesh;
pub mod octant;
pub mod stable_vec;
pub mod tree;
pub mod view;
