//! A keyed hash tree: a single seed deriving every leaf key of a fixed
//! topology.
use vstd::prelude::*;
use crate::crypto::Key;
use crate::node::Node;
use crate::topology::Topology;

verus! {

/// A keyed hash tree over the default topology.
pub struct Kht {
    root: Node,
    topology: Topology,
}

impl Kht {
    pub closed spec fn root_view(&self) -> Node {
        self.root
    }

    pub closed spec fn topology_view(&self) -> Topology {
        self.topology
    }

    pub closed spec fn wf(&self) -> bool {
        self.topology.wf()
    }

    /// A tree whose whole-domain root has seed `key`.
    pub fn new(key: Key) -> (r: Self)
        ensures
            r.wf(),
            r.root_view().pos == (0u64, 0u64),
            r.root_view().key == key,
            r.topology_view().built_from(seq![4u64, 4u64, 4u64, 4u64]),
    {
        Self { root: Node::new(key), topology: Topology::default() }
    }

    /// The whole-domain root.
    pub fn root(&self) -> (r: &Node)
        ensures
            *r == self.root_view(),
    {
        &self.root
    }

    /// The tree geometry.
    pub fn topology(&self) -> (r: &Topology)
        ensures
            *r == self.topology_view(),
    {
        &self.topology
    }

    /// The key of leaf `leaf`.
    pub fn derive(&self, leaf: u64) -> (r: Key)
        requires
            self.wf(),
        ensures
            r@ == self.root_view().key_at(&self.topology_view(), self.topology_view().leaf(leaf)),
    {
        let pos = self.topology.leaf_position(leaf);
        proof {
            assert(self.topology.pstart(pos) == leaf);
        }
        self.root.derive(&self.topology, pos)
    }
}

} // verus!
