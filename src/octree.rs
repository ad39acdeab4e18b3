//! A per-mesh octree of triangle indices: its construction, one node at a time, and the
//! decisions of its front-to-back traversal.
//!
//! Which triangles overlap which cell, and which cells a ray passes through, are geometric tests
//! made by the caller; their outcomes come in here as flags.
use vstd::prelude::*;
use std::collections::HashMap;
use crate::mesh::MeshAccessor;
use crate::scene::{at_distance, lemma_sort_hits_stable, sort_by_distance, sort_hits, Hit};
use crate::node::{
    addr_depth,
    addr_push,
    mask_slot,
    Leaf,
    NodeAddr,
    NodeKind,
    NodeMask,
    TriangleIndex,
};

verus! {

broadcast use vstd::std_specs::hash::group_hash_axioms;

/// Why an octree could not be built for a mesh.
#[derive(Clone, Copy, Debug, PartialEq, Eq, Structural)]
pub enum OctreeError {
    /// The mesh's bounding box is degenerate.
    InvalidAabb,
    /// The mesh reaches outside the bounding box it was given.
    MeshLargerThanAabb,
}

/// A node containing at most this many triangles becomes a leaf.
pub const LEAF_TRI_CUTOFF: usize = 8;

/// The triangles of `tris` whose flag in `flags` is set, in order.
pub open spec fn keep<T>(tris: Seq<T>, flags: Seq<bool>) -> Seq<T>
    decreases tris.len(),
{
    if tris.len() == 0 {
        tris
    } else if flags[tris.len() - 1] {
        keep(tris.drop_last(), flags).push(tris.last())
    } else {
        keep(tris.drop_last(), flags)
    }
}

/// What a child with `count` triangles at `depth` becomes.
pub open spec fn classify(count: nat, depth: nat) -> NodeKind {
    if count == 0 {
        NodeKind::Empty
    } else if count <= LEAF_TRI_CUTOFF || depth >= NodeAddr::MAX_NODE_DEPTH {
        NodeKind::Leaf
    } else {
        NodeKind::Node
    }
}

/// An entry of the build stack: a node's address and the triangles that overlap its cell.
#[derive(Debug)]
pub struct NodeStackEntry {
    pub address: NodeAddr,
    pub triangles: Vec<TriangleIndex>,
}

impl NodeStackEntry {
    pub fn new(address: NodeAddr, triangles: Vec<TriangleIndex>) -> (r: Self)
        ensures
            r.address == address,
            r.triangles@ == triangles@,
    {
        NodeStackEntry { address, triangles }
    }

    /// The triangles that overlap this node's cell.
    pub fn triangles(&self) -> (r: &[TriangleIndex])
        ensures
            r@ == self.triangles@,
    {
        self.triangles.as_slice()
    }

    /// Sets the address to point to a leaf.
    pub fn to_leaf(self) -> (r: Self)
        ensures
            r.address.address == self.address.address | 1u32,
            r.triangles@ == self.triangles@,
    {
        NodeStackEntry { address: self.address.to_leaf(), triangles: self.triangles }
    }

    /// Sets the address to point to a node.
    pub fn to_node(self) -> (r: Self)
        ensures
            r.address.address == self.address.address & 0xFFFF_FFFEu32,
            r.triangles@ == self.triangles@,
    {
        NodeStackEntry { address: self.address.to_node(), triangles: self.triangles }
    }

    /// The child in `slot`, holding the triangles whose flag in `overlaps` is set: those whose
    /// bounding box overlaps the child's cell.
    pub fn build_child_from_intersecting_tris(&self, slot: u8, overlaps: &Vec<bool>) -> (r: NodeStackEntry)
        requires
            overlaps.len() == self.triangles.len(),
        ensures
            r.address.address == addr_push(self.address.address, slot, false),
            r.triangles@ == keep(self.triangles@, overlaps@),
    {
        let mut kept: Vec<TriangleIndex> = Vec::new();
        let mut i: usize = 0;
        while i < self.triangles.len()
            invariant
                i <= self.triangles.len(),
                overlaps.len() == self.triangles.len(),
                kept@ == keep(self.triangles@.take(i as int), overlaps@),
            decreases self.triangles.len() - i,
        {
            proof {
                assert(self.triangles@.take(i + 1).drop_last() =~= self.triangles@.take(i as int));
            }
            if overlaps[i] {
                kept.push(self.triangles[i]);
            }
            i = i + 1;
        }
        proof {
            assert(self.triangles@.take(self.triangles.len() as int) =~= self.triangles@);
        }
        NodeStackEntry { address: self.address.push_bits(slot, false), triangles: kept }
    }
}

/// The address and triangles of child `slot` of a node at `address` holding `tris`.
pub open spec fn child_of(address: u32, tris: Seq<u32>, overlaps: Seq<Seq<bool>>, slot: int) -> (
    u32,
    Seq<u32>,
) {
    (addr_push(address, slot as u8, false), keep(tris, overlaps[slot]))
}

/// What child `slot` of a node at `address` holding `tris` becomes.
pub open spec fn child_kind(address: u32, tris: Seq<u32>, overlaps: Seq<Seq<bool>>, slot: int) -> NodeKind {
    let c = child_of(address, tris, overlaps, slot);
    classify(c.1.len(), addr_depth(c.0))
}

/// The leaves after the children in slots `7, 6, ..., 8 - n` are taken, starting from `base`.
pub open spec fn with_leaf_children(
    base: Map<u32, Seq<u32>>,
    address: u32,
    tris: Seq<u32>,
    overlaps: Seq<Seq<bool>>,
    n: int,
) -> Map<u32, Seq<u32>>
    decreases n,
{
    if n <= 0 {
        base
    } else {
        let prev = with_leaf_children(base, address, tris, overlaps, n - 1);
        let slot = 8 - n;
        let c = child_of(address, tris, overlaps, slot);
        if child_kind(address, tris, overlaps, slot) == NodeKind::Leaf {
            prev.insert(c.0 | 1u32, c.1)
        } else {
            prev
        }
    }
}

/// The children among slots `7, 6, ..., 8 - n` that are subdivided further, in that order.
pub open spec fn node_children(address: u32, tris: Seq<u32>, overlaps: Seq<Seq<bool>>, n: int) -> Seq<
    (u32, Seq<u32>),
>
    decreases n,
{
    if n <= 0 {
        Seq::empty()
    } else {
        let prev = node_children(address, tris, overlaps, n - 1);
        let slot = 8 - n;
        if child_kind(address, tris, overlaps, slot) == NodeKind::Node {
            prev.push(child_of(address, tris, overlaps, slot))
        } else {
            prev
        }
    }
}

/// The state of an octree under construction.
#[derive(Debug)]
pub struct OctreeBuildData {
    /// The child mask of every internal node, keyed by its node address.
    pub nodes: HashMap<u32, NodeMask>,
    /// The triangles of every leaf, keyed by its leaf address.
    pub leaves: HashMap<u32, Leaf>,
    /// The nodes that still have to be subdivided.
    pub node_stack: Vec<NodeStackEntry>,
}

impl OctreeBuildData {
    /// The child masks, by node address.
    pub open spec fn node_map(&self) -> Map<u32, u16> {
        self.nodes@.map_values(|m: NodeMask| m.children)
    }

    /// The leaves' triangles, by leaf address.
    pub open spec fn leaf_map(&self) -> Map<u32, Seq<u32>> {
        self.leaves@.map_values(|l: Leaf| l.triangles@)
    }

    /// The build stack as addresses and triangles.
    pub open spec fn stack_view(&self) -> Seq<(u32, Seq<u32>)> {
        self.node_stack@.map_values(|e: NodeStackEntry| (e.address.address, e.triangles@))
    }

    /// The start of a build: no nodes or leaves yet, and the root on the stack with every
    /// triangle of the mesh.
    pub fn from_mesh(mesh: &MeshAccessor) -> (r: Self)
        ensures
            r.node_map() == Map::<u32, u16>::empty(),
            r.leaf_map() == Map::<u32, Seq<u32>>::empty(),
            r.node_stack.len() == 1,
            r.node_stack@[0].address.address == 2,
            forall|k: int|
                0 <= k < r.node_stack@[0].triangles.len() ==> #[trigger] r.node_stack@[0].triangles@[k]
                    == k && mesh.spec_triangle(k as nat).is_some(),
            r.node_stack@[0].triangles.len() == mesh.spec_triangle_count() || r.node_stack@[0].triangles.len()
                == u32::MAX || mesh.spec_triangle(r.node_stack@[0].triangles.len() as nat).is_none(),
    {
        let root = NodeStackEntry::new(NodeAddr::new_root(), mesh.iter_triangles());
        let nodes: HashMap<u32, NodeMask> = HashMap::new();
        let leaves: HashMap<u32, Leaf> = HashMap::new();
        let mut node_stack: Vec<NodeStackEntry> = Vec::new();
        node_stack.push(root);
        let r = OctreeBuildData { nodes, leaves, node_stack };
        assert(r.node_map() =~= Map::<u32, u16>::empty());
        assert(r.leaf_map() =~= Map::<u32, Seq<u32>>::empty());
        r
    }

    fn insert_leaf(&mut self, node: NodeStackEntry)
        ensures
            final(self).node_map() == old(self).node_map(),
            final(self).leaf_map() == old(self).leaf_map().insert(
                node.address.address | 1u32,
                node.triangles@,
            ),
            final(self).stack_view() == old(self).stack_view(),
    {
        let address = node.address.to_leaf().address;
        self.leaves.insert(address, Leaf::new(node.triangles));
        assert(self.leaf_map() =~= old(self).leaf_map().insert(address, node.triangles@));
    }

    fn insert_node(&mut self, address: NodeAddr, node: NodeMask)
        ensures
            final(self).node_map() == old(self).node_map().insert(
                address.address & 0xFFFF_FFFEu32,
                node.children,
            ),
            final(self).leaf_map() == old(self).leaf_map(),
            final(self).stack_view() == old(self).stack_view(),
    {
        let key = address.to_node().address;
        self.nodes.insert(key, node);
        assert(self.node_map() =~= old(self).node_map().insert(key, node.children));
    }

    fn push_stack(&mut self, node: NodeStackEntry)
        ensures
            final(self).node_map() == old(self).node_map(),
            final(self).leaf_map() == old(self).leaf_map(),
            final(self).stack_view() == old(self).stack_view().push(
                (node.address.address, node.triangles@),
            ),
    {
        self.node_stack.push(node);
        assert(self.stack_view() =~= old(self).stack_view().push(
            (node.address.address, node.triangles@),
        ));
    }

    /// Takes the next node to subdivide off the stack.
    pub fn pop_stack(&mut self) -> (r: Option<NodeStackEntry>)
        ensures
            final(self).node_map() == old(self).node_map(),
            final(self).leaf_map() == old(self).leaf_map(),
            old(self).node_stack.len() == 0 ==> r.is_none() && final(self).stack_view() == old(
                self,
            ).stack_view(),
            old(self).node_stack.len() > 0 ==> r.is_some() && final(self).stack_view() == old(
                self,
            ).stack_view().drop_last() && (r.unwrap().address.address, r.unwrap().triangles@) == old(
                self,
            ).stack_view().last(),
    {
        let r = self.node_stack.pop();
        assert(self.stack_view() =~= old(self).stack_view().take(self.node_stack.len() as int));
        r
    }

    /// Evaluates a child: an empty one is dropped, one with few triangles or at the depth limit
    /// becomes a leaf, and any other is pushed to be subdivided in turn.
    pub fn consume_child_data(&mut self, child: NodeStackEntry) -> (r: NodeKind)
        ensures
            r == classify(child.triangles.len() as nat, addr_depth(child.address.address)),
            final(self).node_map() == old(self).node_map(),
            final(self).leaf_map() == (if r == NodeKind::Leaf {
                old(self).leaf_map().insert(child.address.address | 1u32, child.triangles@)
            } else {
                old(self).leaf_map()
            }),
            final(self).stack_view() == (if r == NodeKind::Node {
                old(self).stack_view().push((child.address.address, child.triangles@))
            } else {
                old(self).stack_view()
            }),
    {
        let cutoff_reached = child.triangles.len() <= LEAF_TRI_CUTOFF;
        let depth_limit_reached = child.address.depth() >= NodeAddr::MAX_NODE_DEPTH;
        if child.triangles.len() == 0 {
            NodeKind::Empty
        } else if cutoff_reached || depth_limit_reached {
            self.insert_leaf(child);
            NodeKind::Leaf
        } else {
            self.push_stack(child);
            NodeKind::Node
        }
    }

    /// Subdivides `entry`: each of its eight children keeps the triangles flagged for it in
    /// `overlaps` and is classified in turn, from slot 7 down to slot 0; then the node's child
    /// mask is recorded.
    pub fn build_node(&mut self, entry: &NodeStackEntry, overlaps: &Vec<Vec<bool>>) -> (r: NodeMask)
        requires
            overlaps.len() == 8,
            forall|i: int| 0 <= i < 8 ==> #[trigger] overlaps@[i].len() == entry.triangles.len(),
        ensures
            forall|i: u16|
                0 <= i < 8 ==> #[trigger] mask_slot(r.children, i) == child_kind(
                    entry.address.address,
                    entry.triangles@,
                    overlaps@.map_values(|v: Vec<bool>| v@),
                    i as int,
                ).spec_code(),
            final(self).node_map() == old(self).node_map().insert(
                entry.address.address & 0xFFFF_FFFEu32,
                r.children,
            ),
            final(self).leaf_map() == with_leaf_children(
                old(self).leaf_map(),
                entry.address.address,
                entry.triangles@,
                overlaps@.map_values(|v: Vec<bool>| v@),
                8,
            ),
            final(self).stack_view() == old(self).stack_view() + node_children(
                entry.address.address,
                entry.triangles@,
                overlaps@.map_values(|v: Vec<bool>| v@),
                8,
            ),
    {
        let ghost a = entry.address.address;
        let ghost tris = entry.triangles@;
        let ghost ovl = overlaps@.map_values(|v: Vec<bool>| v@);
        let mut mask = NodeMask::default();
        let mut n: u8 = 0;
        while n < NodeMask::SLOTS
            invariant
                n <= 8,
                overlaps.len() == 8,
                forall|i: int| 0 <= i < 8 ==> #[trigger] overlaps@[i].len() == entry.triangles.len(),
                a == entry.address.address,
                tris == entry.triangles@,
                ovl == overlaps@.map_values(|v: Vec<bool>| v@),
                forall|q: u16|
                    0 <= q < n ==> #[trigger] mask_slot(mask.children, q) == child_kind(
                        a,
                        tris,
                        ovl,
                        8 - n + q,
                    ).spec_code(),
                self.node_map() == old(self).node_map(),
                self.leaf_map() == with_leaf_children(old(self).leaf_map(), a, tris, ovl, n as int),
                self.stack_view() == old(self).stack_view() + node_children(a, tris, ovl, n as int),
            decreases 8 - n,
        {
            let slot: u8 = 7 - n;
            let child = entry.build_child_from_intersecting_tris(slot, &overlaps[slot as usize]);
            assert(ovl[slot as int] == overlaps@[slot as int]@);
            let ghost c = child_of(a, tris, ovl, slot as int);
            assert(child.address.address == c.0 && child.triangles@ == c.1);
            let kind = self.consume_child_data(child);
            assert(kind == child_kind(a, tris, ovl, slot as int));
            let ghost old_mask = mask.children;
            mask.push_child(kind);
            n = n + 1;
            assert forall|q: u16| 0 <= q < n implies #[trigger] mask_slot(mask.children, q)
                == child_kind(a, tris, ovl, 8 - n + q).spec_code() by {
                if q > 0 {
                    assert(mask_slot(mask.children, ((q - 1) as u16 + 1) as u16) == mask_slot(
                        old_mask,
                        (q - 1) as u16,
                    ));
                }
            }
            assert(self.stack_view() =~= old(self).stack_view() + node_children(
                a,
                tris,
                ovl,
                n as int,
            ));
        }
        self.insert_node(entry.address, mask);
        mask
    }

    /// The finished octree.
    pub fn into_octree(self) -> (r: MeshOctree)
        ensures
            r.node_map() == self.node_map(),
            r.leaf_map() == self.leaf_map(),
    {
        MeshOctree { nodes: self.nodes, leaves: self.leaves }
    }
}

/// The octree of one mesh: child masks of internal nodes and triangle lists of leaves, keyed by
/// address.
#[derive(Debug)]
pub struct MeshOctree {
    pub nodes: HashMap<u32, NodeMask>,
    pub leaves: HashMap<u32, Leaf>,
}

impl MeshOctree {
    /// The child masks, by node address.
    pub open spec fn node_map(&self) -> Map<u32, u16> {
        self.nodes@.map_values(|m: NodeMask| m.children)
    }

    /// The leaves' triangles, by leaf address.
    pub open spec fn leaf_map(&self) -> Map<u32, Seq<u32>> {
        self.leaves@.map_values(|l: Leaf| l.triangles@)
    }

    /// The triangles of the leaf at `address`, if there is one.
    pub fn leaf_triangles(&self, address: NodeAddr) -> (r: Option<&[TriangleIndex]>)
        ensures
            r.is_some() == self.leaf_map().contains_key(address.address),
            r.is_some() ==> r.unwrap()@ == self.leaf_map()[address.address],
    {
        match self.leaves.get(&address.address) {
            Some(leaf) => Some(leaf.triangles()),
            None => None,
        }
    }

    /// The non-empty children of the node at `address`, visited in `node_order`, each tagged as a
    /// leaf or a node; `None` where there is no such node or its mask holds the unused code in a
    /// visited slot.
    pub fn expand_child_nodes(&self, address: NodeAddr, node_order: &Vec<u8>) -> (r: Option<
        Vec<NodeAddr>,
    >)
        requires
            forall|i: int| 0 <= i < node_order.len() ==> #[trigger] node_order@[i] < 8,
        ensures
            !self.node_map().contains_key(address.address) ==> r.is_none(),
            self.node_map().contains_key(address.address) ==> match ordered_children(
                self.node_map()[address.address],
                address.address,
                node_order@,
            ) {
                Some(v) => r.is_some() && r.unwrap()@.map_values(|c: NodeAddr| c.address) == v,
                None => r.is_none(),
            },
    {
        let mask = match self.node_mask(address) {
            Some(m) => m,
            None => return None,
        };
        let ghost m = mask.children;
        let mut out: Vec<NodeAddr> = Vec::new();
        let mut i: usize = 0;
        while i < node_order.len()
            invariant
                i <= node_order.len(),
                forall|j: int| 0 <= j < node_order.len() ==> #[trigger] node_order@[j] < 8,
                m == mask.children,
                self.node_map().contains_key(address.address),
                m == self.node_map()[address.address],
                ordered_children(m, address.address, node_order@.take(i as int)) == Some(
                    out@.map_values(|c: NodeAddr| c.address),
                ),
            decreases node_order.len() - i,
        {
            let slot = node_order[i];
            proof {
                assert(node_order@.take(i + 1).drop_last() =~= node_order@.take(i as int));
                assert(node_order@.take(i + 1).last() == slot);
            }
            let kind = mask.child_kind(slot);
            match kind {
                Some(NodeKind::Empty) => {},
                Some(NodeKind::Node) => {
                    let c = address.push_bits(slot, false);
                    out.push(c);
                },
                Some(NodeKind::Leaf) => {
                    let c = address.push_bits(slot, true);
                    out.push(c);
                },
                None => {
                    proof {
                        lemma_ordered_children_stays_none(m, address.address, node_order@, i + 1);
                    }
                    return None;
                },
            }
            proof {
                assert(out@.map_values(|c: NodeAddr| c.address) =~= ordered_children(
                    m,
                    address.address,
                    node_order@.take(i + 1),
                ).unwrap());
            }
            i = i + 1;
        }
        proof {
            assert(node_order@.take(node_order.len() as int) =~= node_order@);
        }
        Some(out)
    }

    /// The child mask of the node at `address`, if there is one.
    pub fn node_mask(&self, address: NodeAddr) -> (r: Option<NodeMask>)
        ensures
            r.is_some() == self.node_map().contains_key(address.address),
            r.is_some() ==> r.unwrap().children == self.node_map()[address.address],
    {
        match self.nodes.get(&address.address) {
            Some(mask) => Some(*mask),
            None => None,
        }
    }
}

/// The addresses of the non-empty children of a node at `address` with mask `mask`, visited in
/// `order`; `None` where a visited slot holds the unused code.
pub open spec fn ordered_children(mask: u16, address: u32, order: Seq<u8>) -> Option<Seq<u32>>
    decreases order.len(),
{
    if order.len() == 0 {
        Some(Seq::empty())
    } else {
        let slot = order.last();
        let code = mask_slot(mask, slot as u16);
        match ordered_children(mask, address, order.drop_last()) {
            None => None,
            Some(prev) => if code == 0 {
                Some(prev)
            } else if code == 1 {
                Some(prev.push(addr_push(address, slot, false)))
            } else if code == 2 {
                Some(prev.push(addr_push(address, slot, true)))
            } else {
                None
            },
        }
    }
}

proof fn lemma_ordered_children_stays_none(mask: u16, address: u32, order: Seq<u8>, k: int)
    requires
        0 < k <= order.len(),
        mask_slot(mask, order[k - 1] as u16) >= 3,
    ensures
        ordered_children(mask, address, order).is_none(),
    decreases order.len(),
{
    if order.len() > k {
        lemma_ordered_children_stays_none(mask, address, order.drop_last(), k);
    } else {
        assert(order.last() == order[k - 1]);
    }
}

/// `s` with the entries flagged in `flags` kept, last first.
pub open spec fn kept_nearest_last<T>(s: Seq<T>, flags: Seq<bool>) -> Seq<T>
    decreases s.len(),
{
    if s.len() == 0 {
        s
    } else {
        let rest = kept_nearest_last(s.drop_first(), flags.drop_first());
        if flags[0] {
            rest.push(s[0])
        } else {
            rest
        }
    }
}

/// What a traversal does next.
#[derive(Debug)]
pub enum TraversalStep {
    /// Nothing is left to visit: the ray hits no triangle of the octree.
    Done,
    /// Test the ray against the triangles of this leaf; the first hit found is the nearest.
    Leaf(NodeAddr),
    /// Test the ray against the cells of these children, nearest first, and push those it
    /// passes through.
    Children { children: Vec<NodeAddr> },
    /// The octree does not hold the node that was reached.
    Malformed,
}

/// The stack of a front-to-back traversal of an octree.
#[derive(Debug)]
pub struct OctreeTraversal {
    pub stack: Vec<NodeAddr>,
}

impl OctreeTraversal {
    /// A traversal that starts at the root.
    pub fn new() -> (r: Self)
        ensures
            r.stack@ == seq![NodeAddr { address: 2 }],
    {
        let mut stack: Vec<NodeAddr> = Vec::new();
        stack.push(NodeAddr::new_root());
        OctreeTraversal { stack }
    }

    /// The next address to visit, if any is left.
    pub fn next(&mut self) -> (r: Option<NodeAddr>)
        ensures
            old(self).stack.len() == 0 ==> r.is_none() && final(self).stack@ == old(self).stack@,
            old(self).stack.len() > 0 ==> r == Some(old(self).stack@.last()) && final(self).stack@
                == old(self).stack@.drop_last(),
    {
        self.stack.pop()
    }

    /// Takes the next address off the stack and says what to do with it: test a leaf, or look
    /// at a node's children in `node_order`.
    pub fn advance(&mut self, octree: &MeshOctree, node_order: &Vec<u8>) -> (r: TraversalStep)
        requires
            forall|i: int| 0 <= i < node_order.len() ==> #[trigger] node_order@[i] < 8,
        ensures
            old(self).stack.len() == 0 ==> r == TraversalStep::Done && final(self).stack@ == old(
                self,
            ).stack@,
            old(self).stack.len() > 0 ==> final(self).stack@ == old(self).stack@.drop_last(),
            old(self).stack.len() > 0 && old(self).stack@.last().is_leaf_spec() ==> r
                == TraversalStep::Leaf(old(self).stack@.last()),
            old(self).stack.len() > 0 && !old(self).stack@.last().is_leaf_spec() ==> {
                let a = old(self).stack@.last().address;
                if octree.node_map().contains_key(a) && ordered_children(
                    octree.node_map()[a],
                    a,
                    node_order@,
                ).is_some() {
                    r is Children && r->children@.map_values(|c: NodeAddr| c.address)
                        == ordered_children(octree.node_map()[a], a, node_order@).unwrap()
                } else {
                    r == TraversalStep::Malformed
                }
            },
    {
        match self.stack.pop() {
            None => TraversalStep::Done,
            Some(address) => {
                if address.is_leaf() {
                    TraversalStep::Leaf(address)
                } else {
                    match octree.expand_child_nodes(address, node_order) {
                        Some(children) => TraversalStep::Children { children },
                        None => TraversalStep::Malformed,
                    }
                }
            },
        }
    }

    /// Pushes the children whose cell the ray passes through (`hit`), the first of `children`
    /// last, so that the nearest child is visited next.
    pub fn push_children(&mut self, children: &Vec<NodeAddr>, hit: &Vec<bool>)
        requires
            children.len() == hit.len(),
        ensures
            final(self).stack@ == old(self).stack@ + kept_nearest_last(children@, hit@),
    {
        let n = children.len();
        let mut i: usize = n;
        while i > 0
            invariant
                i <= n,
                n == children.len(),
                children.len() == hit.len(),
                self.stack@ == old(self).stack@ + kept_nearest_last(
                    children@.skip(i as int),
                    hit@.skip(i as int),
                ),
            decreases i,
        {
            proof {
                assert(children@.skip(i - 1).drop_first() =~= children@.skip(i as int));
                assert(hit@.skip(i - 1).drop_first() =~= hit@.skip(i as int));
                assert(children@.skip(i - 1)[0] == children@[i - 1]);
                assert(hit@.skip(i - 1)[0] == hit@[i - 1]);
            }
            if hit[i - 1] {
                self.stack.push(children[i - 1]);
            }
            i = i - 1;
            proof {
                assert(self.stack@ =~= old(self).stack@ + kept_nearest_last(
                    children@.skip(i as int),
                    hit@.skip(i as int),
                ));
            }
        }
        proof {
            assert(children@.skip(0) =~= children@);
            assert(hit@.skip(0) =~= hit@);
        }
    }
}

/// The eight slots of a node, each at the key of its corner's projection.
pub open spec fn slot_keys(projection_keys: Seq<u32>) -> Seq<Hit> {
    Seq::new(8, |i: int| Hit { distance: projection_keys[i], entity: i as u64 })
}

/// The order in which a ray meets the eight children of any node: the slots sorted by the key
/// of the projection of their corner onto the ray direction, equal keys by slot.
pub fn node_intersect_order(projection_keys: &Vec<u32>) -> (r: Vec<u8>)
    requires
        projection_keys.len() == 8,
    ensures
        r@ == sort_hits(slot_keys(projection_keys@)).map_values(|h: Hit| h.entity as u8),
{
    let mut slots: Vec<Hit> = Vec::new();
    let mut i: usize = 0;
    while i < 8
        invariant
            i <= 8,
            projection_keys.len() == 8,
            slots@ =~= Seq::new(
                i as nat,
                |j: int| Hit { distance: projection_keys@[j], entity: j as u64 },
            ),
        decreases 8 - i,
    {
        slots.push(Hit { distance: projection_keys[i], entity: i as u64 });
        i = i + 1;
    }
    assert(slots@ =~= slot_keys(projection_keys@));
    let sorted = sort_by_distance(&slots);
    let mut order: Vec<u8> = Vec::new();
    let mut k: usize = 0;
    while k < sorted.len()
        invariant
            k <= sorted.len(),
            order@ =~= sorted@.take(k as int).map_values(|h: Hit| h.entity as u8),
        decreases sorted.len() - k,
    {
        order.push(sorted[k].entity as u8);
        k = k + 1;
    }
    proof {
        assert(sorted@.take(sorted.len() as int) =~= sorted@);
    }
    order
}

/// Slots whose corners project to the same key are met in ascending slot order.
pub proof fn lemma_node_order_ties(projection_keys: Seq<u32>, d: u32)
    requires
        projection_keys.len() == 8,
    ensures
        at_distance(sort_hits(slot_keys(projection_keys)), d) == at_distance(
            slot_keys(projection_keys),
            d,
        ),
{
    lemma_sort_hits_stable(slot_keys(projection_keys), d);
}
} // verus!
