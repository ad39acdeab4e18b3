//! Compact encodings of octree nodes: child masks, node addresses and leaves.
use vstd::prelude::*;
use vstd::arithmetic::power::{pow, lemma_pow0};
use vstd::arithmetic::power2::{
    lemma2_to64,
    lemma_pow2,
    lemma_pow2_pos,
    lemma_pow2_strictly_increases,
    lemma_pow2_unfold,
    pow2,
};

verus! {

/// Index of a triangle within a mesh.
pub type TriangleIndex = u32;

/// What one of the eight slots of a node holds.
#[derive(Clone, Copy, Debug, PartialEq, Eq, Structural)]
pub enum NodeKind {
    /// An empty node that will become a dead end in the tree.
    Empty,
    /// A node that contains more child nodes.
    Node,
    /// A leaf node that contains only triangles.
    Leaf,
}

impl NodeKind {
    /// The two-bit code of this kind inside a [`NodeMask`].
    pub open spec fn spec_code(self) -> u16 {
        match self {
            NodeKind::Empty => 0,
            NodeKind::Node => 1,
            NodeKind::Leaf => 2,
        }
    }

    /// The two-bit code of this kind inside a [`NodeMask`].
    pub fn code(&self) -> (r: u16)
        ensures
            r == self.spec_code(),
    {
        match self {
            NodeKind::Empty => 0,
            NodeKind::Node => 1,
            NodeKind::Leaf => 2,
        }
    }

    /// The kind that a two-bit slot code stands for; `None` for the unused code `0b11`.
    pub open spec fn spec_from_code(code: u16) -> Option<NodeKind> {
        if code == 0 {
            Some(NodeKind::Empty)
        } else if code == 1 {
            Some(NodeKind::Node)
        } else if code == 2 {
            Some(NodeKind::Leaf)
        } else {
            None
        }
    }
}

/// The two-bit code stored in slot `i` (0 to 7) of a child mask.
pub open spec fn mask_slot(children: u16, i: u16) -> u16 {
    (children >> ((2 * i) as u16)) & 3u16
}

/// The mask after pushing a child code onto its right side.
pub open spec fn mask_push(children: u16, code: u16) -> u16 {
    (children << 2u16) | code
}

/// Pushing a code moves every slot one place up and puts the code in slot 0.
pub proof fn lemma_mask_push(children: u16, code: u16)
    requires
        code < 4,
    ensures
        mask_slot(mask_push(children, code), 0) == code,
        forall|i: u16| 0 <= i < 7 ==> #[trigger] mask_slot(mask_push(children, code), (i + 1) as u16)
            == mask_slot(children, i),
{
    assert(mask_slot(mask_push(children, code), 0) == code) by (bit_vector)
        requires
            code < 4,
    ;
    assert forall|i: u16| 0 <= i < 7 implies #[trigger] mask_slot(
        mask_push(children, code),
        (i + 1) as u16,
    ) == mask_slot(children, i) by {
        assert(0 <= i < 7 ==> ((((children << 2u16) | code) >> ((2 * ((i + 1) as u16)) as u16)) & 3u16)
            == ((children >> ((2 * i) as u16)) & 3u16)) by (bit_vector)
            requires
                code < 4,
        ;
    }
}

/// The children of an octree node: eight two-bit slots, slot `i` in bits `2i` and `2i + 1`.
///
/// ```text
/// octree cell:  7  6  5  4  3  2  1  0
/// node data     00 00 00 00 00 00 00 00  (u16)
/// ```
///
/// `00` is an empty slot, `01` a node, `10` a leaf; `11` is unused. The address of a child is the
/// parent's address with the slot index pushed onto it.
#[derive(Clone, Copy, Debug)]
pub struct NodeMask {
    pub children: u16,
}

impl Default for NodeMask {
    fn default() -> (r: Self)
        ensures
            r.children == 0,
    {
        NodeMask { children: 0 }
    }
}

impl NodeMask {
    /// The number of nodes held inside a parent node.
    pub const SLOTS: u8 = 8;

    /// The raw mask.
    pub fn children(&self) -> (r: u16)
        ensures
            r == self.children,
    {
        self.children
    }

    /// Pushes a child's node data into this mask: every slot moves one place up and the child
    /// lands in slot 0.
    pub fn push_child(&mut self, child: NodeKind)
        ensures
            final(self).children == mask_push(old(self).children, child.spec_code()),
            mask_slot(final(self).children, 0) == child.spec_code(),
            forall|i: u16|
                0 <= i < 7 ==> #[trigger] mask_slot(final(self).children, (i + 1) as u16)
                    == mask_slot(old(self).children, i),
    {
        proof {
            lemma_mask_push(self.children, child.spec_code());
        }
        self.children = (self.children << 2u16) | child.code();
    }

    /// The kind of the child in `slot`, or `None` where the slot holds the unused code.
    pub fn child_kind(&self, slot: u8) -> (r: Option<NodeKind>)
        requires
            slot < 8,
        ensures
            r == NodeKind::spec_from_code(mask_slot(self.children, slot as u16)),
    {
        let shift: u16 = (slot as u16) * 2;
        let state: u16 = (self.children >> shift) & 3u16;
        assert(state == mask_slot(self.children, slot as u16));
        if state == 0 {
            Some(NodeKind::Empty)
        } else if state == 1 {
            Some(NodeKind::Node)
        } else if state == 2 {
            Some(NodeKind::Leaf)
        } else {
            None
        }
    }
}

/// The triangles of one leaf of an octree.
#[derive(Clone, Debug)]
pub struct Leaf {
    pub triangles: Vec<TriangleIndex>,
}

impl Leaf {
    pub fn new(triangles: Vec<TriangleIndex>) -> (r: Self)
        ensures
            r.triangles@ == triangles@,
    {
        Leaf { triangles }
    }

    /// The indices of the triangles whose bounding boxes overlap this leaf's cell.
    pub fn triangles(&self) -> (r: &[u32])
        ensures
            r@ == self.triangles@,
    {
        self.triangles.as_slice()
    }
}

/// The number of significant bits of `x`.
pub open spec fn bit_len(x: u32) -> nat
    decreases x,
{
    if x == 0 {
        0
    } else {
        1 + bit_len(x / 2)
    }
}

/// A value below `2^n` has at most `n` significant bits.
pub proof fn lemma_bit_len_below(x: u32, n: nat)
    requires
        x < pow2(n),
    ensures
        bit_len(x) <= n,
    decreases n,
{
    if x > 0 {
        if n == 0 {
            lemma_pow2(0);
            assert(pow(2, 0) == 1) by {
                lemma_pow0(2);
            }
        } else {
            lemma_pow2_unfold(n);
            lemma_bit_len_below(x / 2, (n - 1) as nat);
        }
    }
}

/// A positive value has as many significant bits as the power of two just above it.
proof fn lemma_bit_len_bounds(x: u32)
    requires
        x > 0,
    ensures
        bit_len(x) >= 1,
        pow2((bit_len(x) - 1) as nat) <= x < pow2(bit_len(x)),
    decreases x,
{
    if x == 1 {
        assert(bit_len(0) == 0);
        lemma_pow2(0);
        lemma_pow0(2);
        lemma_pow2_unfold(1);
    } else {
        lemma_bit_len_bounds(x / 2);
        lemma_pow2_unfold(bit_len(x));
        lemma_pow2_unfold(bit_len(x / 2));
    }
}

/// A value between `2^(n-1)` and `2^n` has exactly `n` significant bits.
proof fn lemma_bit_len_exact(x: u32, n: nat)
    requires
        n >= 1,
        pow2((n - 1) as nat) <= x < pow2(n),
    ensures
        bit_len(x) == n,
{
    lemma_pow2_pos((n - 1) as nat);
    lemma_bit_len_bounds(x);
    let b = bit_len(x);
    if b + 1 < n {
        lemma_pow2_strictly_increases(b, (n - 1) as nat);
    } else if b > n + 1 {
        lemma_pow2_strictly_increases(n, (b - 1) as nat);
    }
}

/// A well-formed address: a header bit followed by whole XYZ triplets and the leaf bit.
pub open spec fn addr_well_formed(address: u32) -> bool {
    bit_len(address) >= 2 && (bit_len(address) - 2) % 3 == 0
}

/// Pushing a slot onto a well-formed address of fewer than ten levels gives a well-formed
/// address one level deeper: the parent's path stays above it and the slot becomes its last
/// triplet.
pub proof fn lemma_push_bits_depth(address: u32, slot: u8, leaf: bool)
    requires
        addr_well_formed(address),
        addr_depth(address) < NodeAddr::MAX_NODE_DEPTH,
    ensures
        addr_well_formed(addr_push(address, slot, leaf)),
        bit_len(addr_push(address, slot, leaf)) == bit_len(address) + 3,
        addr_depth(addr_push(address, slot, leaf)) == addr_depth(address) + 1,
        addr_push(address, slot, leaf) >> 4u32 == address >> 1u32,
        (addr_push(address, slot, leaf) >> 1u32) & 7u32 == (slot & 7u8) as u32,
{
    let n = bit_len(address);
    lemma_bit_len_bounds(address);
    lemma2_to64();
    // with at most 29 bits the push cannot overflow
    if n < 29 {
        lemma_pow2_strictly_increases(n, 29);
    }
    assert(address < 0x2000_0000);
    let tag: u32 = if leaf { 1 } else { 0 };
    let low: u32 = (((slot & 7u8) as u32) << 1u32) | tag;
    let p = addr_push(address, slot, leaf);
    assert(p == (address / 2) * 16 + low && low < 16 && p >> 4u32 == address >> 1u32
        && (p >> 1u32) & 7u32 == (slot & 7u8) as u32) by (bit_vector)
        requires
            address < 0x2000_0000,
            p == ((address >> 1u32) << 4u32) | (((slot & 7u8) as u32) << 1u32) | tag,
            low == (((slot & 7u8) as u32) << 1u32) | tag,
            tag <= 1,
    ;
    lemma_pow2_unfold((n - 1) as nat);
    lemma_pow2_unfold(n);
    lemma_pow2_unfold(n + 1);
    lemma_pow2_unfold(n + 2);
    lemma_pow2_unfold(n + 3);
    assert(pow2((n - 2) as nat) <= address / 2 < pow2((n - 1) as nat));
    assert(pow2((n + 2) as nat) <= p < pow2(n + 3));
    lemma_bit_len_exact(p, n + 3);
}

/// The depth of an address: how many XYZ triplets follow the leading header bit.
pub open spec fn addr_depth(address: u32) -> nat {
    if bit_len(address) >= 2 {
        ((bit_len(address) - 2) as nat) / 3
    } else {
        0
    }
}

/// The address of child `slot` of `address`, tagged as a leaf or as a node.
pub open spec fn addr_push(address: u32, slot: u8, leaf: bool) -> u32 {
    ((address >> 1u32) << 4u32) | (((slot & 7u8) as u32) << 1u32) | (if leaf {
        1u32
    } else {
        0u32
    })
}

/// An address that uniquely describes a node in an octree as a list of triplets and some
/// metadata.
///
/// Each triplet is the XYZ position of the node at that level: `0` toward the origin of the
/// parent's cell, `1` away from it.
///
/// ```text
/// 1 000 000 000 000 000 000 000 000 000 000 1 -> depth-10 leaf
/// 000 000 000 000 000 000 000 1 000 000 000 0 -> depth-3 node
/// ```
///
/// A leading `1` marks where the path starts, so that the depth follows from the position of the
/// highest set bit; the last bit tells a leaf (`1`) from a node (`0`). Ten levels fit in 32 bits.
#[derive(Clone, Copy, Debug, PartialEq, Eq, Structural, Hash)]
pub struct NodeAddr {
    pub address: u32,
}

impl NodeAddr {
    /// The deepest level of an octree.
    pub const MAX_NODE_DEPTH: usize = 10;

    pub fn new(address: u32) -> (r: Self)
        ensures
            r.address == address,
    {
        NodeAddr { address }
    }

    /// The address of the root node: the header bit alone, tagged as a node.
    pub fn new_root() -> (r: Self)
        ensures
            r.address == 2,
            addr_depth(r.address) == 0,
            addr_well_formed(r.address),
    {
        assert(bit_len(2) == 2) by {
            assert(bit_len(1) == 1 + bit_len(0));
            assert(bit_len(2) == 1 + bit_len(1));
        }
        NodeAddr { address: 0b10 }
    }

    /// The raw address.
    pub fn address(&self) -> (r: u32)
        ensures
            r == self.address,
    {
        self.address
    }

    /// Push the 3 bits of a child slot onto this address to produce the full address of the
    /// child. The last bit, which tells a leaf from a node, is set from `leaf`.
    pub fn push_bits(&self, bits: u8, leaf: bool) -> (r: Self)
        ensures
            r.address == addr_push(self.address, bits, leaf),
            r.is_leaf_spec() == leaf,
            (r.address >> 1u32) & 7u32 == (bits & 7u8) as u32,
    {
        // The slot's three bits, then the leaf bit, replace the parent's leaf bit.
        let tag: u32 = if leaf {
            1u32
        } else {
            0u32
        };
        let address: u32 = ((self.address >> 1u32) << 4u32) | (((bits & 0b111u8) as u32) << 1u32)
            | tag;
        let a = self.address;
        assert((addr_push(a, bits, leaf) & 1u32 == 1u32) == leaf) by (bit_vector);
        assert((addr_push(a, bits, leaf) >> 1u32) & 7u32 == (bits & 7u8) as u32) by (bit_vector);
        NodeAddr { address }
    }

    /// Whether this address points to a leaf.
    pub open spec fn is_leaf_spec(self) -> bool {
        self.address & 1u32 == 1u32
    }

    /// Converts this address to point to a leaf.
    pub fn to_leaf(self) -> (r: Self)
        ensures
            r.address == self.address | 1u32,
            r.is_leaf_spec(),
    {
        let a = self.address;
        assert((a | 1u32) & 1u32 == 1u32) by (bit_vector);
        NodeAddr { address: self.address | 0b1u32 }
    }

    /// Converts this address to point to a node.
    pub fn to_node(self) -> (r: Self)
        ensures
            r.address == self.address & 0xFFFF_FFFEu32,
            !r.is_leaf_spec(),
    {
        let a = self.address;
        assert((a & 0xFFFF_FFFEu32) & 1u32 == 0u32) by (bit_vector);
        NodeAddr { address: self.address & 0xFFFF_FFFEu32 }
    }

    /// Whether this address points to a leaf.
    pub fn is_leaf(&self) -> (r: bool)
        ensures
            r == self.is_leaf_spec(),
    {
        self.address & 1u32 == 1u32
    }

    /// The XYZ triplets of this address from the root down: entry `k` is the slot taken at
    /// level `k + 1`, read from bits `1 + 3 (depth - 1 - k)` upward.
    pub fn path(&self) -> (r: Vec<u8>)
        ensures
            r.len() == addr_depth(self.address),
            forall|k: int|
                0 <= k < r.len() ==> #[trigger] r[k] == ((self.address >> ((1 + 3 * (r.len() - 1
                    - k)) as u32)) & 7u32) as u8,
    {
        proof {
            lemma2_to64();
            lemma_bit_len_below(self.address, 32);
        }
        let d = self.depth();
        let mut out: Vec<u8> = Vec::new();
        let mut k: usize = 0;
        while k < d
            invariant
                k <= d,
                d == addr_depth(self.address),
                d <= 10,
                out.len() == k,
                forall|j: int|
                    0 <= j < k ==> #[trigger] out[j] == ((self.address >> ((1 + 3 * (d - 1 - j)) as u32))
                        & 7u32) as u8,
            decreases d - k,
        {
            let shift: u32 = (1 + 3 * (d - 1 - k)) as u32;
            out.push(((self.address >> shift) & 7u32) as u8);
            k = k + 1;
        }
        out
    }

    /// The number of octree levels deep this address points to.
    pub fn depth(&self) -> (r: usize)
        ensures
            r == addr_depth(self.address),
    {
        proof {
            lemma2_to64();
            lemma_bit_len_below(self.address, 32);
        }
        let mut rest: u32 = self.address;
        let mut bits: u32 = 0;
        while rest > 0
            invariant
                bits + bit_len(rest) == bit_len(self.address),
                bit_len(self.address) <= 32,
            decreases rest,
        {
            rest = rest / 2;
            bits = bits + 1;
        }
        if bits >= 2 {
            ((bits - 2) / 3) as usize
        } else {
            0
        }
    }
}

} // verus!
