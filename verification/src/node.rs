//! The two fixed-layout node records, their per-slot flag bits and their
//! byte images.

use vstd::bytes::spec_u32_to_le_bytes;
use vstd::bytes::spec_u64_to_le_bytes;
use vstd::bytes::u32_to_le_bytes;
use vstd::bytes::u64_to_le_bytes;
use vstd::prelude::*;

verus! {

/// Index of a node in its collection, counted in records, not bytes. Inner
/// and leaf addresses are told apart by the parent's `leaf` bit only.
pub type Addr = u32;

/// One of the 64 slots of a node.
pub type ChildIndex = usize;

/// Bytes of one inner record: three masks and 64 addresses.
pub const INNER_RECORD_SIZE: u64 = 280;

/// Bytes of one leaf record: two masks and 64 materials.
pub const LEAF_RECORD_SIZE: u64 = 80;

/// Whether bit `i` of `mask` is set.
pub open spec fn bit_set(mask: u64, i: int) -> bool {
    0 <= i < 64 && mask & (1u64 << (i as u64)) != 0
}

/// `mask` with bit `i` made equal to `on`.
pub open spec fn with_bit(mask: u64, i: int, on: bool) -> u64 {
    if on {
        (mask & !(1u64 << (i as u64))) | (1u64 << (i as u64))
    } else {
        mask & !(1u64 << (i as u64))
    }
}

/// Setting and clearing one bit, bit by bit.
proof fn lemma_bit_ops(mask: u64, i: u64, j: u64)
    by (bit_vector)
    requires
        i < 64,
        j < 64,
    ensures
        1u64 << i != 0,
        0u64 & (1u64 << j) == 0,
        ((mask & !(1u64 << i)) | (1u64 << i)) & (1u64 << j) != 0 <==> (j == i || mask & (1u64 << j)
            != 0),
        (mask & !(1u64 << i)) & (1u64 << j) != 0 <==> (j != i && mask & (1u64 << j) != 0),
        (mask | (1u64 << i)) == ((mask & !(1u64 << i)) | (1u64 << i)),
        mask & (1u64 << i) != 0 ==> (mask | (1u64 << i)) == mask,
        mask & (1u64 << i) == 0 ==> (mask & !(1u64 << i)) == mask,
{
}

/// What changing one bit does to every bit.
pub proof fn lemma_with_bit(mask: u64, i: int, on: bool, j: int)
    requires
        0 <= i < 64,
    ensures
        bit_set(with_bit(mask, i, on), j) == (if j == i {
            on
        } else {
            bit_set(mask, j)
        }),
        bit_set(mask, i) == on ==> with_bit(mask, i, on) == mask,
        with_bit(mask, i, true) == mask | (1u64 << (i as u64)),
        !bit_set(0, j),
{
    if 0 <= j < 64 {
        lemma_bit_ops(mask, i as u64, j as u64);
    } else {
        lemma_bit_ops(mask, i as u64, 0);
    }
}

/// An inner node: per slot, whether a child is there, whether it is a leaf,
/// whether it carries light, and the child's address.
#[derive(Clone, Copy, Debug)]
pub struct ContreeInner {
    pub contains: u64,
    pub leaf: u64,
    pub light: u64,
    pub children: [u32; 64],
}

/// A leaf node: per voxel, whether it has a material, whether it carries
/// light, and the material.
#[derive(Clone, Copy, Debug)]
pub struct ContreeLeaf {
    pub contains: u64,
    pub light: u64,
    pub children: [u8; 64],
}

/// The byte image of an inner record: the three masks, then the 64
/// addresses, each little-endian.
pub open spec fn inner_bytes(node: ContreeInner) -> Seq<u8> {
    spec_u64_to_le_bytes(node.contains) + spec_u64_to_le_bytes(node.leaf) + spec_u64_to_le_bytes(
        node.light,
    ) + addresses_bytes(node.children@, 64)
}

/// The little-endian bytes of the first `n` addresses of `children`.
pub open spec fn addresses_bytes(children: Seq<u32>, n: nat) -> Seq<u8>
    decreases n,
{
    if n == 0 {
        Seq::empty()
    } else {
        addresses_bytes(children, (n - 1) as nat) + spec_u32_to_le_bytes(children[n - 1])
    }
}

/// The byte image of a leaf record: the two masks, little-endian, then the
/// 64 materials.
pub open spec fn leaf_bytes(node: ContreeLeaf) -> Seq<u8> {
    spec_u64_to_le_bytes(node.contains) + spec_u64_to_le_bytes(node.light) + node.children@
}

/// The byte images of the first `n` records of `nodes`, one after another.
pub open spec fn inners_bytes(nodes: Seq<ContreeInner>, n: nat) -> Seq<u8>
    decreases n,
{
    if n == 0 {
        Seq::empty()
    } else {
        inners_bytes(nodes, (n - 1) as nat) + inner_bytes(nodes[n - 1])
    }
}

/// The byte images of the first `n` records of `nodes`, one after another.
pub open spec fn leaves_bytes(nodes: Seq<ContreeLeaf>, n: nat) -> Seq<u8>
    decreases n,
{
    if n == 0 {
        Seq::empty()
    } else {
        leaves_bytes(nodes, (n - 1) as nat) + leaf_bytes(nodes[n - 1])
    }
}

/// Every address takes four bytes.
pub proof fn lemma_addresses_bytes_len(children: Seq<u32>, n: nat)
    ensures
        addresses_bytes(children, n).len() == 4 * n,
    decreases n,
{
    if n > 0 {
        lemma_addresses_bytes_len(children, (n - 1) as nat);
        vstd::bytes::lemma_auto_spec_u32_to_from_le_bytes();
    }
}

/// Every record has the size of its kind.
pub proof fn lemma_record_len(inner: ContreeInner, leaf: ContreeLeaf)
    ensures
        inner_bytes(inner).len() == INNER_RECORD_SIZE,
        leaf_bytes(leaf).len() == LEAF_RECORD_SIZE,
{
    lemma_addresses_bytes_len(inner.children@, 64);
    vstd::bytes::lemma_auto_spec_u64_to_from_le_bytes();
}

/// A record that differs from another as linking a child does is that
/// record with the child linked, and the same for a voxel.
pub proof fn lemma_record_made(
    inner: ContreeInner,
    old_inner: ContreeInner,
    leaf: ContreeLeaf,
    old_leaf: ContreeLeaf,
    index: int,
    addr: Addr,
    as_leaf: bool,
    material: u8,
)
    requires
        0 <= index < 64,
    ensures
        inner.links(old_inner, index, addr, as_leaf) <==> inner == old_inner.linked(
            index,
            addr,
            as_leaf,
        ),
        leaf.holds(old_leaf, index, material) <==> leaf == old_leaf.filled(index, material),
{
    let made = old_inner.linked(index, addr, as_leaf);
    if inner.links(old_inner, index, addr, as_leaf) {
        assert(inner.children =~= made.children);
    }
    let full = old_leaf.filled(index, material);
    if leaf.holds(old_leaf, index, material) {
        assert(leaf.children =~= full.children);
    }
}

/// What linking a child into slot `index` does to every slot.
pub proof fn lemma_links(
    after: ContreeInner,
    before: ContreeInner,
    index: int,
    addr: Addr,
    leaf: bool,
)
    requires
        0 <= index < 64,
        after.links(before, index, addr, leaf),
    ensures
        after.occupied(index),
        after.leaf_at(index) == leaf,
        after.children[index] == addr,
        !after.lit_at(index),
        !before.lit_at(index) ==> after.light == before.light,
        forall|j: int| 0 <= j < 64 && j != index ==> #[trigger] after.same_slot(before, j),
{
    assert forall|j: int| 0 <= j < 64 implies after.lit_at(j) == (j != index && before.lit_at(
        j,
    )) by {
        lemma_with_bit(before.light, index, false, j);
    }
    lemma_with_bit(before.light, index, false, index);
    assert forall|j: int| 0 <= j < 64 implies after.occupied(j) == (if j == index {
        true
    } else {
        before.occupied(j)
    }) && after.leaf_at(j) == (if j == index {
        leaf
    } else {
        before.leaf_at(j)
    }) by {
        lemma_with_bit(before.contains, index, true, j);
        lemma_with_bit(before.leaf, index, leaf, j);
    }
    assert forall|j: int| 0 <= j < 64 && j != index implies #[trigger] after.same_slot(
        before,
        j,
    ) by {
        assert(after.children@[j] == before.children@[j]);
    }
    assert(after.children@[index] == addr);
}

/// What storing a material in voxel `index` does to every voxel.
pub proof fn lemma_holds(after: ContreeLeaf, before: ContreeLeaf, index: int, material: u8)
    requires
        0 <= index < 64,
        after.holds(before, index, material),
    ensures
        after.material(index) == Some(material),
        forall|j: int|
            0 <= j < 64 && j != index ==> #[trigger] after.material(j) == before.material(j),
        before.material(index) == Some(material) ==> after.contains == before.contains
            && after.children@ == before.children@,
        after.keeps(before, Some(index)),
{
    assert forall|v: int| 0 <= v < 64 && v != index implies #[trigger] after.same_voxel(
        before,
        v,
    ) by {
        lemma_with_bit(before.contains, index, true, v);
        assert(after.children@[v] == before.children@[v]);
    }
    assert forall|j: int| 0 <= j < 64 implies after.occupied(j) == (if j == index {
        true
    } else {
        before.occupied(j)
    }) by {
        lemma_with_bit(before.contains, index, true, j);
    }
    assert(after.children@[index] == material);
    assert forall|j: int| 0 <= j < 64 && j != index implies #[trigger] after.material(j)
        == before.material(j) by {
        assert(after.children@[j] == before.children@[j]);
    }
    if before.material(index) == Some(material) {
        lemma_with_bit(before.contains, index, true, index);
        assert(before.children@[index] == material);
        assert(after.children@ =~= before.children@);
    }
}

/// A zeroed record has no child and no voxel.
pub proof fn lemma_zeroed_is_empty()
    ensures
        forall|i: int| !(#[trigger] ContreeInner::zeroed().occupied(i)),
        forall|i: int| !(#[trigger] ContreeInner::zeroed().leaf_at(i)),
        forall|i: int| !(#[trigger] ContreeInner::zeroed().lit_at(i)),
        forall|i: int| !(#[trigger] ContreeLeaf::zeroed().occupied(i)),
        ContreeInner::zeroed().is_zeroed(),
        ContreeLeaf::zeroed().is_zeroed(),
{
    assert forall|i: int| !bit_set(0, i) by {
        lemma_with_bit(0, 0, false, i);
    }
}

impl ContreeInner {
    /// The record with every bit and every address zero.
    pub open spec fn zeroed() -> ContreeInner {
        ContreeInner {
            contains: 0,
            leaf: 0,
            light: 0,
            children: vstd::array::spec_array_fill_for_copy_type::<u32, 64>(0),
        }
    }

    /// Whether every bit and every address is zero.
    pub open spec fn is_zeroed(self) -> bool {
        &&& self.contains == 0
        &&& self.leaf == 0
        &&& self.light == 0
        &&& forall|i: int| 0 <= i < 64 ==> self.children[i] == 0
    }

    /// Whether slot `i` holds a child.
    pub open spec fn occupied(self, i: int) -> bool {
        bit_set(self.contains, i)
    }

    /// Whether slot `i` is marked as holding a leaf.
    pub open spec fn leaf_at(self, i: int) -> bool {
        bit_set(self.leaf, i)
    }

    /// Whether slot `i` is marked as carrying light.
    pub open spec fn lit_at(self, i: int) -> bool {
        bit_set(self.light, i)
    }

    /// Whether `self` is `before` but for slots that held no child: the
    /// light mask is the same, and so is every slot that held a child.
    pub open spec fn keeps(self, before: ContreeInner) -> bool {
        &&& self.light == before.light
        &&& forall|i: int|
            0 <= i < 64 && before.occupied(i) ==> #[trigger] self.same_slot(before, i)
    }

    /// Whether `self` and `other` say the same of slot `i`.
    pub open spec fn same_slot(self, other: ContreeInner, i: int) -> bool {
        &&& self.occupied(i) == other.occupied(i)
        &&& self.lit_at(i) == other.lit_at(i)
        &&& self.leaf_at(i) == other.leaf_at(i)
        &&& self.children[i] == other.children[i]
    }

    /// This node with the three flags of slot `index` set as given.
    pub open spec fn with_flags(
        self,
        index: int,
        exists: bool,
        leaf: bool,
        light: bool,
    ) -> ContreeInner {
        ContreeInner {
            contains: with_bit(self.contains, index, exists),
            leaf: with_bit(self.leaf, index, leaf),
            light: with_bit(self.light, index, light),
            children: self.children,
        }
    }

    /// This node with slot `index` pointing at `addr` and holding a child,
    /// a leaf if `leaf` says so, without light.
    pub open spec fn linked(self, index: int, addr: Addr, leaf: bool) -> ContreeInner {
        ContreeInner {
            contains: with_bit(self.contains, index, true),
            leaf: with_bit(self.leaf, index, leaf),
            light: with_bit(self.light, index, false),
            children: vstd::array::spec_array_update(self.children, index, addr),
        }
    }

    /// Whether `self` is `before` with slot `index` pointing at `addr` and
    /// holding a child, a leaf if `leaf` says so, without light.
    pub open spec fn links(self, before: ContreeInner, index: int, addr: Addr, leaf: bool) -> bool {
        &&& self.contains == with_bit(before.contains, index, true)
        &&& self.leaf == with_bit(before.leaf, index, leaf)
        &&& self.light == with_bit(before.light, index, false)
        &&& self.children@ == before.children@.update(index, addr)
    }

    /// A zeroed record.
    pub fn new() -> (node: ContreeInner)
        ensures
            node == ContreeInner::zeroed(),
            node.is_zeroed(),
            forall|i: int| !node.occupied(i) && !node.leaf_at(i),
    {
        proof {
            assert forall|i: int| !bit_set(0, i) by {
                lemma_with_bit(0, 0, false, i);
            }
        }
        ContreeInner { contains: 0, leaf: 0, light: 0, children: [0u32;64] }
    }

    /// Whether slot `index` holds a child.
    pub fn has_child(&self, index: ChildIndex) -> (b: bool)
        requires
            index < 64,
        ensures
            b == self.occupied(index as int),
    {
        self.contains & (1u64 << (index as u64)) != 0
    }

    /// Whether slot `index` is marked as holding a leaf.
    pub fn has_leaf(&self, index: ChildIndex) -> (b: bool)
        requires
            index < 64,
        ensures
            b == self.leaf_at(index as int),
    {
        self.leaf & (1u64 << (index as u64)) != 0
    }

    /// The byte image of this record.
    pub fn to_bytes(&self) -> (bytes: Vec<u8>)
        ensures
            bytes@ == inner_bytes(*self),
            bytes@.len() == INNER_RECORD_SIZE,
    {
        let mut bytes = u64_to_le_bytes(self.contains);
        let mut leaf = u64_to_le_bytes(self.leaf);
        let mut light = u64_to_le_bytes(self.light);
        bytes.append(&mut leaf);
        bytes.append(&mut light);
        let ghost head = bytes@;
        let mut i: usize = 0;
        while i < 64
            invariant
                i <= 64,
                bytes@ == head + addresses_bytes(self.children@, i as nat),
            decreases 64 - i,
        {
            let mut word = u32_to_le_bytes(self.children[i]);
            bytes.append(&mut word);
            i += 1;
            assert(bytes@ =~= head + addresses_bytes(self.children@, i as nat));
        }
        proof {
            lemma_record_len(*self, ContreeLeaf::zeroed());
            assert(bytes@ =~= inner_bytes(*self));
        }
        bytes
    }
}

impl ContreeLeaf {
    /// The record with every bit and every material zero.
    pub open spec fn zeroed() -> ContreeLeaf {
        ContreeLeaf {
            contains: 0,
            light: 0,
            children: vstd::array::spec_array_fill_for_copy_type::<u8, 64>(0),
        }
    }

    /// Whether every bit and every material is zero.
    pub open spec fn is_zeroed(self) -> bool {
        &&& self.contains == 0
        &&& self.light == 0
        &&& forall|i: int| 0 <= i < 64 ==> self.children[i] == 0
    }

    /// Whether voxel `i` has a material.
    pub open spec fn occupied(self, i: int) -> bool {
        bit_set(self.contains, i)
    }

    /// The material of voxel `i`, if it has one.
    pub open spec fn material(self, i: int) -> Option<u8> {
        if self.occupied(i) {
            Some(self.children[i])
        } else {
            None
        }
    }

    /// This leaf with voxel `index` holding `material`.
    pub open spec fn filled(self, index: int, material: u8) -> ContreeLeaf {
        ContreeLeaf {
            contains: with_bit(self.contains, index, true),
            light: self.light,
            children: vstd::array::spec_array_update(self.children, index, material),
        }
    }

    /// Whether `self` and `other` say the same of voxel `v`.
    pub open spec fn same_voxel(self, other: ContreeLeaf, v: int) -> bool {
        &&& self.occupied(v) == other.occupied(v)
        &&& self.children[v] == other.children[v]
    }

    /// Whether `self` is `before` but, at most, for the voxel `but`: the
    /// light mask is the same, and so is every other voxel.
    pub open spec fn keeps(self, before: ContreeLeaf, but: Option<int>) -> bool {
        &&& self.light == before.light
        &&& forall|v: int|
            0 <= v < 64 && Some(v) != but ==> #[trigger] self.same_voxel(before, v)
    }

    /// Whether `self` is `before` with voxel `index` holding `material`.
    pub open spec fn holds(self, before: ContreeLeaf, index: int, material: u8) -> bool {
        &&& self.contains == with_bit(before.contains, index, true)
        &&& self.light == before.light
        &&& self.children@ == before.children@.update(index, material)
    }

    /// A zeroed record.
    pub fn new() -> (node: ContreeLeaf)
        ensures
            node == ContreeLeaf::zeroed(),
            node.is_zeroed(),
            forall|i: int| !node.occupied(i),
    {
        proof {
            assert forall|i: int| !bit_set(0, i) by {
                lemma_with_bit(0, 0, false, i);
            }
        }
        ContreeLeaf { contains: 0, light: 0, children: [0u8;64] }
    }

    /// Whether voxel `index` has a material.
    pub fn has_voxel(&self, index: ChildIndex) -> (b: bool)
        requires
            index < 64,
        ensures
            b == self.occupied(index as int),
    {
        self.contains & (1u64 << (index as u64)) != 0
    }

    /// The byte image of this record.
    pub fn to_bytes(&self) -> (bytes: Vec<u8>)
        ensures
            bytes@ == leaf_bytes(*self),
            bytes@.len() == LEAF_RECORD_SIZE,
    {
        let mut bytes = u64_to_le_bytes(self.contains);
        let mut light = u64_to_le_bytes(self.light);
        bytes.append(&mut light);
        let ghost head = bytes@;
        let mut i: usize = 0;
        while i < 64
            invariant
                i <= 64,
                bytes@ == head + self.children@.take(i as int),
            decreases 64 - i,
        {
            bytes.push(self.children[i]);
            i += 1;
            assert(bytes@ =~= head + self.children@.take(i as int));
        }
        proof {
            lemma_record_len(ContreeInner::zeroed(), *self);
            assert(self.children@.take(64) =~= self.children@);
            assert(bytes@ =~= leaf_bytes(*self));
        }
        bytes
    }
}

} // verus!
