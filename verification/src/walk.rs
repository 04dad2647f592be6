//! Walks through the tree along the digits of a cell.

use crate::morton::pow4;
use crate::node::Addr;
use crate::node::ChildIndex;
use crate::node::ContreeInner;
use crate::node::ContreeLeaf;
use vstd::prelude::*;

verus! {

/// Where a walk ended: the leaf it reached, if any, the digits it did not
/// use, and the inner nodes it went through, root first.
pub struct Walk {
    pub leaf: Option<Addr>,
    pub stack: Seq<ChildIndex>,
    pub parents: Seq<Addr>,
}

/// The walk from the inner node `cur` along `stack`, whose last digit comes
/// first. At each node the next digit names a slot: an empty slot ends the
/// walk there with the digit unused, a leaf ends it with the digit used, an
/// inner child is entered and added to `parents`.
pub open spec fn walk(
    inners: Seq<ContreeInner>,
    cur: Addr,
    stack: Seq<ChildIndex>,
    parents: Seq<Addr>,
) -> Walk
    decreases stack.len(),
{
    if stack.len() == 0 {
        Walk { leaf: None, stack, parents }
    } else {
        let index = stack.last() as int;
        let node = inners[cur as int];
        let child = node.children[index];
        if node.occupied(index) && node.leaf_at(index) {
            Walk { leaf: Some(child), stack: stack.drop_last(), parents }
        } else if node.occupied(index) {
            walk(inners, child, stack.drop_last(), parents.push(child))
        } else {
            Walk { leaf: None, stack, parents }
        }
    }
}

/// The material that a walk found: that of the voxel named by the one digit
/// left over at a leaf.
pub open spec fn material_of(w: Walk, leaves: Seq<ContreeLeaf>) -> Option<u8> {
    match w.leaf {
        Some(addr) => if w.stack.len() == 1 {
            leaves[addr as int].material(w.stack[0] as int)
        } else {
            None
        },
        None => None,
    }
}

/// The side of the node at which a walk through a cube of side `size`
/// ended: the voxel's for a leaf, else that of the last node it entered but
/// one.
pub open spec fn node_size_of(size: u32, w: Walk) -> int {
    if w.leaf is Some {
        size as int / pow4(w.parents.len() + 1) as int
    } else {
        size as int / pow4((w.parents.len() - 1) as nat) as int
    }
}

/// Whether slot `i` of `node`, an inner node reached by `trail`, is sound:
/// a leaf bit and a light bit only on an occupied slot; leaves exactly
/// below the last inner level; and the child reached by the trail that the
/// slot extends.
pub open spec fn slot_ok(
    node: ContreeInner,
    i: int,
    trail: Seq<ChildIndex>,
    inner_trails: Map<Addr, Seq<ChildIndex>>,
    leaf_trails: Map<Addr, Seq<ChildIndex>>,
    depth: nat,
) -> bool {
    &&& node.leaf_at(i) ==> node.occupied(i)
    &&& node.lit_at(i) ==> node.occupied(i)
    &&& node.occupied(i) ==> if trail.len() + 2 == depth {
        &&& node.leaf_at(i)
        &&& leaf_trails.dom().contains(node.children[i])
        &&& leaf_trails[node.children[i]] == seq![i as ChildIndex] + trail
    } else {
        &&& !node.leaf_at(i)
        &&& inner_trails.dom().contains(node.children[i])
        &&& inner_trails[node.children[i]] == seq![i as ChildIndex] + trail
    }
}

} // verus!
