//! What an index holds, and what each of its operations makes of that: the
//! cube, the root and the arena after a node was made, a voxel was stored,
//! the cube has grown, or a material was put at a cell.

use crate::arena::tombstones_ok;
use crate::arena::ArenaState;
use crate::arena::ADDR_LIMIT;
use crate::cube::grown_center;
use crate::cube::in_cube;
use crate::cube::levels;
use crate::cube::normalized;
use crate::cube::GROW_SLOT;
use crate::cube::MAX_SIZE;
use crate::morton::code_of;
use crate::morton::padded_digits;
use crate::node::lemma_links;
use crate::node::lemma_record_made;
use crate::node::lemma_zeroed_is_empty;
use crate::node::Addr;
use crate::node::ChildIndex;
use crate::node::ContreeInner;
use crate::node::ContreeLeaf;
use crate::position::Position;
use crate::walk::walk;
use crate::walk::Walk;
use vstd::prelude::*;

verus! {

/// The host side of an index: its cube, its root and its arena.
#[verifier::ext_equal]
pub struct TreeState {
    pub center: Position,
    pub size: u32,
    pub root: Addr,
    pub nodes: ArenaState,
}

impl TreeState {
    /// The digits that a walk for `pos` goes along, last digit first to
    /// come.
    pub open spec fn path(self, pos: Position) -> Seq<ChildIndex> {
        padded_digits(
            code_of(normalized(self.center, self.size, pos)) as u64,
            levels(self.size as nat),
        )
    }

    /// The walk for `pos` from the root.
    pub open spec fn found(self, pos: Position) -> Walk {
        walk(self.nodes.inners, self.root, self.path(pos), seq![self.root])
    }

    /// After a new inner node was allocated and linked into slot `index`
    /// of `parent`.
    pub open spec fn with_inner_child(self, parent: Addr, index: int) -> TreeState {
        let addr = self.nodes.next_inner();
        let made = self.nodes.with_new_inner();
        TreeState {
            nodes: made.with_inner(parent, made.inners[parent as int].linked(index, addr, false)),
            ..self
        }
    }

    /// After a new leaf was allocated and linked into slot `index` of
    /// `parent`.
    pub open spec fn with_leaf_child(self, parent: Addr, index: int) -> TreeState {
        let addr = self.nodes.next_leaf();
        let made = self.nodes.with_new_leaf();
        TreeState {
            nodes: made.with_inner(parent, made.inners[parent as int].linked(index, addr, true)),
            ..self
        }
    }

    /// After `material` was stored in voxel `index` of the leaf `leaf`.
    pub open spec fn with_voxel(self, leaf: Addr, index: int, material: u8) -> TreeState {
        TreeState {
            nodes: self.nodes.with_leaf(
                leaf,
                self.nodes.leaves[leaf as int].filled(index, material),
            ),
            ..self
        }
    }

    /// After the cube has grown once: a new inner node is the root, its
    /// slot `GROW_SLOT` holds the previous root, the side is four times
    /// what it was and the centre has moved.
    pub open spec fn grown(self) -> TreeState {
        let addr = self.nodes.next_inner();
        let made = self.nodes.with_new_inner();
        TreeState {
            center: grown_center(self.center, self.size),
            size: (self.size * 4) as u32,
            root: addr,
            nodes: made.with_inner(
                addr,
                made.inners[addr as int].linked(GROW_SLOT as int, self.root, false),
            ),
        }
    }

    /// After one step of growth the previous root hangs in `GROW_SLOT` of
    /// the new root, an occupied slot that holds no leaf and no light; the
    /// new root has no other child, and every other record is as it was.
    pub proof fn lemma_grown(self)
        requires
            tombstones_ok(self.nodes.inner_tombstones, self.nodes.inners.len()),
            self.nodes.inners.len() < ADDR_LIMIT,
        ensures
            ({
                let wide = self.grown();
                let top = wide.nodes.inners[wide.root as int];
                &&& wide.root == self.nodes.next_inner()
                &&& wide.root < wide.nodes.inners.len()
                &&& top.occupied(GROW_SLOT as int)
                &&& !top.leaf_at(GROW_SLOT as int)
                &&& !top.lit_at(GROW_SLOT as int)
                &&& top.children[GROW_SLOT as int] == self.root
                &&& forall|i: int| 0 <= i < 64 && i != GROW_SLOT ==> !#[trigger] top.occupied(i)
                &&& forall|a: int|
                    0 <= a < self.nodes.inners.len() && a != wide.root
                        ==> #[trigger] wide.nodes.inners[a] == self.nodes.inners[a]
                &&& wide.nodes.leaves == self.nodes.leaves
                &&& wide.nodes.leaf_tombstones == self.nodes.leaf_tombstones
            }),
    {
        let wide = self.grown();
        let top = wide.nodes.inners[wide.root as int];
        lemma_zeroed_is_empty();
        lemma_record_made(
            top,
            ContreeInner::zeroed(),
            ContreeLeaf::zeroed(),
            ContreeLeaf::zeroed(),
            GROW_SLOT as int,
            self.root,
            false,
            0,
        );
        lemma_links(top, ContreeInner::zeroed(), GROW_SLOT as int, self.root, false);
        assert forall|i: int| 0 <= i < 64 && i != GROW_SLOT implies !#[trigger] top.occupied(
            i,
        ) by {
            assert(top.same_slot(ContreeInner::zeroed(), i));
        }
    }

    /// After the cube has grown until it holds `pos` or cannot grow
    /// further.
    pub open spec fn settled(self, pos: Position) -> TreeState
        decreases MAX_SIZE - self.size,
    {
        if in_cube(self.center, self.size, pos) || self.size == 0 || self.size * 4 > MAX_SIZE {
            self
        } else {
            self.grown().settled(pos)
        }
    }

    /// After the nodes were made that a walk found missing, where the walk
    /// left the digits `stack` unused and had entered `parents`: an inner
    /// node under the last parent for every digit but the last two, from
    /// the end of `stack` on, then a leaf for the digit before the last.
    /// With the state come the inner nodes on the way and the leaf.
    pub open spec fn paved(self, stack: Seq<ChildIndex>, parents: Seq<Addr>) -> (
        TreeState,
        Seq<Addr>,
        Addr,
    )
        decreases stack.len(),
    {
        if stack.len() <= 2 {
            (
                self.with_leaf_child(parents.last(), stack[1] as int),
                parents,
                self.nodes.next_leaf(),
            )
        } else {
            self.with_inner_child(parents.last(), stack.last() as int).paved(
                stack.drop_last(),
                parents.push(self.nodes.next_inner()),
            )
        }
    }

    /// After `material` was put at `pos` without growth: where the walk for
    /// `pos` ends in a leaf, the voxel of the digit left over is stored
    /// there, else the missing nodes are made first. With the state come
    /// the inner nodes on the way to the leaf.
    pub open spec fn put(self, pos: Position, material: u8) -> (TreeState, Seq<Addr>) {
        let end = self.found(pos);
        match end.leaf {
            Some(leaf) => (self.with_voxel(leaf, end.stack.last() as int, material), end.parents),
            None => {
                let made = self.paved(end.stack, end.parents);
                (made.0.with_voxel(made.2, end.stack[0] as int, material), made.1)
            },
        }
    }

    /// After `material` was put at `pos`: the cube has grown as far as it
    /// had to, then the material was put.
    pub open spec fn with_material(self, pos: Position, material: u8) -> (TreeState, Seq<Addr>) {
        self.settled(pos).put(pos, material)
    }
}

} // verus!
