//! The spatial index: a 64-way tree over a cube of unit cells. A cell's
//! path through the tree is the base-64 digits of its Morton code, most
//! significant digit at the root; the last digit is the voxel within a leaf.

use crate::arena::Arena;
use crate::arena::ADDR_LIMIT;
use crate::cube::center_ok;
use crate::cube::four_to;
use crate::cube::grown_center;
use crate::cube::in_cube;
use crate::cube::lemma_grown_offsets;
use crate::cube::lemma_top_slot;
use crate::cube::lemma_valid_size;
use crate::cube::level_count;
use crate::cube::levels;
use crate::cube::normalized;
use crate::cube::reachable;
use crate::cube::saturate;
use crate::cube::shift_of;
use crate::cube::settled;
use crate::cube::span;
use crate::cube::svo_abs_spec;
use crate::cube::valid_size;
use crate::cube::CENTER_LIMIT;
use crate::cube::GROW_SLOT;
use crate::cube::MAX_SIZE;
use crate::cube::MIN_SIZE;
use crate::gpu_binding::GPUBinding;
use crate::gpu_binding::WriteView;
use crate::mirror_log::option_seq;
use crate::morton::code_of;
use crate::morton::digits_of;
use crate::morton::lemma_morton_bits;
use crate::morton::lemma_padded_digits_bounds;
use crate::morton::lemma_padded_digits_is_padding;
use crate::morton::morton_code;
use crate::morton::padded_digits;
use crate::morton::pow4;
use crate::node::lemma_holds;
use crate::node::lemma_record_made;
use crate::node::lemma_with_bit;
use crate::node::lemma_zeroed_is_empty;
use crate::node::Addr;
use crate::node::ChildIndex;
use crate::node::ContreeInner;
use crate::node::ContreeLeaf;
use crate::position::LocalPos;
use crate::position::Position;
use crate::tree_state::TreeState;
use crate::trusted::max_element;
use crate::walk::material_of;
use crate::walk::node_size_of;
use crate::walk::slot_ok;
use crate::walk::walk;
use crate::walk::Walk;
use vstd::prelude::*;

verus! {

/// What `find` reports.
#[derive(Debug)]
pub struct FindResult {
    /// The leaf that holds the cell, if the tree reaches that far.
    pub leaf_address: Option<Addr>,
    /// The digits not used, last digit first to come.
    pub traversal_stack: Vec<ChildIndex>,
    /// The inner nodes on the way, root first.
    pub parent_addrs: Vec<Addr>,
    /// Distance from face to face.
    pub node_size: u32,
}

impl FindResult {
    /// Whether this result says what the walk `w` through a cube of side
    /// `size` came to.
    pub open spec fn matches_walk(self, size: u32, w: Walk) -> bool {
        &&& self.leaf_address == w.leaf
        &&& self.traversal_stack@ == w.stack
        &&& self.parent_addrs@ == w.parents
        &&& self.node_size == node_size_of(size, w)
    }
}

/// The index: a cube of cells around a centre, and the tree of nodes that
/// says which of them have a material.
#[derive(Clone)]
pub struct Contree {
    center_offset: Position,
    root: Addr,
    /// Distance from face to face.
    size: u32,
    arena: Arena,
    gpu: GPUBinding,
    inner_trail: Ghost<Map<Addr, Seq<ChildIndex>>>,
    leaf_trail: Ghost<Map<Addr, Seq<ChildIndex>>>,
    issued: Ghost<Seq<WriteView>>,
}

impl View for Contree {
    type V = Map<Position, u8>;

    /// The cells that have a material, each with its material.
    open spec fn view(&self) -> Map<Position, u8> {
        Map::new(
            |pos: Position| self.material_at(pos) is Some,
            |pos: Position| self.material_at(pos).unwrap(),
        )
    }
}

impl Default for Contree {
    /// A detached index over the cube of side `MIN_SIZE` around the origin,
    /// with an empty root.
    fn default() -> (tree: Contree)
        ensures
            tree.wf(),
            tree.size() == MIN_SIZE,
            tree.center_offset() == (Position { x: 0, y: 0, z: 0 }),
            tree.binding() is Dummy,
            tree.root() == 0,
            tree@ == Map::<Position, u8>::empty(),
            tree.nodes().inners() == seq![ContreeInner::zeroed()],
            tree.nodes().leaves().len() == 0,
            tree.nodes().inner_tombstones().len() == 0,
            tree.nodes().leaf_tombstones().len() == 0,
            tree.mirrored(),
    {
        proof {
            reveal_with_fuel(levels, 4);
            reveal_with_fuel(pow4, 4);
        }
        match Contree::new(Position { x: 0, y: 0, z: 0 }, MIN_SIZE, GPUBinding::Dummy) {
            Some(tree) => tree,
            None => unreached(),
        }
    }
}

impl Contree {
    /// The node storage.
    pub closed spec fn nodes(&self) -> Arena {
        self.arena
    }

    /// The address of the root.
    pub closed spec fn spec_root(&self) -> Addr {
        self.root
    }

    /// The side of the cube.
    pub closed spec fn spec_size(&self) -> u32 {
        self.size
    }

    /// The cell at the centre of the cube.
    pub closed spec fn spec_center_offset(&self) -> Position {
        self.center_offset
    }

    /// The bridge towards the device.
    pub closed spec fn binding(&self) -> GPUBinding {
        self.gpu
    }

    /// For every inner node that the root leads to, the digits that lead to
    /// it, in the order of a traversal stack: the digit taken at the root
    /// last.
    pub closed spec fn inner_trails(&self) -> Map<Addr, Seq<ChildIndex>> {
        self.inner_trail@
    }

    /// For every leaf that the root leads to, the digits that lead to it.
    pub closed spec fn leaf_trails(&self) -> Map<Addr, Seq<ChildIndex>> {
        self.leaf_trail@
    }

    /// Every command handed to the bridge so far, oldest first.
    pub closed spec fn issued(&self) -> Seq<WriteView> {
        self.issued@
    }

    /// The host side of the index: cube, root and arena.
    pub open spec fn state(&self) -> TreeState {
        TreeState {
            center: self.center_offset(),
            size: self.size(),
            root: self.root(),
            nodes: self.nodes().state(),
        }
    }

    /// Number of levels, the voxel level included.
    pub open spec fn depth(&self) -> nat {
        levels(self.size() as nat)
    }

    /// The nodes that the root leads to form a tree of one depth: every
    /// linked node is live and has one trail, an occupied slot leads to the
    /// node whose trail it extends, and leaves stand exactly below the last
    /// inner level.
    pub open spec fn trails_wf(&self) -> bool {
        let inners = self.nodes().inners();
        let leaves = self.nodes().leaves();
        let it = self.inner_trails();
        let lt = self.leaf_trails();
        &&& it.dom().contains(self.root())
        &&& it[self.root()] == Seq::<ChildIndex>::empty()
        &&& forall|a: Addr| #[trigger]
            it.dom().contains(a) ==> {
                &&& a < inners.len()
                &&& it[a].len() + 2 <= self.depth()
                &&& !self.nodes().inner_tombstones().contains(a)
            }
        &&& forall|a: Addr| #[trigger]
            lt.dom().contains(a) ==> {
                &&& a < leaves.len()
                &&& lt[a].len() + 1 == self.depth()
                &&& !self.nodes().leaf_tombstones().contains(a)
            }
        &&& forall|a: Addr, i: int|
            it.dom().contains(a) && 0 <= i < 64 ==> #[trigger] slot_ok(
                inners[a as int],
                i,
                it[a],
                it,
                lt,
                self.depth(),
            )
    }

    /// Whether slot `index` of the root leads into the cube: any slot where
    /// the cube fills its span, one of the first eight where it fills half
    /// of it.
    pub open spec fn root_slot(&self, index: int) -> bool {
        span(self.size() as nat) == self.size() || index < 8
    }

    /// The invariant of the index.
    pub open spec fn wf(&self) -> bool {
        &&& self.nodes().wf()
        &&& valid_size(self.size())
        &&& center_ok(self.center_offset(), self.size())
        &&& self.trails_wf()
        &&& forall|i: int|
            0 <= i < 64 && #[trigger] self.nodes().inners()[self.root() as int].occupied(i)
                ==> self.root_slot(i)
    }

    /// The digits that `find` walks along for `pos`, last digit first to
    /// come: those of the code of `pos` relative to the cube, one per level
    /// at least.
    pub open spec fn path_of(&self, pos: Position) -> Seq<ChildIndex> {
        padded_digits(
            code_of(normalized(self.center_offset(), self.size(), pos)) as u64,
            self.depth(),
        )
    }

    /// The walk that `find` makes for `pos`.
    pub open spec fn find_spec(&self, pos: Position) -> Walk {
        walk(self.nodes().inners(), self.root(), self.path_of(pos), seq![self.root()])
    }

    /// The material of the cell `pos`: none outside the cube, else what the
    /// walk for `pos` finds.
    pub open spec fn material_at(&self, pos: Position) -> Option<u8> {
        if in_cube(self.center_offset(), self.size(), pos) {
            material_of(self.find_spec(pos), self.nodes().leaves())
        } else {
            None
        }
    }

    /// Whether the arena has addresses left for `n` new inner nodes and one
    /// new leaf.
    pub open spec fn room_for(&self, n: nat) -> bool {
        &&& self.nodes().inners().len() + n <= ADDR_LIMIT
        &&& self.nodes().leaves().len() + 1 <= ADDR_LIMIT
    }

    /// Whether the arena has addresses left for every node that one
    /// insertion can ask for.
    pub open spec fn has_room(&self) -> bool {
        self.room_for(32)
    }

    /// Whether growth can make the cube hold `pos`.
    pub open spec fn can_hold(&self, pos: Position) -> bool {
        reachable(self.center_offset(), self.size(), pos)
    }

    /// Whether `post` is `pre` but for the nodes and the commands handed to
    /// the bridge.
    pub open spec fn same_frame(pre: Contree, post: Contree) -> bool {
        &&& post.root() == pre.root()
        &&& post.size() == pre.size()
        &&& post.center_offset() == pre.center_offset()
        &&& post.binding() == pre.binding()
        &&& post.inner_trails() == pre.inner_trails()
        &&& post.leaf_trails() == pre.leaf_trails()
    }

    /// `post` is `pre` after a new, zeroed node `addr` was linked into the
    /// empty slot `index` of the linked inner node `parent`: as a leaf if
    /// `leaf` says so, else as an inner node.
    pub open spec fn linked(
        pre: Contree,
        post: Contree,
        parent: Addr,
        index: int,
        addr: Addr,
        leaf: bool,
    ) -> bool {
        let trail = seq![index as ChildIndex] + pre.inner_trails()[parent];
        &&& post.root() == pre.root()
        &&& post.size() == pre.size()
        &&& post.center_offset() == pre.center_offset()
        &&& post.binding() == pre.binding()
        &&& pre.inner_trails().dom().contains(parent)
        &&& 0 <= index < 64
        &&& !pre.nodes().inners()[parent as int].occupied(index)
        &&& post.nodes().inners()[parent as int].links(
            pre.nodes().inners()[parent as int],
            index,
            addr,
            leaf,
        )
        &&& forall|a: Addr|
            pre.inner_trails().dom().contains(a) && a != parent
                ==> #[trigger] post.nodes().inners()[a as int] == pre.nodes().inners()[a as int]
        &&& forall|a: Addr|
            pre.leaf_trails().dom().contains(a) ==> #[trigger] post.nodes().leaves()[a as int]
                == pre.nodes().leaves()[a as int]
        &&& if leaf {
            &&& !pre.leaf_trails().dom().contains(addr)
            &&& post.leaf_trails() == pre.leaf_trails().insert(addr, trail)
            &&& post.inner_trails() == pre.inner_trails()
            &&& post.nodes().leaves()[addr as int] == ContreeLeaf::zeroed()
        } else {
            &&& !pre.inner_trails().dom().contains(addr)
            &&& post.inner_trails() == pre.inner_trails().insert(addr, trail)
            &&& post.leaf_trails() == pre.leaf_trails()
            &&& post.nodes().inners()[addr as int] == ContreeInner::zeroed()
        }
    }

    /// `post` is `pre` with the material `material` stored in voxel `index`
    /// of the linked leaf `leaf`; no inner node has changed.
    pub open spec fn voxel_set(
        pre: Contree,
        post: Contree,
        leaf: Addr,
        index: int,
        material: u8,
    ) -> bool {
        &&& Contree::same_frame(pre, post)
        &&& 0 <= index < 64
        &&& pre.leaf_trails().dom().contains(leaf)
        &&& post.nodes().inners() == pre.nodes().inners()
        &&& post.nodes().leaves().len() == pre.nodes().leaves().len()
        &&& post.nodes().leaves()[leaf as int].holds(
            pre.nodes().leaves()[leaf as int],
            index,
            material,
        )
        &&& forall|a: Addr|
            a != leaf && a < pre.nodes().leaves().len()
                ==> #[trigger] post.nodes().leaves()[a as int] == pre.nodes().leaves()[a as int]
    }

    /// `post` is `pre` after the cube has grown once.
    pub open spec fn grown(pre: Contree, post: Contree) -> bool {
        let new_root = post.root();
        &&& post.size() == pre.size() * 4
        &&& post.center_offset() == grown_center(pre.center_offset(), pre.size())
        &&& post.binding() == pre.binding()
        &&& !pre.inner_trails().dom().contains(new_root)
        &&& new_root < post.nodes().inners().len()
        &&& post.nodes().inners()[new_root as int].links(
            ContreeInner::zeroed(),
            GROW_SLOT as int,
            pre.root(),
            false,
        )
        &&& forall|a: Addr|
            pre.inner_trails().dom().contains(a) ==> #[trigger] post.nodes().inners()[a as int]
                == pre.nodes().inners()[a as int]
        &&& post.nodes().leaves() == pre.nodes().leaves()
        &&& post.nodes().inners().len() >= pre.nodes().inners().len()
        &&& post.inner_trails().dom() =~= pre.inner_trails().dom().insert(new_root)
        &&& post.inner_trails()[new_root] == Seq::<ChildIndex>::empty()
        &&& forall|a: Addr|
            pre.inner_trails().dom().contains(a) ==> #[trigger] post.inner_trails()[a]
                == pre.inner_trails()[a].push(GROW_SLOT)
        &&& post.leaf_trails().dom() =~= pre.leaf_trails().dom()
        &&& forall|a: Addr|
            pre.leaf_trails().dom().contains(a) ==> #[trigger] post.leaf_trails()[a]
                == pre.leaf_trails()[a].push(GROW_SLOT)
        &&& forall|a: Addr|
            post.inner_trails().dom().contains(a)
                ==> !post.nodes().inner_tombstones().contains(a)
        &&& post.nodes().leaf_tombstones() == pre.nodes().leaf_tombstones()
        &&& post.nodes().wf()
    }

    /// Whether `post` has every node that the root of `pre` leads to where
    /// it was and as it was, but for slots that held no child and, at most,
    /// for the voxel `but.1` of the leaf `but.0`: no record has moved, no
    /// light mask has changed, no slot that held a child points elsewhere,
    /// and no other voxel holds anything else.
    pub open spec fn kept(pre: Contree, post: Contree, but: Option<(Addr, int)>) -> bool {
        &&& forall|a: Addr| #[trigger]
            pre.inner_trails().dom().contains(a) ==> post.inner_trails().dom().contains(a)
                && post.nodes().inners()[a as int].keeps(pre.nodes().inners()[a as int])
        &&& forall|l: Addr| #[trigger]
            pre.leaf_trails().dom().contains(l) ==> post.leaf_trails().dom().contains(l)
                && post.nodes().leaves()[l as int].keeps(
                pre.nodes().leaves()[l as int],
                Contree::voxel_but(but, l),
            )
    }

    /// The voxel of the leaf `leaf` that `but` names, if it names one.
    pub open spec fn voxel_but(but: Option<(Addr, int)>, leaf: Addr) -> Option<int> {
        match but {
            Some((l, v)) => if l == leaf {
                Some(v)
            } else {
                None
            },
            None => None,
        }
    }

    /// Whether the two indexes have the same cube, root, nodes and freed
    /// addresses.
    pub open spec fn same_tree(&self, other: Contree) -> bool {
        &&& self.root() == other.root()
        &&& self.size() == other.size()
        &&& self.center_offset() == other.center_offset()
        &&& self.nodes().inners() == other.nodes().inners()
        &&& self.nodes().leaves() == other.nodes().leaves()
        &&& self.nodes().inner_tombstones() == other.nodes().inner_tombstones()
        &&& self.nodes().leaf_tombstones() == other.nodes().leaf_tombstones()
    }

    /// `post` is `pre` after `material` was put at `pos`, and `chain` is
    /// what the insertion returned: the cube has grown as far as it had to,
    /// `pos` has the material, every other cell is as it was, and `chain`
    /// is the way from the root to the leaf of `pos`. Where `pos` had the
    /// material before, no node, no freed address, neither root nor cube
    /// has changed. The cube, the root and the arena are what
    /// `TreeState::with_material` makes of those of `pre`, whatever the
    /// bridge is: one node was made for every step of growth and one for
    /// every digit but the last that the walk for `pos` had left unused,
    /// each at the address that the arena hands out next, the root first
    /// and the leaf last. A cube that held `pos` has kept its root. Every
    /// node that the root led to stands where it stood, with its light mask
    /// and with every slot that held a child, and no voxel but that of
    /// `pos` holds anything else. An attached bridge got two commands for
    /// every node made and then one for the leaf of `pos`, after those it
    /// had, and the device still holds the arena if it did before.
    pub open spec fn inserted(
        pre: Contree,
        post: Contree,
        pos: Position,
        material: u8,
        chain: Seq<Addr>,
    ) -> bool {
        &&& post.wf()
        &&& post@ == pre@.insert(pos, material)
        &&& post.material_at(pos) == Some(material)
        &&& (post.center_offset(), post.size()) == settled(pre.center_offset(), pre.size(), pos)
        &&& in_cube(post.center_offset(), post.size(), pos)
        &&& post.binding() == pre.binding()
        &&& post.find_spec(pos).leaf is Some
        &&& post.find_spec(pos).stack.len() == 1
        &&& post.find_spec(pos).parents == chain
        &&& pre.material_at(pos) == Some(material) ==> post.same_tree(pre)
        &&& pre.issued().is_prefix_of(post.issued())
        &&& pre.mirrored() ==> post.mirrored()
        &&& Contree::sent(pre, post) == pre.commands_of(
            2 * (post.nodes().live() - pre.nodes().live()) + 1,
        )
        &&& post.depth() - pre.depth() <= post.nodes().live() - pre.nodes().live()
            < post.depth() - pre.depth() + post.depth()
        &&& 2 <= pre.depth() <= post.depth() <= 10
        &&& (post.state(), chain) == pre.state().with_material(pos, material)
        &&& in_cube(pre.center_offset(), pre.size(), pos) ==> post.root() == pre.root()
        &&& post.nodes().live() - pre.nodes().live() == post.depth() - pre.depth()
            + Contree::missing(pre.state().settled(pos).found(pos))
        &&& pre.nodes().inners().len() <= post.nodes().inners().len()
        &&& pre.nodes().leaves().len() <= post.nodes().leaves().len() <= pre.nodes().leaves().len()
            + 1
        &&& post.nodes().inners().len() - pre.nodes().inners().len() + post.nodes().leaves().len()
            - pre.nodes().leaves().len() <= post.nodes().live() - pre.nodes().live()
        &&& Contree::last_sent(post, post.find_spec(pos).leaf.unwrap())
        &&& Contree::kept(
            pre,
            post,
            Some((post.find_spec(pos).leaf.unwrap(), post.find_spec(pos).stack[0] as int)),
        )
    }

    /// `post` is `pre` after the cube has grown until it holds `pos`: one
    /// new root for every step, each with the previous root in
    /// `GROW_SLOT`; no cell has changed, and no node that the root led to.
    pub open spec fn reached(pre: Contree, post: Contree, pos: Position) -> bool {
        &&& post.wf()
        &&& in_cube(post.center_offset(), post.size(), pos)
        &&& (post.center_offset(), post.size()) == settled(pre.center_offset(), pre.size(), pos)
        &&& post.state() == pre.state().settled(pos)
        &&& post.binding() == pre.binding()
        &&& forall|q: Position| post.material_at(q) == pre.material_at(q)
        &&& in_cube(pre.center_offset(), pre.size(), pos) ==> post == pre
        &&& pre.mirrored() ==> post.mirrored()
        &&& pre.issued().is_prefix_of(post.issued())
        &&& Contree::sent(pre, post) == pre.commands_of(
            2 * (post.nodes().live() - pre.nodes().live()),
        )
        &&& post.nodes().live() - pre.nodes().live() == post.depth() - pre.depth()
        &&& 2 <= pre.depth() <= post.depth() <= 10
        &&& pre.nodes().inners().len() <= post.nodes().inners().len()
        &&& post.nodes().inners().len() - pre.nodes().inners().len() <= post.depth() - pre.depth()
        &&& post.nodes().leaves() == pre.nodes().leaves()
        &&& Contree::kept(pre, post, None)
    }

    /// `post` is `pre` after `material` was put at `pos`, a cell of the
    /// cube, and `chain` is the way to its leaf: where the walk for `pos`
    /// ended in a leaf, one voxel was stored; else a node was made first
    /// for every unused digit but the last.
    pub open spec fn placed(
        pre: Contree,
        post: Contree,
        pos: Position,
        material: u8,
        chain: Seq<Addr>,
    ) -> bool {
        let leaf = post.find_spec(pos).leaf.unwrap();
        &&& post.wf()
        &&& post.root() == pre.root()
        &&& post.size() == pre.size()
        &&& post.center_offset() == pre.center_offset()
        &&& post.binding() == pre.binding()
        &&& forall|q: Position|
            post.material_at(q) == (if q == pos {
                Some(material)
            } else {
                pre.material_at(q)
            })
        &&& post.find_spec(pos).leaf is Some
        &&& post.find_spec(pos).stack.len() == 1
        &&& post.find_spec(pos).parents == chain
        &&& pre.material_at(pos) == Some(material) ==> post.same_tree(pre)
        &&& pre.issued().is_prefix_of(post.issued())
        &&& pre.mirrored() ==> post.mirrored()
        &&& Contree::sent(pre, post) == pre.commands_of(
            2 * (post.nodes().live() - pre.nodes().live()) + 1,
        )
        &&& post.nodes().live() - pre.nodes().live() == Contree::missing(pre.find_spec(pos))
        &&& 0 <= post.nodes().live() - pre.nodes().live() < pre.depth()
        &&& (post.state(), chain) == pre.state().put(pos, material)
        &&& pre.nodes().inners().len() <= post.nodes().inners().len()
        &&& pre.nodes().leaves().len() <= post.nodes().leaves().len() <= pre.nodes().leaves().len()
            + 1
        &&& post.nodes().inners().len() - pre.nodes().inners().len() + post.nodes().leaves().len()
            - pre.nodes().leaves().len() <= post.nodes().live() - pre.nodes().live()
        &&& Contree::last_sent(post, leaf)
        &&& Contree::kept(pre, post, Some((leaf, post.find_spec(pos).stack[0] as int)))
    }

    /// Whether the command that an attached bridge got last is the write
    /// of the leaf `leaf` as it stands.
    pub open spec fn last_sent(post: Contree, leaf: Addr) -> bool {
        match post.binding().leaf_command(leaf, seq![post.nodes().leaves()[leaf as int]]) {
            Some(command) => post.issued().len() > 0 && post.issued().last() == command,
            None => true,
        }
    }

    /// Number of nodes that the way to a cell lacks where the walk for it
    /// ended as `end`: none behind a leaf, else one for every unused digit
    /// but the last.
    pub open spec fn missing(end: Walk) -> int {
        if end.leaf is Some {
            0
        } else {
            end.stack.len() - 1
        }
    }

    /// An index over the cube of side `size` around `center_offset`, with
    /// an empty root, which is mirrored. None if `size` is no power of 2
    /// from `MIN_SIZE` to `MAX_SIZE`, or an axis of the centre lies beyond
    /// `CENTER_LIMIT`.
    pub fn new(center_offset: Position, size: u32, gpu: GPUBinding) -> (tree: Option<Contree>)
        ensures
            tree.is_some() == (valid_size(size) && center_ok(center_offset, 0)),
            match tree {
                Some(t) => {
                    &&& t.wf()
                    &&& t.size() == size
                    &&& t.center_offset() == center_offset
                    &&& t.binding() == gpu
                    &&& t.root() == 0
                    &&& t@ == Map::<Position, u8>::empty()
                    &&& t.nodes().inners() == seq![ContreeInner::zeroed()]
                    &&& t.nodes().leaves().len() == 0
                    &&& t.nodes().inner_tombstones().len() == 0
                    &&& t.nodes().leaf_tombstones().len() == 0
                    &&& t.issued() == option_seq(gpu.inner_command(0, seq![ContreeInner::zeroed()]))
                    &&& t.mirrored()
                },
                None => true,
            },
    {
        if size < MIN_SIZE || size > MAX_SIZE {
            return None;
        }
        let side = four_to(level_count(size));
        if side != size && side as u64 != 2 * size as u64 {
            return None;
        }
        if center_offset.x < -CENTER_LIMIT || center_offset.x > CENTER_LIMIT || center_offset.y
            < -CENTER_LIMIT || center_offset.y > CENTER_LIMIT || center_offset.z < -CENTER_LIMIT
            || center_offset.z > CENTER_LIMIT {
            return None;
        }
        let mut tree = Contree {
            center_offset,
            root: 0,
            size,
            arena: Arena::new(),
            gpu,
            inner_trail: Ghost(Map::empty()),
            leaf_trail: Ghost(Map::empty()),
            issued: Ghost(Seq::empty()),
        };
        let ghost blank = tree;
        proof {
            assert(blank.mirrored());
        }
        let root = tree.new_root_node();
        let ghost made = tree;
        tree.root = root;
        proof {
            tree.inner_trail@ = Map::<Addr, Seq<ChildIndex>>::empty().insert(
                root,
                Seq::<ChildIndex>::empty(),
            );
            Contree::lemma_sync_kept(made, tree, None, None);
            lemma_zeroed_is_empty();
            lemma_valid_size(size);
            assert(tree.nodes().inners() =~= seq![ContreeInner::zeroed()]);
            assert(tree.wf());
            assert forall|q: Position| tree.material_at(q) is None by {
                if in_cube(center_offset, size, q) {
                    tree.lemma_path_of(q, q);
                    let digits = tree.path_of(q);
                    assert(!tree.nodes().inners()[0].occupied(digits.last() as int));
                }
            }
            assert(tree@ =~= Map::<Position, u8>::empty());
            assert(Seq::<WriteView>::empty() + option_seq(
                gpu.inner_command(0, seq![ContreeInner::zeroed()]),
            ) =~= option_seq(gpu.inner_command(0, seq![ContreeInner::zeroed()])));
        }
        Some(tree)
    }

    /// As `new`, for a cube that reaches `half_extent` cells from the
    /// centre to each face.
    pub fn with_half_extent(center_offset: Position, half_extent: u32, gpu: GPUBinding) -> (tree:
        Option<Contree>)
        ensures
            tree.is_some() == (half_extent <= MAX_SIZE / 2 && valid_size((2 * half_extent) as u32)
                && center_ok(center_offset, 0)),
            match tree {
                Some(t) => {
                    &&& t.wf()
                    &&& t.size() == 2 * half_extent
                    &&& t.center_offset() == center_offset
                    &&& t.binding() == gpu
                    &&& t.root() == 0
                    &&& t@ == Map::<Position, u8>::empty()
                    &&& t.nodes().inners() == seq![ContreeInner::zeroed()]
                    &&& t.nodes().leaves().len() == 0
                    &&& t.nodes().inner_tombstones().len() == 0
                    &&& t.nodes().leaf_tombstones().len() == 0
                    &&& t.mirrored()
                },
                None => true,
            },
    {
        if half_extent > MAX_SIZE / 2 {
            return None;
        }
        Contree::new(center_offset, 2 * half_extent, gpu)
    }

    /// The address of the root, an inner node.
    #[verifier::when_used_as_spec(spec_root)]
    pub fn root(&self) -> (root: Addr)
        ensures
            root == self.spec_root(),
    {
        self.root
    }

    /// The side of the cube, from face to face.
    #[verifier::when_used_as_spec(spec_size)]
    pub fn size(&self) -> (size: u32)
        ensures
            size == self.spec_size(),
    {
        self.size
    }

    /// The cell at the centre of the cube.
    #[verifier::when_used_as_spec(spec_center_offset)]
    pub fn center_offset(&self) -> (center: Position)
        ensures
            center == self.spec_center_offset(),
    {
        self.center_offset
    }

    /// Distance from the centre of the cube to each face.
    pub fn half_extent(&self) -> (half: u32)
        ensures
            half == self.size() / 2,
    {
        self.size / 2
    }

    /// The inner record at `addr`, if there is one.
    pub fn inner(&self, addr: Addr) -> (node: Option<ContreeInner>)
        ensures
            node == (if addr < self.nodes().inners().len() {
                Some(self.nodes().inners()[addr as int])
            } else {
                None
            }),
    {
        self.arena.inner(addr)
    }

    /// The leaf record at `addr`, if there is one.
    pub fn leaf(&self, addr: Addr) -> (node: Option<ContreeLeaf>)
        ensures
            node == (if addr < self.nodes().leaves().len() {
                Some(self.nodes().leaves()[addr as int])
            } else {
                None
            }),
    {
        self.arena.leaf(addr)
    }

    /// Number of inner records in the arena.
    pub fn inner_count(&self) -> (n: usize)
        ensures
            n == self.nodes().inners().len(),
    {
        self.arena.inner_count()
    }

    /// Number of leaf records in the arena.
    pub fn leaf_count(&self) -> (n: usize)
        ensures
            n == self.nodes().leaves().len(),
    {
        self.arena.leaf_count()
    }

    /// Distance from the centre along one axis, where a negative offset
    /// counts one unit less than its magnitude.
    pub fn svo_abs(v: i64) -> (d: i64)
        requires
            v > i64::MIN,
        ensures
            d == svo_abs_spec(v as int),
    {
        if v < 0 {
            -v - 1
        } else {
            v
        }
    }

    /// Whether `pos` lies in the cube.
    pub fn in_bounds(&self, pos: Position) -> (inside: bool)
        ensures
            inside == in_cube(self.center_offset(), self.size(), pos),
    {
        let dx = Self::svo_abs(pos.x as i64 - self.center_offset.x as i64);
        let dy = Self::svo_abs(pos.y as i64 - self.center_offset.y as i64);
        let dz = Self::svo_abs(pos.z as i64 - self.center_offset.z as i64);
        max_element(saturate(dx), saturate(dy), saturate(dz)) < self.size / 2
    }

    /// `pos` relative to the low corner of the cube.
    pub fn normalize(&self, pos: Position) -> (local: LocalPos)
        ensures
            local == normalized(self.center_offset(), self.size(), pos),
    {
        let half = (self.size / 2) as i64;
        LocalPos {
            x: saturate(pos.x as i64 - self.center_offset.x as i64 + half),
            y: saturate(pos.y as i64 - self.center_offset.y as i64 + half),
            z: saturate(pos.z as i64 - self.center_offset.z as i64 + half),
        }
    }

    /// The base-64 digits of `code`, least significant first, without
    /// leading zeros; a single 0 for the code zero.
    pub fn to_base_64(code: u64) -> (digits: Vec<ChildIndex>)
        ensures
            digits@ == digits_of(code),
    {
        let mut digits: Vec<ChildIndex> = Vec::new();
        let mut n = code;
        if n == 0 {
            digits.push(0);
            return digits;
        }
        while n != 0
            invariant
                n != 0 ==> digits@ + digits_of(n) == digits_of(code),
                n == 0 ==> digits@ == digits_of(code),
            decreases n,
        {
            assert(n & 0b111111 == n % 64) by (bit_vector);
            assert(n >> 6 == n / 64) by (bit_vector);
            let ghost before = digits@;
            digits.push((n & 0b111111) as ChildIndex);
            n >>= 6;
            proof {
                if n == 0 {
                    assert(digits@ =~= before + digits_of((n * 64 + digits@.last()) as u64));
                } else {
                    assert(digits@ + digits_of(n) =~= before + (seq![digits@.last()] + digits_of(
                        n,
                    )));
                }
            }
        }
        digits
    }

    /// The digits of `code` with zeros added until there is one per level.
    fn path_digits(code: u64, depth: usize) -> (digits: Vec<ChildIndex>)
        ensures
            digits@ == padded_digits(code, depth as nat),
    {
        let mut digits = Self::to_base_64(code);
        let ghost plain = digits@;
        proof {
            lemma_padded_digits_is_padding(code, depth as nat);
        }
        while digits.len() < depth
            invariant
                plain == digits_of(code),
                digits@.len() >= plain.len(),
                digits@.take(plain.len() as int) == plain,
                digits@.len() == plain.len() || digits@.len() <= depth,
                forall|i: int| plain.len() <= i < digits@.len() ==> digits@[i] == 0,
            decreases depth - digits.len(),
        {
            digits.push(0);
            assert(digits@.take(plain.len() as int) =~= plain);
        }
        proof {
            let padded = padded_digits(code, depth as nat);
            assert(padded.len() == digits@.len());
            assert forall|i: int| 0 <= i < padded.len() implies padded[i] == digits@[i] by {
                if i < plain.len() {
                    assert(padded.take(plain.len() as int)[i] == plain[i]);
                    assert(digits@.take(plain.len() as int)[i] == plain[i]);
                }
            }
            assert(digits@ =~= padded);
        }
        digits
    }

    /// The walk for `pos` from the root: where it ends, which nodes it
    /// goes through and which digits it leaves unused.
    pub fn find(&self, pos: Position) -> (found: FindResult)
        requires
            self.wf(),
        ensures
            found.matches_walk(self.size(), self.find_spec(pos)),
    {
        let local = self.normalize(pos);
        let code = morton_code(local);
        let depth = level_count(self.size);
        let mut traversal_stack = Self::path_digits(code, depth);
        let ghost digits = traversal_stack@;
        let mut parent_addrs: Vec<Addr> = Vec::new();
        parent_addrs.push(self.root);
        let mut current = self.root;
        proof {
            lemma_morton_bits(local.x, local.y, local.z);
            lemma_padded_digits_bounds(code, depth as nat);
            lemma_valid_size(self.size);
            assert(digits == self.path_of(pos));
            assert(parent_addrs@ =~= seq![self.root()]);
            assert(digits.take(digits.len() as int) =~= digits);
            assert(digits.skip(digits.len() as int) =~= Seq::<ChildIndex>::empty());
        }
        loop
            invariant
                self.wf(),
                depth == self.depth(),
                2 <= depth <= 10,
                forall|i: int| 0 <= i < digits.len() ==> digits[i] < 64,
                traversal_stack@.len() <= digits.len(),
                traversal_stack@ == digits.take(traversal_stack@.len() as int),
                self.inner_trails().dom().contains(current),
                self.inner_trails()[current] == digits.skip(traversal_stack@.len() as int),
                digits.len() >= depth,
                parent_addrs@.len() == self.inner_trails()[current].len() + 1,
                self.find_spec(pos) == walk(
                    self.nodes().inners(),
                    current,
                    traversal_stack@,
                    parent_addrs@,
                ),
            decreases traversal_stack@.len(),
        {
            let ghost trail = self.inner_trails()[current];
            assert(traversal_stack@.len() >= 2);
            let index = traversal_stack[traversal_stack.len() - 1];
            assert(index == digits[traversal_stack@.len() - 1]);
            let node = self.arena.get_inner(current);
            let child_addr = node.children[index];
            let child_exists = node.has_child(index);
            let child_leaf = node.has_leaf(index);
            assert(slot_ok(
                *node,
                index as int,
                trail,
                self.inner_trails(),
                self.leaf_trails(),
                self.depth(),
            ));
            if child_exists && child_leaf {
                traversal_stack.pop();
                let node_size = self.size / four_to(parent_addrs.len() + 1);
                return FindResult {
                    leaf_address: Some(child_addr),
                    traversal_stack,
                    node_size,
                    parent_addrs,
                };
            } else if child_exists {
                traversal_stack.pop();
                parent_addrs.push(child_addr);
                current = child_addr;
                proof {
                    let left = traversal_stack@.len() as int;
                    assert(traversal_stack@ =~= digits.take(left));
                    assert(digits.skip(left) =~= seq![index] + digits.skip(left + 1));
                }
            } else {
                let node_size = self.size / four_to(parent_addrs.len() - 1);
                return FindResult {
                    leaf_address: None,
                    traversal_stack,
                    node_size,
                    parent_addrs,
                };
            }
        }
    }

    /// The material of the cell `pos`, if it has one.
    pub fn get(&self, pos: Position) -> (material: Option<u8>)
        requires
            self.wf(),
        ensures
            material == self.material_at(pos),
            material == (if self@.dom().contains(pos) {
                Some(self@[pos])
            } else {
                None
            }),
    {
        if !self.in_bounds(pos) {
            return None;
        }
        let found = self.find(pos);
        proof {
            let digits = self.path_of(pos);
            let root = self.root();
            self.lemma_path_of(pos, pos);
            assert(digits.take(digits.len() as int) =~= digits);
            assert(digits.skip(digits.len() as int) =~= Seq::<ChildIndex>::empty());
            self.lemma_walk_ends(digits, digits.len() as int, root, seq![root]);
        }
        match found.leaf_address {
            Some(addr) => {
                if found.traversal_stack.len() == 1 {
                    let leaf = self.arena.get_leaf(addr);
                    let index = found.traversal_stack[0];
                    if leaf.has_voxel(index) {
                        Some(leaf.children[index])
                    } else {
                        None
                    }
                } else {
                    None
                }
            },
            None => None,
        }
    }

    /// Hands the inner record at `addr` to the bridge.
    fn emit_inner(&mut self, addr: Addr, Ghost(leaf): Ghost<Option<Addr>>)
        requires
            addr < old(self).nodes().inners().len(),
        ensures
            Contree::same_frame(*old(self), *final(self)),
            final(self).nodes() == old(self).nodes(),
            old(self).mirrored_but(Some(addr), leaf) ==> final(self).mirrored_but(None, leaf),
            old(self).issued().is_prefix_of(final(self).issued()),
            final(self).issued() == old(self).issued() + option_seq(
                old(self).binding().inner_command(
                    addr,
                    seq![old(self).nodes().inners()[addr as int]],
                ),
            ),
    {
        let ghost pre = *self;
        let data = [*self.arena.get_inner(addr)];
        let command = self.gpu.write_inner(addr, data.as_slice());
        proof {
            assert(data@ =~= seq![self.nodes().inners()[addr as int]]);
            self.issued@ = self.issued@ + option_seq(command@);
            Contree::lemma_sync_inner(pre, *self, addr, leaf);
        }
    }

    /// Hands the leaf record at `addr` to the bridge.
    fn emit_leaf(&mut self, addr: Addr, Ghost(inner): Ghost<Option<Addr>>)
        requires
            addr < old(self).nodes().leaves().len(),
        ensures
            Contree::same_frame(*old(self), *final(self)),
            final(self).nodes() == old(self).nodes(),
            old(self).mirrored_but(inner, Some(addr)) ==> final(self).mirrored_but(inner, None),
            old(self).issued().is_prefix_of(final(self).issued()),
            final(self).issued() == old(self).issued() + option_seq(
                old(self).binding().leaf_command(
                    addr,
                    seq![old(self).nodes().leaves()[addr as int]],
                ),
            ),
    {
        let ghost pre = *self;
        let data = [*self.arena.get_leaf(addr)];
        let command = self.gpu.write_leaf(addr, data.as_slice());
        proof {
            assert(data@ =~= seq![self.nodes().leaves()[addr as int]]);
            self.issued@ = self.issued@ + option_seq(command@);
            Contree::lemma_sync_leaf(pre, *self, addr, inner);
        }
    }

    /// Allocates a zeroed inner node that nothing points at yet, and
    /// mirrors it.
    fn new_root_node(&mut self) -> (addr: Addr)
        requires
            old(self).nodes().wf(),
            old(self).nodes().can_allocate_inner(),
        ensures
            Contree::same_frame(*old(self), *final(self)),
            final(self).nodes().wf(),
            Arena::allocated_inner(old(self).nodes(), final(self).nodes(), addr),
            addr == old(self).nodes().state().next_inner(),
            final(self).nodes().state() == old(self).nodes().state().with_new_inner(),
            addr < final(self).nodes().inners().len(),
            final(self).nodes().inners()[addr as int] == ContreeInner::zeroed(),
            final(self).issued() == old(self).issued() + option_seq(
                old(self).binding().inner_command(addr, seq![ContreeInner::zeroed()]),
            ),
            old(self).mirrored() ==> final(self).mirrored(),
            old(self).issued().is_prefix_of(final(self).issued()),
    {
        let ghost pre = *self;
        let addr = self.arena.allocate_inner();
        proof {
            Contree::lemma_sync_kept(pre, *self, Some(addr), None);
        }
        self.emit_inner(addr, Ghost(None));
        addr
    }

    /// Sets the three flags of slot `child` of the inner node `parent`, and
    /// mirrors the node.
    fn update_parent_bitflags(
        &mut self,
        parent: Addr,
        child: ChildIndex,
        exists: bool,
        leaf: bool,
        light: bool,
        Ghost(stale): Ghost<Option<Addr>>,
    )
        requires
            old(self).nodes().wf(),
            parent < old(self).nodes().inners().len(),
            child < 64,
        ensures
            Contree::same_frame(*old(self), *final(self)),
            final(self).nodes().wf(),
            old(self).mirrored_but(Some(parent), stale) ==> final(self).mirrored_but(None, stale),
            old(self).issued().is_prefix_of(final(self).issued()),
            Arena::inner_replaced(
                old(self).nodes(),
                final(self).nodes(),
                parent,
                old(self).nodes().inners()[parent as int].with_flags(
                    child as int,
                    exists,
                    leaf,
                    light,
                ),
            ),
            final(self).issued() == old(self).issued() + option_seq(
                old(self).binding().inner_command(
                    parent,
                    seq![final(self).nodes().inners()[parent as int]],
                ),
            ),
    {
        let mask = 1u64 << (child as u64);
        let mut node = *self.arena.get_inner(parent);
        node.contains = node.contains & !mask;
        if exists {
            node.contains = node.contains | mask;
        }
        node.leaf = node.leaf & !mask;
        if leaf {
            node.leaf = node.leaf | mask;
        }
        node.light = node.light & !mask;
        if light {
            node.light = node.light | mask;
        }
        let ghost pre = *self;
        self.arena.set_inner(parent, node);
        proof {
            Contree::lemma_sync_kept(pre, *self, Some(parent), stale);
        }
        self.emit_inner(parent, Ghost(stale));
    }

    /// Allocates a zeroed inner node, links it into the empty slot `index`
    /// of `parent`, and mirrors both nodes.
    fn new_inner_node(&mut self, parent: Addr, index: ChildIndex) -> (addr: Addr)
        requires
            old(self).wf(),
            old(self).nodes().can_allocate_inner(),
            old(self).inner_trails().dom().contains(parent),
            index < 64,
            !old(self).nodes().inners()[parent as int].occupied(index as int),
            old(self).inner_trails()[parent].len() + 3 <= old(self).depth(),
            parent == old(self).root() ==> old(self).root_slot(index as int),
        ensures
            final(self).wf(),
            addr == old(self).nodes().state().next_inner(),
            addr != parent,
            final(self).state() == old(self).state().with_inner_child(parent, index as int),
            Contree::linked(*old(self), *final(self), parent, index as int, addr, false),
            final(self).nodes().leaves() == old(self).nodes().leaves(),
            final(self).nodes().leaf_tombstones() == old(self).nodes().leaf_tombstones(),
            final(self).nodes().inners().len() <= old(self).nodes().inners().len() + 1,
            old(self).mirrored() ==> final(self).mirrored(),
            old(self).issued().is_prefix_of(final(self).issued()),
            final(self).nodes().live() == old(self).nodes().live() + 1,
            Contree::sent(*old(self), *final(self)) == old(self).commands_of(2),
    {
        let ghost pre = *self;
        let addr = self.new_root_node();
        let ghost mid = *self;
        let mut node = *self.arena.get_inner(parent);
        node.children[index] = addr;
        self.arena.set_inner(parent, node);
        proof {
            Contree::lemma_sync_kept(mid, *self, Some(parent), None);
        }
        let ghost set = *self;
        self.update_parent_bitflags(parent, index, true, false, false, Ghost(None));
        let ghost flagged = *self;
        proof {
            Contree::lemma_prefix_chain(pre.issued(), set.issued(), self.issued());
            let before = mid.nodes().inners()[parent as int];
            let after = self.nodes().inners()[parent as int];
            assert(node.children@ == before.children@.update(index as int, addr));
            lemma_record_made(
                after,
                before,
                ContreeLeaf::zeroed(),
                ContreeLeaf::zeroed(),
                index as int,
                addr,
                false,
                0,
            );
            assert(self.nodes().inners() =~= mid.nodes().inners().update(parent as int, after));
            assert(self.nodes().state() =~= mid.nodes().state().with_inner(parent, after));
        }
        proof {
            let trail = seq![index] + pre.inner_trails()[parent];
            self.inner_trail@ = self.inner_trail@.insert(addr, trail);
            Contree::lemma_sync_kept(flagged, *self, None, None);
            Contree::lemma_fresh_inner(pre, mid, addr);
            assert(Contree::linked(pre, *self, parent, index as int, addr, false));
            Contree::lemma_linked_wf(pre, *self, parent, index as int, addr, false);
        }
        addr
    }

    /// Allocates a zeroed leaf, links it into the empty slot `index` of
    /// `parent`, and mirrors both nodes.
    fn new_leaf_node(&mut self, parent: Addr, index: ChildIndex) -> (addr: Addr)
        requires
            old(self).wf(),
            old(self).nodes().can_allocate_leaf(),
            old(self).inner_trails().dom().contains(parent),
            index < 64,
            !old(self).nodes().inners()[parent as int].occupied(index as int),
            old(self).inner_trails()[parent].len() + 2 == old(self).depth(),
            parent == old(self).root() ==> old(self).root_slot(index as int),
        ensures
            final(self).wf(),
            addr == old(self).nodes().state().next_leaf(),
            final(self).state() == old(self).state().with_leaf_child(parent, index as int),
            Contree::linked(*old(self), *final(self), parent, index as int, addr, true),
            final(self).nodes().inners().len() == old(self).nodes().inners().len(),
            final(self).nodes().inner_tombstones() == old(self).nodes().inner_tombstones(),
            final(self).nodes().leaves().len() <= old(self).nodes().leaves().len() + 1,
            old(self).mirrored() ==> final(self).mirrored(),
            old(self).issued().is_prefix_of(final(self).issued()),
            final(self).nodes().live() == old(self).nodes().live() + 1,
            Contree::sent(*old(self), *final(self)) == old(self).commands_of(2),
    {
        let ghost pre = *self;
        let addr = self.arena.allocate_leaf();
        let ghost mid = *self;
        let mut node = *self.arena.get_inner(parent);
        node.children[index] = addr;
        self.arena.set_inner(parent, node);
        proof {
            Contree::lemma_sync_kept(pre, *self, Some(parent), Some(addr));
        }
        self.update_parent_bitflags(parent, index, true, true, false, Ghost(Some(addr)));
        let ghost flagged = *self;
        self.emit_leaf(addr, Ghost(None));
        let ghost sent = *self;
        proof {
            Contree::lemma_prefix_chain(pre.issued(), flagged.issued(), self.issued());
            let before = mid.nodes().inners()[parent as int];
            let after = self.nodes().inners()[parent as int];
            assert(node.children@ == before.children@.update(index as int, addr));
            lemma_record_made(
                after,
                before,
                ContreeLeaf::zeroed(),
                ContreeLeaf::zeroed(),
                index as int,
                addr,
                true,
                0,
            );
            assert(self.nodes().inners() =~= mid.nodes().inners().update(parent as int, after));
            assert(self.nodes().state() =~= mid.nodes().state().with_inner(parent, after));
        }
        proof {
            let trail = seq![index] + pre.inner_trails()[parent];
            self.leaf_trail@ = self.leaf_trail@.insert(addr, trail);
            Contree::lemma_sync_kept(sent, *self, None, None);
            Contree::lemma_fresh_leaf(pre, mid, addr);
            assert(Contree::linked(pre, *self, parent, index as int, addr, true));
            Contree::lemma_linked_wf(pre, *self, parent, index as int, addr, true);
        }
        addr
    }

    /// Stores `material` in voxel `index` of the leaf `leaf`, and mirrors
    /// the leaf.
    fn set_voxel(&mut self, leaf: Addr, index: ChildIndex, material: u8)
        requires
            old(self).wf(),
            old(self).leaf_trails().dom().contains(leaf),
            index < 64,
        ensures
            final(self).wf(),
            final(self).state() == old(self).state().with_voxel(leaf, index as int, material),
            final(self).issued() == old(self).issued() + option_seq(
                old(self).binding().leaf_command(
                    leaf,
                    seq![final(self).nodes().leaves()[leaf as int]],
                ),
            ),
            Contree::voxel_set(*old(self), *final(self), leaf, index as int, material),
            final(self).nodes().inner_tombstones() == old(self).nodes().inner_tombstones(),
            final(self).nodes().leaf_tombstones() == old(self).nodes().leaf_tombstones(),
            old(self).nodes().leaves()[leaf as int].material(index as int) == Some(material)
                ==> final(self).nodes().leaves() == old(self).nodes().leaves(),
            old(self).mirrored() ==> final(self).mirrored(),
            old(self).issued().is_prefix_of(final(self).issued()),
            final(self).nodes().live() == old(self).nodes().live(),
            Contree::sent(*old(self), *final(self)) == old(self).commands_of(1),
    {
        let ghost pre = *self;
        let ghost before = self.nodes().leaves()[leaf as int];
        let mut node = *self.arena.get_leaf(leaf);
        node.children[index] = material;
        node.contains = node.contains | (1u64 << (index as u64));
        proof {
            lemma_with_bit(before.contains, index as int, true, index as int);
            lemma_holds(node, before, index as int, material);
            if before.material(index as int) == Some(material) {
                assert(node.children =~= before.children);
                assert(node == before);
                assert(self.nodes().leaves().update(leaf as int, node) =~= self.nodes().leaves());
            }
        }
        self.arena.set_leaf(leaf, node);
        proof {
            Contree::lemma_sync_kept(pre, *self, None, Some(leaf));
            lemma_record_made(
                ContreeInner::zeroed(),
                ContreeInner::zeroed(),
                node,
                before,
                index as int,
                0,
                false,
                material,
            );
        }
        self.emit_leaf(leaf, Ghost(None));
    }

    /// Creates the nodes that the walk for `pos` found missing: an inner
    /// node for every unused digit but the last two, then a leaf. Returns
    /// the leaf and the voxel of `pos` in it; `parent_addrs` gets the new
    /// inner nodes.
    fn add_parents(
        &mut self,
        traversal_stack: &Vec<ChildIndex>,
        parent_addrs: &mut Vec<Addr>,
        Ghost(pos): Ghost<Position>,
    ) -> (target: (Addr, ChildIndex))
        requires
            old(self).wf(),
            old(self).room_for(16),
            in_cube(old(self).center_offset(), old(self).size(), pos),
            old(self).find_spec(pos) == (Walk {
                leaf: None,
                stack: traversal_stack@,
                parents: old(parent_addrs)@,
            }),
        ensures
            final(self).wf(),
            final(self).root() == old(self).root(),
            final(self).size() == old(self).size(),
            final(self).center_offset() == old(self).center_offset(),
            final(self).binding() == old(self).binding(),
            forall|q: Position| final(self).material_at(q) == old(self).material_at(q),
            final(self).find_spec(pos) == (Walk {
                leaf: Some(target.0),
                stack: seq![target.1],
                parents: final(parent_addrs)@,
            }),
            final(self).leaf_trails().dom().contains(target.0),
            target.1 < 64,
            old(self).mirrored() ==> final(self).mirrored(),
            old(self).issued().is_prefix_of(final(self).issued()),
            Contree::sent(*old(self), *final(self)) == old(self).commands_of(
                2 * (final(self).nodes().live() - old(self).nodes().live()),
            ),
            final(self).nodes().live() - old(self).nodes().live() == traversal_stack@.len() - 1,
            (final(self).state(), final(parent_addrs)@, target.0) == old(self).state().paved(
                traversal_stack@,
                old(parent_addrs)@,
            ),
            target.1 == traversal_stack@[0],
            Contree::kept(*old(self), *final(self), None),
            old(parent_addrs)@.is_prefix_of(final(parent_addrs)@),
            old(self).nodes().inners().len() <= final(self).nodes().inners().len(),
            old(self).nodes().leaves().len() <= final(self).nodes().leaves().len()
                <= old(self).nodes().leaves().len() + 1,
            final(self).nodes().inners().len() - old(self).nodes().inners().len()
                <= traversal_stack@.len() - 2,
            final(parent_addrs)@.len() - old(parent_addrs)@.len() == traversal_stack@.len() - 2,
    {
        let ghost start = *self;
        let ghost first = parent_addrs@;
        let ghost digits = self.path_of(pos);
        let ghost root = self.root();
        proof {
            self.lemma_path_of(pos, pos);
            assert(digits.take(digits.len() as int) =~= digits);
            assert(digits.skip(digits.len() as int) =~= Seq::<ChildIndex>::empty());
            self.lemma_walk_ends(digits, digits.len() as int, root, seq![root]);
            lemma_valid_size(self.size());
            if span(self.size() as nat) != self.size() {
                lemma_top_slot(self.center_offset(), self.size(), pos);
            }
        }
        let mut left = traversal_stack.len();
        proof {
            assert(traversal_stack@.take(left as int) =~= traversal_stack@);
        }
        while left > 2
            invariant
                self.wf(),
                self.root() == start.root(),
                self.size() == start.size(),
                self.center_offset() == start.center_offset(),
                self.binding() == start.binding(),
                digits == self.path_of(pos),
                digits.len() == self.depth(),
                forall|i: int| 0 <= i < digits.len() ==> digits[i] < 64,
                2 <= left <= traversal_stack@.len() <= digits.len() <= 10,
                traversal_stack@ == digits.take(traversal_stack@.len() as int),
                self.nodes().inners().len() + left <= start.nodes().inners().len()
                    + traversal_stack@.len(),
                self.nodes().leaves() == start.nodes().leaves(),
                start.room_for(16),
                forall|q: Position| self.material_at(q) == start.material_at(q),
                start.mirrored() ==> self.mirrored(),
                start.issued().is_prefix_of(self.issued()),
                Contree::sent(start, *self) == start.commands_of(
                    2 * (self.nodes().live() - start.nodes().live()),
                ),
                self.nodes().live() - start.nodes().live() == traversal_stack@.len() - left,
                start.state().paved(traversal_stack@, first) == self.state().paved(
                    traversal_stack@.take(left as int),
                    parent_addrs@,
                ),
                first.is_prefix_of(parent_addrs@),
                parent_addrs@.len() - first.len() == traversal_stack@.len() - left,
                start.nodes().inners().len() <= self.nodes().inners().len(),
                Contree::kept(start, *self, None),
                self.find_spec(pos) == (Walk {
                    leaf: None,
                    stack: digits.take(left as int),
                    parents: parent_addrs@,
                }),
                parent_addrs@.len() > 0,
                self.inner_trails().dom().contains(parent_addrs@.last()),
                self.inner_trails()[parent_addrs@.last()] == digits.skip(left as int),
                !self.nodes().inners()[parent_addrs@.last() as int].occupied(
                    digits[left - 1] as int,
                ),
                self.root_slot(digits.last() as int),
                parent_addrs@.last() == self.root() ==> left == digits.len(),
            decreases left,
        {
            let ghost before = *self;
            let ghost chain = parent_addrs@;
            let parent = parent_addrs[parent_addrs.len() - 1];
            let index = traversal_stack[left - 1];
            let addr = self.new_inner_node(parent, index);
            parent_addrs.push(addr);
            proof {
                assert forall|q: Position| self.material_at(q) == start.material_at(q) by {
                    Contree::lemma_linked_material(
                        before,
                        *self,
                        parent,
                        index as int,
                        addr,
                        false,
                        q,
                    );
                }
                Contree::lemma_linked_walk(
                    before,
                    *self,
                    parent,
                    index as int,
                    addr,
                    false,
                    digits,
                    left as int,
                    chain,
                );
                lemma_zeroed_is_empty();
                assert(digits.skip(left - 1) =~= seq![index] + digits.skip(left as int));
                Contree::lemma_prefix_chain(start.issued(), before.issued(), self.issued());
                Contree::lemma_linked_kept(before, *self, parent, index as int, addr, false);
                Contree::lemma_kept_chain(start, before, *self, None);
                let rest = traversal_stack@.take(left as int);
                assert(rest.last() == index);
                assert(rest.drop_last() =~= traversal_stack@.take(left - 1));
                assert(chain.last() == parent);
                assert(parent_addrs@ == chain.push(before.nodes().state().next_inner()));
            }
            left -= 1;
        }
        let ghost before = *self;
        let parent = parent_addrs[parent_addrs.len() - 1];
        let index = traversal_stack[1];
        let leaf_addr = self.new_leaf_node(parent, index);
        proof {
            assert forall|q: Position| self.material_at(q) == start.material_at(q) by {
                Contree::lemma_linked_material(
                    before,
                    *self,
                    parent,
                    index as int,
                    leaf_addr,
                    true,
                    q,
                );
            }
            Contree::lemma_linked_walk(
                before,
                *self,
                parent,
                index as int,
                leaf_addr,
                true,
                digits,
                2,
                parent_addrs@,
            );
            assert(digits.take(1) =~= seq![traversal_stack@[0]]);
            Contree::lemma_prefix_chain(start.issued(), before.issued(), self.issued());
            Contree::lemma_linked_kept(before, *self, parent, index as int, leaf_addr, true);
            Contree::lemma_kept_chain(start, before, *self, None);
            let rest = traversal_stack@.take(2);
            assert(rest[1] == index);
        }
        (leaf_addr, traversal_stack[0])
    }

    /// Makes the cube four times as wide: a new root takes the previous
    /// root as the child in `GROW_SLOT`, and the centre moves by half the
    /// previous side. No other node changes, and every cell keeps its
    /// material.
    fn grow(&mut self)
        requires
            old(self).wf(),
            old(self).size() * 4 <= MAX_SIZE,
            old(self).nodes().can_allocate_inner(),
        ensures
            final(self).wf(),
            final(self).state() == old(self).state().grown(),
            Contree::kept(*old(self), *final(self), None),
            final(self).size() == old(self).size() * 4,
            final(self).center_offset() == grown_center(
                old(self).center_offset(),
                old(self).size(),
            ),
            final(self).binding() == old(self).binding(),
            forall|q: Position| final(self).material_at(q) == old(self).material_at(q),
            final(self).nodes().inners().len() <= old(self).nodes().inners().len() + 1,
            final(self).nodes().leaves() == old(self).nodes().leaves(),
            old(self).mirrored() ==> final(self).mirrored(),
            old(self).issued().is_prefix_of(final(self).issued()),
            final(self).nodes().live() == old(self).nodes().live() + 1,
            Contree::sent(*old(self), *final(self)) == old(self).commands_of(2),
    {
        let ghost pre = *self;
        proof {
            lemma_valid_size(self.size());
        }
        let new_root = self.new_root_node();
        let ghost mid = *self;
        let mut node = *self.arena.get_inner(new_root);
        node.children[GROW_SLOT] = self.root;
        self.arena.set_inner(new_root, node);
        proof {
            Contree::lemma_sync_kept(mid, *self, Some(new_root), None);
        }
        let ghost set = *self;
        self.update_parent_bitflags(new_root, GROW_SLOT, true, false, false, Ghost(None));
        let ghost flagged = *self;
        proof {
            Contree::lemma_prefix_chain(pre.issued(), set.issued(), self.issued());
            let before = mid.nodes().inners()[new_root as int];
            let after = self.nodes().inners()[new_root as int];
            assert(node.children@ == before.children@.update(GROW_SLOT as int, pre.root()));
            lemma_record_made(
                after,
                before,
                ContreeLeaf::zeroed(),
                ContreeLeaf::zeroed(),
                GROW_SLOT as int,
                pre.root(),
                false,
                0,
            );
            assert(self.nodes().inners() =~= mid.nodes().inners().update(new_root as int, after));
            assert(self.nodes().state() =~= mid.nodes().state().with_inner(new_root, after));
        }
        let shift = shift_of(self.size);
        self.center_offset = Position {
            x: self.center_offset.x + shift,
            y: self.center_offset.y + shift,
            z: self.center_offset.z + shift,
        };
        self.root = new_root;
        self.size = self.size * 4;
        proof {
            let old_inner = pre.inner_trails();
            let old_leaf = pre.leaf_trails();
            self.inner_trail@ = Map::new(
                |a: Addr| a == new_root || old_inner.dom().contains(a),
                |a: Addr|
                    if a == new_root {
                        Seq::<ChildIndex>::empty()
                    } else {
                        old_inner[a].push(GROW_SLOT)
                    },
            );
            self.leaf_trail@ = Map::new(
                |a: Addr| old_leaf.dom().contains(a),
                |a: Addr| old_leaf[a].push(GROW_SLOT),
            );
            Contree::lemma_fresh_inner(pre, mid, new_root);
            Contree::lemma_sync_kept(flagged, *self, None, None);
            assert(Contree::grown(pre, *self));
            Contree::lemma_grown_wf(pre, *self);
            Contree::lemma_grown_kept(pre, *self);
            assert forall|q: Position| self.material_at(q) == pre.material_at(q) by {
                Contree::lemma_grown_material(pre, *self, q);
            }
        }
    }

    /// Whether `insert` may be called for `pos`: growth can make the cube
    /// hold it, and the arena has addresses left.
    pub fn can_insert(&self, pos: Position) -> (ok: bool)
        requires
            self.wf(),
        ensures
            ok == (self.can_hold(pos) && self.has_room()),
    {
        if self.arena.inner_count() as u64 + 32 > ADDR_LIMIT || self.arena.leaf_count() as u64 + 1
            > ADDR_LIMIT {
            return false;
        }
        let mut center = self.center_offset;
        let mut size = self.size;
        proof {
            lemma_valid_size(size);
        }
        loop
            invariant
                valid_size(size),
                center_ok(center, size),
                settled(center, size, pos) == settled(self.center_offset(), self.size(), pos),
                self.has_room(),
            decreases MAX_SIZE - size,
        {
            proof {
                lemma_valid_size(size);
            }
            let half = (size / 2) as i64;
            let dx = Self::svo_abs(pos.x as i64 - center.x as i64);
            let dy = Self::svo_abs(pos.y as i64 - center.y as i64);
            let dz = Self::svo_abs(pos.z as i64 - center.z as i64);
            if dx < half && dy < half && dz < half {
                return true;
            }
            if size > MAX_SIZE / 4 {
                return false;
            }
            proof {
                lemma_grown_offsets(center, size, pos);
            }
            let shift = shift_of(size);
            center = Position { x: center.x + shift, y: center.y + shift, z: center.z + shift };
            size = size * 4;
        }
    }

    /// Grows the cube, by a factor of 4 at a time, until it holds `pos`.
    fn reach(&mut self, pos: Position)
        requires
            old(self).wf(),
            old(self).can_hold(pos),
            old(self).has_room(),
        ensures
            Contree::reached(*old(self), *final(self), pos),
    {
        let ghost start = *self;
        proof {
            lemma_valid_size(self.size());
        }
        while !self.in_bounds(pos)
            invariant
                self.wf(),
                start.wf(),
                start.has_room(),
                settled(self.center_offset(), self.size(), pos) == settled(
                    start.center_offset(),
                    start.size(),
                    pos,
                ),
                start.can_hold(pos),
                self.binding() == start.binding(),
                forall|q: Position| self.material_at(q) == start.material_at(q),
                self.nodes().leaves() == start.nodes().leaves(),
                2 <= start.depth() <= self.depth() <= 10,
                in_cube(start.center_offset(), start.size(), pos) ==> *self == start,
                start.mirrored() ==> self.mirrored(),
                start.issued().is_prefix_of(self.issued()),
                Contree::sent(start, *self) == start.commands_of(
                    2 * (self.nodes().live() - start.nodes().live()),
                ),
                self.nodes().live() - start.nodes().live() == self.depth() - start.depth(),
                start.state().settled(pos) == self.state().settled(pos),
                start.nodes().inners().len() <= self.nodes().inners().len(),
                self.nodes().inners().len() - start.nodes().inners().len() <= self.depth()
                    - start.depth(),
                Contree::kept(start, *self, None),
            decreases MAX_SIZE - self.size(),
        {
            proof {
                lemma_valid_size(self.size());
            }
            let ghost before = *self;
            self.grow();
            proof {
                lemma_valid_size(self.size());
                Contree::lemma_prefix_chain(start.issued(), before.issued(), self.issued());
                Contree::lemma_kept_chain(start, before, *self, None);
            }
        }
    }

    /// Puts `material` at `pos`, a cell of the cube: makes the nodes that
    /// the way to `pos` lacks and stores the voxel.
    fn place(&mut self, pos: Position, material: u8) -> (parent_addrs: Vec<Addr>)
        requires
            old(self).wf(),
            old(self).room_for(16),
            in_cube(old(self).center_offset(), old(self).size(), pos),
        ensures
            Contree::placed(*old(self), *final(self), pos, material, parent_addrs@),
    {
        let ghost start = *self;
        let FindResult { leaf_address, traversal_stack, mut parent_addrs, .. } = self.find(pos);
        let ghost digits = self.path_of(pos);
        let ghost root = self.root();
        proof {
            lemma_valid_size(self.size());
            self.lemma_path_of(pos, pos);
            assert(digits.take(digits.len() as int) =~= digits);
            assert(digits.skip(digits.len() as int) =~= Seq::<ChildIndex>::empty());
            self.lemma_walk_ends(digits, digits.len() as int, root, seq![root]);
        }
        match leaf_address {
            Some(leaf_addr) => {
                let child_index = traversal_stack[traversal_stack.len() - 1];
                proof {
                    assert(traversal_stack@ =~= seq![child_index]);
                }
                self.set_voxel(leaf_addr, child_index, material);
                proof {
                    Contree::lemma_voxel_kept(
                        start,
                        *self,
                        leaf_addr,
                        child_index as int,
                        material,
                    );
                    assert forall|q: Position| self.material_at(q) == (if q == pos {
                        Some(material)
                    } else {
                        start.material_at(q)
                    }) && self.find_spec(q) == start.find_spec(q) by {
                        Contree::lemma_voxel_set(
                            start,
                            *self,
                            leaf_addr,
                            child_index as int,
                            material,
                            pos,
                            q,
                        );
                    }
                }
            },
            None => {
                let (leaf_addr, child_index) = self.add_parents(
                    &traversal_stack,
                    &mut parent_addrs,
                    Ghost(pos),
                );
                let ghost made = *self;
                self.set_voxel(leaf_addr, child_index, material);
                proof {
                    Contree::lemma_prefix_chain(start.issued(), made.issued(), self.issued());
                    Contree::lemma_voxel_kept(
                        made,
                        *self,
                        leaf_addr,
                        child_index as int,
                        material,
                    );
                    Contree::lemma_kept_chain(
                        start,
                        made,
                        *self,
                        Some((leaf_addr, child_index as int)),
                    );
                    assert forall|q: Position| self.material_at(q) == (if q == pos {
                        Some(material)
                    } else {
                        start.material_at(q)
                    }) && self.find_spec(q) == made.find_spec(q) by {
                        Contree::lemma_voxel_set(
                            made,
                            *self,
                            leaf_addr,
                            child_index as int,
                            material,
                            pos,
                            q,
                        );
                    }
                }
            },
        }
        parent_addrs
    }

    /// Puts `material` at `pos`. The cube first grows, by a factor of 4 at a
    /// time, until it holds `pos`; then the missing nodes on the way to
    /// `pos` are made and the voxel is set. Every node written is mirrored.
    /// Returns the inner nodes on the way from the root to the leaf.
    pub fn insert(&mut self, pos: Position, material: u8) -> (parent_addrs: Vec<Addr>)
        requires
            old(self).wf(),
            old(self).can_hold(pos),
            old(self).has_room(),
        ensures
            Contree::inserted(*old(self), *final(self), pos, material, parent_addrs@),
    {
        let ghost start = *self;
        self.reach(pos);
        let ghost wide = *self;
        let parent_addrs = self.place(pos, material);
        proof {
            Contree::lemma_inserted(start, wide, *self, pos, material, parent_addrs@);
        }
        parent_addrs
    }

    /// After `material` was put at `pos`, the walk for `pos` ends in a leaf
    /// with one digit left, and the voxel of that digit is marked occupied
    /// and holds `material`.
    pub proof fn lemma_insert_then_find(
        pre: Contree,
        post: Contree,
        pos: Position,
        material: u8,
        chain: Seq<Addr>,
    )
        requires
            Contree::inserted(pre, post, pos, material, chain),
        ensures
            post.material_at(pos) == Some(material),
            ({
                let found = post.find_spec(pos);
                let leaf = post.nodes().leaves()[found.leaf.unwrap() as int];
                let voxel = found.stack[0] as int;
                &&& found.leaf is Some
                &&& found.stack.len() == 1
                &&& found.parents == chain
                &&& leaf.occupied(voxel)
                &&& leaf.children[voxel] == material
            }),
    {
        assert(post@.dom().contains(pos));
        assert(post@[pos] == material);
    }

    /// Putting the same material at the same cell a second time changes
    /// nothing: the cells, the cube, the root, every node and the freed
    /// addresses are as after the first time, and the same way is returned.
    pub proof fn lemma_insert_twice(
        pre: Contree,
        once: Contree,
        twice: Contree,
        pos: Position,
        material: u8,
        first: Seq<Addr>,
        second: Seq<Addr>,
    )
        requires
            Contree::inserted(pre, once, pos, material, first),
            Contree::inserted(once, twice, pos, material, second),
        ensures
            twice@ == once@,
            twice.same_tree(once),
            second == first,
    {
        Contree::lemma_insert_then_find(pre, once, pos, material, first);
        assert(twice@ =~= once@);
        assert(twice.path_of(pos) == once.path_of(pos));
    }

    /// Putting a material at one cell leaves every other cell as it was,
    /// however far the cube had to grow.
    pub proof fn lemma_insert_keeps_others(
        pre: Contree,
        post: Contree,
        pos: Position,
        material: u8,
        chain: Seq<Addr>,
        other: Position,
    )
        requires
            Contree::inserted(pre, post, pos, material, chain),
            other != pos,
        ensures
            post.material_at(other) == pre.material_at(other),
    {
        let before = pre@;
        let after = post@;
        assert(after.dom().contains(other) == before.dom().contains(other));
        if before.dom().contains(other) {
            assert(after[other] == before[other]);
        }
    }
}

} // verus!
