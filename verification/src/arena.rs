//! The node arena: two densely packed collections of records, one per node
//! kind, each with a list of freed addresses that are handed out again
//! before the collection grows. No record ever moves.

use crate::node::Addr;
use crate::node::ContreeInner;
use crate::node::ContreeLeaf;
use vstd::prelude::*;

verus! {

/// One more than the largest address.
pub const ADDR_LIMIT: u64 = 0x1_0000_0000;

/// Every freed address lies inside the collection, and none is listed twice.
pub open spec fn tombstones_ok(tombstones: Seq<Addr>, len: nat) -> bool {
    &&& forall|i: int| 0 <= i < tombstones.len() ==> (#[trigger] tombstones[i]) < len
    &&& forall|i: int, j: int|
        0 <= i < j < tombstones.len() ==> #[trigger] tombstones[i] != #[trigger] tombstones[j]
}

/// What an arena holds: the records of both kinds by address, and the
/// freed addresses of both kinds, the one handed out next last.
#[verifier::ext_equal]
pub struct ArenaState {
    pub inners: Seq<ContreeInner>,
    pub leaves: Seq<ContreeLeaf>,
    pub inner_tombstones: Seq<Addr>,
    pub leaf_tombstones: Seq<Addr>,
}

impl ArenaState {
    /// The address that the next inner node gets: the one freed last, or,
    /// with none freed, the one behind the last record.
    pub open spec fn next_inner(self) -> Addr {
        if self.inner_tombstones.len() > 0 {
            self.inner_tombstones.last()
        } else {
            self.inners.len() as Addr
        }
    }

    /// The address that the next leaf gets.
    pub open spec fn next_leaf(self) -> Addr {
        if self.leaf_tombstones.len() > 0 {
            self.leaf_tombstones.last()
        } else {
            self.leaves.len() as Addr
        }
    }

    /// The arena after an inner node was allocated: a zeroed record stands
    /// at `next_inner`, which is no longer listed as freed.
    pub open spec fn with_new_inner(self) -> ArenaState {
        if self.inner_tombstones.len() > 0 {
            ArenaState {
                inners: self.inners.update(self.next_inner() as int, ContreeInner::zeroed()),
                inner_tombstones: self.inner_tombstones.drop_last(),
                ..self
            }
        } else {
            ArenaState { inners: self.inners.push(ContreeInner::zeroed()), ..self }
        }
    }

    /// The arena after a leaf was allocated.
    pub open spec fn with_new_leaf(self) -> ArenaState {
        if self.leaf_tombstones.len() > 0 {
            ArenaState {
                leaves: self.leaves.update(self.next_leaf() as int, ContreeLeaf::zeroed()),
                leaf_tombstones: self.leaf_tombstones.drop_last(),
                ..self
            }
        } else {
            ArenaState { leaves: self.leaves.push(ContreeLeaf::zeroed()), ..self }
        }
    }

    /// The arena with the inner record at `addr` replaced by `node`.
    pub open spec fn with_inner(self, addr: Addr, node: ContreeInner) -> ArenaState {
        ArenaState { inners: self.inners.update(addr as int, node), ..self }
    }

    /// The arena with the leaf record at `addr` replaced by `node`.
    pub open spec fn with_leaf(self, addr: Addr, node: ContreeLeaf) -> ArenaState {
        ArenaState { leaves: self.leaves.update(addr as int, node), ..self }
    }
}

/// The nodes of a tree, by kind and address, and the addresses that wait
/// for reuse.
#[derive(Clone, Debug)]
pub struct Arena {
    inners: Vec<ContreeInner>,
    leaves: Vec<ContreeLeaf>,
    inner_tombstones: Vec<Addr>,
    leaf_tombstones: Vec<Addr>,
}

impl Arena {
    /// The inner records, by address.
    pub closed spec fn inners(&self) -> Seq<ContreeInner> {
        self.inners@
    }

    /// The leaf records, by address.
    pub closed spec fn leaves(&self) -> Seq<ContreeLeaf> {
        self.leaves@
    }

    /// The freed inner addresses; the last one is handed out first.
    pub closed spec fn inner_tombstones(&self) -> Seq<Addr> {
        self.inner_tombstones@
    }

    /// The freed leaf addresses; the last one is handed out first.
    pub closed spec fn leaf_tombstones(&self) -> Seq<Addr> {
        self.leaf_tombstones@
    }

    /// All that the arena holds.
    pub open spec fn state(&self) -> ArenaState {
        ArenaState {
            inners: self.inners(),
            leaves: self.leaves(),
            inner_tombstones: self.inner_tombstones(),
            leaf_tombstones: self.leaf_tombstones(),
        }
    }

    /// Every address fits in 32 bits and the freed lists are sound.
    pub open spec fn wf(&self) -> bool {
        &&& self.inners().len() <= ADDR_LIMIT
        &&& self.leaves().len() <= ADDR_LIMIT
        &&& tombstones_ok(self.inner_tombstones(), self.inners().len())
        &&& tombstones_ok(self.leaf_tombstones(), self.leaves().len())
    }

    /// Number of nodes of both kinds that were handed out and not freed
    /// since.
    pub open spec fn live(&self) -> int {
        self.inners().len() - self.inner_tombstones().len() + self.leaves().len()
            - self.leaf_tombstones().len()
    }

    /// Whether an inner node can be had: a freed address waits, or the next
    /// new address still fits.
    pub open spec fn can_allocate_inner(&self) -> bool {
        self.inner_tombstones().len() > 0 || self.inners().len() < ADDR_LIMIT
    }

    /// Whether a leaf node can be had.
    pub open spec fn can_allocate_leaf(&self) -> bool {
        self.leaf_tombstones().len() > 0 || self.leaves().len() < ADDR_LIMIT
    }

    /// `post` is `pre` after an inner node was allocated at `addr`: the last
    /// freed address was taken and its record zeroed, or, with none freed, a
    /// zeroed record was appended.
    pub open spec fn allocated_inner(pre: Arena, post: Arena, addr: Addr) -> bool {
        &&& post.leaves() == pre.leaves()
        &&& post.leaf_tombstones() == pre.leaf_tombstones()
        &&& if pre.inner_tombstones().len() > 0 {
            &&& addr == pre.inner_tombstones().last()
            &&& post.inner_tombstones() == pre.inner_tombstones().drop_last()
            &&& post.inners() == pre.inners().update(addr as int, ContreeInner::zeroed())
        } else {
            &&& addr == pre.inners().len()
            &&& post.inner_tombstones() == pre.inner_tombstones()
            &&& post.inners() == pre.inners().push(ContreeInner::zeroed())
        }
    }

    /// `post` is `pre` after a leaf node was allocated at `addr`.
    pub open spec fn allocated_leaf(pre: Arena, post: Arena, addr: Addr) -> bool {
        &&& post.inners() == pre.inners()
        &&& post.inner_tombstones() == pre.inner_tombstones()
        &&& if pre.leaf_tombstones().len() > 0 {
            &&& addr == pre.leaf_tombstones().last()
            &&& post.leaf_tombstones() == pre.leaf_tombstones().drop_last()
            &&& post.leaves() == pre.leaves().update(addr as int, ContreeLeaf::zeroed())
        } else {
            &&& addr == pre.leaves().len()
            &&& post.leaf_tombstones() == pre.leaf_tombstones()
            &&& post.leaves() == pre.leaves().push(ContreeLeaf::zeroed())
        }
    }

    /// `post` is `pre` with the inner record at `addr` replaced by `node`.
    pub open spec fn inner_replaced(
        pre: Arena,
        post: Arena,
        addr: Addr,
        node: ContreeInner,
    ) -> bool {
        &&& post.inners() == pre.inners().update(addr as int, node)
        &&& post.leaves() == pre.leaves()
        &&& post.inner_tombstones() == pre.inner_tombstones()
        &&& post.leaf_tombstones() == pre.leaf_tombstones()
    }

    /// `post` is `pre` with the leaf record at `addr` replaced by `node`.
    pub open spec fn leaf_replaced(pre: Arena, post: Arena, addr: Addr, node: ContreeLeaf) -> bool {
        &&& post.leaves() == pre.leaves().update(addr as int, node)
        &&& post.inners() == pre.inners()
        &&& post.inner_tombstones() == pre.inner_tombstones()
        &&& post.leaf_tombstones() == pre.leaf_tombstones()
    }

    /// `post` is `pre` after the inner address `addr` was freed.
    pub open spec fn freed_inner(pre: Arena, post: Arena, addr: Addr) -> bool {
        &&& post.inners() == pre.inners()
        &&& post.leaves() == pre.leaves()
        &&& post.leaf_tombstones() == pre.leaf_tombstones()
        &&& post.inner_tombstones() == pre.inner_tombstones().push(addr)
    }

    /// `post` is `pre` after the leaf address `addr` was freed.
    pub open spec fn freed_leaf(pre: Arena, post: Arena, addr: Addr) -> bool {
        &&& post.inners() == pre.inners()
        &&& post.leaves() == pre.leaves()
        &&& post.inner_tombstones() == pre.inner_tombstones()
        &&& post.leaf_tombstones() == pre.leaf_tombstones().push(addr)
    }

    /// An arena without nodes.
    pub fn new() -> (arena: Arena)
        ensures
            arena.wf(),
            arena.inners().len() == 0,
            arena.leaves().len() == 0,
            arena.inner_tombstones().len() == 0,
            arena.leaf_tombstones().len() == 0,
    {
        Arena {
            inners: Vec::new(),
            leaves: Vec::new(),
            inner_tombstones: Vec::new(),
            leaf_tombstones: Vec::new(),
        }
    }

    /// Number of inner records, freed ones included.
    pub fn inner_count(&self) -> (n: usize)
        ensures
            n == self.inners().len(),
    {
        self.inners.len()
    }

    /// Number of leaf records, freed ones included.
    pub fn leaf_count(&self) -> (n: usize)
        ensures
            n == self.leaves().len(),
    {
        self.leaves.len()
    }

    /// Number of freed inner addresses that wait for reuse.
    pub fn free_inner_count(&self) -> (n: usize)
        ensures
            n == self.inner_tombstones().len(),
    {
        self.inner_tombstones.len()
    }

    /// Number of freed leaf addresses that wait for reuse.
    pub fn free_leaf_count(&self) -> (n: usize)
        ensures
            n == self.leaf_tombstones().len(),
    {
        self.leaf_tombstones.len()
    }

    /// The inner record at `addr`, if there is one.
    pub fn inner(&self, addr: Addr) -> (node: Option<ContreeInner>)
        ensures
            node == (if addr < self.inners().len() {
                Some(self.inners()[addr as int])
            } else {
                None
            }),
    {
        if (addr as usize) < self.inners.len() {
            Some(self.inners[addr as usize])
        } else {
            None
        }
    }

    /// The inner record at `addr`.
    pub fn get_inner(&self, addr: Addr) -> (node: &ContreeInner)
        requires
            addr < self.inners().len(),
        ensures
            *node == self.inners()[addr as int],
    {
        &self.inners[addr as usize]
    }

    /// The leaf record at `addr`.
    pub fn get_leaf(&self, addr: Addr) -> (node: &ContreeLeaf)
        requires
            addr < self.leaves().len(),
        ensures
            *node == self.leaves()[addr as int],
    {
        &self.leaves[addr as usize]
    }

    /// The leaf record at `addr`, if there is one.
    pub fn leaf(&self, addr: Addr) -> (node: Option<ContreeLeaf>)
        ensures
            node == (if addr < self.leaves().len() {
                Some(self.leaves()[addr as int])
            } else {
                None
            }),
    {
        if (addr as usize) < self.leaves.len() {
            Some(self.leaves[addr as usize])
        } else {
            None
        }
    }

    /// Whether `addr` waits on the freed list of inner addresses.
    pub fn is_free_inner(&self, addr: Addr) -> (free: bool)
        ensures
            free == self.inner_tombstones().contains(addr),
    {
        contains_addr(&self.inner_tombstones, addr)
    }

    /// Whether `addr` waits on the freed list of leaf addresses.
    pub fn is_free_leaf(&self, addr: Addr) -> (free: bool)
        ensures
            free == self.leaf_tombstones().contains(addr),
    {
        contains_addr(&self.leaf_tombstones, addr)
    }

    /// Overwrites the inner record at `addr`.
    pub fn set_inner(&mut self, addr: Addr, node: ContreeInner)
        requires
            addr < old(self).inners().len(),
        ensures
            Arena::inner_replaced(*old(self), *final(self), addr, node),
            final(self).state() == old(self).state().with_inner(addr, node),
            old(self).wf() ==> final(self).wf(),
    {
        self.inners.set(addr as usize, node);
    }

    /// Overwrites the leaf record at `addr`.
    pub fn set_leaf(&mut self, addr: Addr, node: ContreeLeaf)
        requires
            addr < old(self).leaves().len(),
        ensures
            Arena::leaf_replaced(*old(self), *final(self), addr, node),
            final(self).state() == old(self).state().with_leaf(addr, node),
            old(self).wf() ==> final(self).wf(),
    {
        self.leaves.set(addr as usize, node);
    }

    /// Hands out the address of a zeroed inner record: the address freed
    /// last, or, with none freed, that of a new record.
    pub fn allocate_inner(&mut self) -> (addr: Addr)
        requires
            old(self).wf(),
            old(self).can_allocate_inner(),
        ensures
            final(self).wf(),
            Arena::allocated_inner(*old(self), *final(self), addr),
            addr == old(self).state().next_inner(),
            final(self).state() == old(self).state().with_new_inner(),
            addr < final(self).inners().len(),
            final(self).inners()[addr as int] == ContreeInner::zeroed(),
            final(self).inners().len() >= old(self).inners().len(),
    {
        let new_node = ContreeInner::new();
        match self.inner_tombstones.pop() {
            Some(addr) => {
                self.inners.set(addr as usize, new_node);
                addr
            },
            None => {
                self.inners.push(new_node);
                (self.inners.len() - 1) as Addr
            },
        }
    }

    /// Hands out the address of a zeroed leaf record: the address freed
    /// last, or, with none freed, that of a new record.
    pub fn allocate_leaf(&mut self) -> (addr: Addr)
        requires
            old(self).wf(),
            old(self).can_allocate_leaf(),
        ensures
            final(self).wf(),
            Arena::allocated_leaf(*old(self), *final(self), addr),
            addr == old(self).state().next_leaf(),
            final(self).state() == old(self).state().with_new_leaf(),
            addr < final(self).leaves().len(),
            final(self).leaves()[addr as int] == ContreeLeaf::zeroed(),
            final(self).leaves().len() >= old(self).leaves().len(),
    {
        let new_node = ContreeLeaf::new();
        match self.leaf_tombstones.pop() {
            Some(addr) => {
                self.leaves.set(addr as usize, new_node);
                addr
            },
            None => {
                self.leaves.push(new_node);
                (self.leaves.len() - 1) as Addr
            },
        }
    }

    /// Marks the inner address `addr` for reuse. The record stays as it is
    /// until the address is handed out again; whoever still points at it
    /// must have let go before.
    pub fn free_inner(&mut self, addr: Addr)
        requires
            old(self).wf(),
            addr < old(self).inners().len(),
            !old(self).inner_tombstones().contains(addr),
        ensures
            final(self).wf(),
            Arena::freed_inner(*old(self), *final(self), addr),
    {
        self.inner_tombstones.push(addr);
    }

    /// Marks the leaf address `addr` for reuse.
    pub fn free_leaf(&mut self, addr: Addr)
        requires
            old(self).wf(),
            addr < old(self).leaves().len(),
            !old(self).leaf_tombstones().contains(addr),
        ensures
            final(self).wf(),
            Arena::freed_leaf(*old(self), *final(self), addr),
    {
        self.leaf_tombstones.push(addr);
    }

    /// An inner address that is freed and then asked for again comes back
    /// before any record is appended, and its record reads as zeroed;
    /// nothing else has changed.
    pub proof fn lemma_free_then_allocate_inner(
        start: Arena,
        freed: Arena,
        end: Arena,
        addr: Addr,
        got: Addr,
    )
        requires
            start.wf(),
            addr < start.inners().len(),
            Arena::freed_inner(start, freed, addr),
            Arena::allocated_inner(freed, end, got),
        ensures
            got == addr,
            end.inners() == start.inners().update(addr as int, ContreeInner::zeroed()),
            end.inners().len() == start.inners().len(),
            end.inners()[addr as int].is_zeroed(),
            end.inner_tombstones() == start.inner_tombstones(),
            end.leaves() == start.leaves(),
            end.leaf_tombstones() == start.leaf_tombstones(),
    {
        assert(start.inner_tombstones().push(addr).drop_last() =~= start.inner_tombstones());
    }

    /// A leaf address that is freed and then asked for again comes back
    /// before any record is appended, and its record reads as zeroed;
    /// nothing else has changed.
    pub proof fn lemma_free_then_allocate_leaf(
        start: Arena,
        freed: Arena,
        end: Arena,
        addr: Addr,
        got: Addr,
    )
        requires
            start.wf(),
            addr < start.leaves().len(),
            Arena::freed_leaf(start, freed, addr),
            Arena::allocated_leaf(freed, end, got),
        ensures
            got == addr,
            end.leaves() == start.leaves().update(addr as int, ContreeLeaf::zeroed()),
            end.leaves().len() == start.leaves().len(),
            end.leaves()[addr as int].is_zeroed(),
            end.leaf_tombstones() == start.leaf_tombstones(),
            end.inners() == start.inners(),
            end.inner_tombstones() == start.inner_tombstones(),
    {
        assert(start.leaf_tombstones().push(addr).drop_last() =~= start.leaf_tombstones());
    }
}

/// Whether `addr` stands in `list`.
fn contains_addr(list: &Vec<Addr>, addr: Addr) -> (found: bool)
    ensures
        found == list@.contains(addr),
{
    let mut i: usize = 0;
    while i < list.len()
        invariant
            i <= list.len(),
            forall|j: int| 0 <= j < i ==> list@[j] != addr,
        decreases list.len() - i,
    {
        if list[i] == addr {
            return true;
        }
        i += 1;
    }
    false
}

} // verus!
