//! Why the operations of the index keep the tree sound and change the
//! material of no cell but the one they are for.

use crate::arena::Arena;
use crate::contree::Contree;
use crate::cube::in_cube;
use crate::cube::lemma_grown_offsets;
use crate::cube::lemma_grown_path;
use crate::cube::lemma_pow64_fits;
use crate::cube::lemma_small_axis;
use crate::cube::lemma_valid_size;
use crate::cube::normalized;
use crate::cube::valid_size;
use crate::cube::GROW_SLOT;
use crate::cube::MAX_SIZE;
use crate::morton::code_of;
use crate::morton::lemma_morton_bound;
use crate::morton::lemma_morton_injective;
use crate::morton::lemma_padded_digits_bounds;
use crate::morton::lemma_padded_digits_injective;
use crate::node::lemma_holds;
use crate::node::lemma_links;
use crate::node::lemma_zeroed_is_empty;
use crate::node::Addr;
use crate::node::ChildIndex;
use crate::node::ContreeInner;
use crate::position::Position;
use crate::walk::slot_ok;
use crate::walk::walk;
use crate::walk::Walk;
use vstd::prelude::*;

verus! {

impl Contree {
    /// Where a walk ends that starts at a linked node whose trail is what
    /// `digits` has above its `left` low digits: the digits left over are
    /// low digits of `digits`; the last node entered has the digits above
    /// them as its trail, but for the digit that led to a leaf.
    pub(crate) proof fn lemma_walk_ends(
        &self,
        digits: Seq<ChildIndex>,
        left: int,
        cur: Addr,
        parents: Seq<Addr>,
    )
        requires
            self.trails_wf(),
            forall|i: int| 0 <= i < digits.len() ==> digits[i] < 64,
            0 <= left <= digits.len(),
            self.inner_trails().dom().contains(cur),
            self.inner_trails()[cur] == digits.skip(left),
            parents.len() > 0,
            parents.last() == cur,
        ensures
            ({
                let w = walk(self.nodes().inners(), cur, digits.take(left), parents);
                let n = w.stack.len() as int;
                let last = w.parents.last();
                &&& n <= left
                &&& w.stack == digits.take(n)
                &&& w.parents.len() >= parents.len()
                &&& self.inner_trails().dom().contains(last)
                &&& w.parents.len() - parents.len() == self.inner_trails()[last].len()
                    - self.inner_trails()[cur].len()
                &&& match w.leaf {
                    Some(l) => {
                        &&& n < left
                        &&& self.leaf_trails().dom().contains(l)
                        &&& self.leaf_trails()[l] == digits.skip(n)
                        &&& self.inner_trails()[last] == digits.skip(n + 1)
                        &&& self.nodes().inners()[last as int].occupied(digits[n] as int)
                        &&& self.nodes().inners()[last as int].leaf_at(digits[n] as int)
                        &&& self.nodes().inners()[last as int].children[digits[n] as int] == l
                    },
                    None => {
                        &&& self.inner_trails()[last] == digits.skip(n)
                        &&& n > 0 ==> !self.nodes().inners()[last as int].occupied(
                            digits[n - 1] as int,
                        )
                    },
                }
            }),
        decreases left,
    {
        let inners = self.nodes().inners();
        let stack = digits.take(left);
        if left > 0 {
            let index = stack.last();
            assert(index == digits[left - 1]);
            let node = inners[cur as int];
            let child = node.children[index as int];
            assert(slot_ok(
                node,
                index as int,
                self.inner_trails()[cur],
                self.inner_trails(),
                self.leaf_trails(),
                self.depth(),
            ));
            assert(stack.drop_last() =~= digits.take(left - 1));
            assert(digits.skip(left - 1) =~= seq![index] + digits.skip(left));
            if node.occupied(index as int) && !node.leaf_at(index as int) {
                self.lemma_walk_ends(digits, left - 1, child, parents.push(child));
            }
        }
    }

    /// What a walk finds does not depend on the nodes it is told to have
    /// entered before it starts.
    pub(crate) proof fn lemma_walk_parents(
        inners: Seq<ContreeInner>,
        cur: Addr,
        stack: Seq<ChildIndex>,
        first: Seq<Addr>,
        second: Seq<Addr>,
    )
        ensures
            walk(inners, cur, stack, first).leaf == walk(inners, cur, stack, second).leaf,
            walk(inners, cur, stack, first).stack == walk(inners, cur, stack, second).stack,
        decreases stack.len(),
    {
        if stack.len() > 0 {
            let index = stack.last() as int;
            let node = inners[cur as int];
            let child = node.children[index];
            if node.occupied(index) && !node.leaf_at(index) {
                Contree::lemma_walk_parents(
                    inners,
                    child,
                    stack.drop_last(),
                    first.push(child),
                    second.push(child),
                );
            }
        }
    }

    /// A walk after the nodes changed in one slot only, the slot `slot` of
    /// the node `at`, which was empty: a walk that ended at that slot goes
    /// on from there, every other walk ends as before.
    pub(crate) proof fn lemma_walk_modified(
        &self,
        after: Seq<ContreeInner>,
        at: Addr,
        slot: int,
        digits: Seq<ChildIndex>,
        left: int,
        cur: Addr,
        parents: Seq<Addr>,
    )
        requires
            self.trails_wf(),
            forall|i: int| 0 <= i < digits.len() ==> digits[i] < 64,
            0 <= left <= digits.len(),
            self.inner_trails().dom().contains(cur),
            self.inner_trails()[cur] == digits.skip(left),
            parents.len() > 0,
            parents.last() == cur,
            forall|a: Addr, j: int|
                self.inner_trails().dom().contains(a) && 0 <= j < 64 && !(a == at && j == slot)
                    ==> #[trigger] after[a as int].same_slot(self.nodes().inners()[a as int], j),
            self.inner_trails().dom().contains(at) ==> !self.nodes().inners()[at as int].occupied(
                slot,
            ),
        ensures
            ({
                let w = walk(self.nodes().inners(), cur, digits.take(left), parents);
                let w2 = walk(after, cur, digits.take(left), parents);
                if w.leaf is None && w.parents.last() == at && w.stack.len() > 0 && w.stack.last()
                    == slot {
                    w2 == walk(after, at, w.stack, w.parents)
                } else {
                    w2 == w
                }
            }),
        decreases left,
    {
        let inners = self.nodes().inners();
        let stack = digits.take(left);
        if left > 0 {
            let index = stack.last();
            assert(index == digits[left - 1]);
            let node = inners[cur as int];
            let child = node.children[index as int];
            assert(slot_ok(
                node,
                index as int,
                self.inner_trails()[cur],
                self.inner_trails(),
                self.leaf_trails(),
                self.depth(),
            ));
            assert(stack.drop_last() =~= digits.take(left - 1));
            assert(digits.skip(left - 1) =~= seq![index] + digits.skip(left));
            if cur == at && index == slot {
            } else {
                assert(after[cur as int].same_slot(node, index as int));
                if node.occupied(index as int) && !node.leaf_at(index as int) {
                    self.lemma_walk_modified(
                        after,
                        at,
                        slot,
                        digits,
                        left - 1,
                        child,
                        parents.push(child),
                    );
                }
            }
        }
    }

    /// A cell of the cube has one digit per level, and no other cell of the
    /// cube has the same digits.
    pub(crate) proof fn lemma_path_of(&self, pos: Position, other: Position)
        requires
            valid_size(self.size()),
            in_cube(self.center_offset(), self.size(), pos),
        ensures
            self.path_of(pos).len() == self.depth(),
            forall|i: int| 0 <= i < self.path_of(pos).len() ==> self.path_of(pos)[i] < 64,
            in_cube(self.center_offset(), self.size(), other) && self.path_of(other)
                == self.path_of(pos) ==> other == pos,
    {
        let depth = self.depth();
        lemma_valid_size(self.size());
        lemma_pow64_fits(depth);
        let p = normalized(self.center_offset(), self.size(), pos);
        lemma_small_axis(p.x);
        lemma_small_axis(p.y);
        lemma_small_axis(p.z);
        lemma_morton_bound(p.x as nat, p.y as nat, p.z as nat, depth);
        lemma_padded_digits_bounds(code_of(p) as u64, depth);
        if in_cube(self.center_offset(), self.size(), other) && self.path_of(other)
            == self.path_of(pos) {
            let o = normalized(self.center_offset(), self.size(), other);
            lemma_small_axis(o.x);
            lemma_small_axis(o.y);
            lemma_small_axis(o.z);
            lemma_morton_bound(o.x as nat, o.y as nat, o.z as nat, depth);
            lemma_padded_digits_injective(code_of(p) as u64, code_of(o) as u64, depth);
            lemma_morton_injective(
                p.x as nat,
                p.y as nat,
                p.z as nat,
                o.x as nat,
                o.y as nat,
                o.z as nat,
            );
        }
    }

    /// An inner node just allocated is none that the root leads to, and no
    /// linked node has changed or been freed.
    pub(crate) proof fn lemma_fresh_inner(pre: Contree, post: Contree, addr: Addr)
        requires
            pre.wf(),
            post.nodes().wf(),
            Arena::allocated_inner(pre.nodes(), post.nodes(), addr),
        ensures
            !pre.inner_trails().dom().contains(addr),
            !post.nodes().inner_tombstones().contains(addr),
            forall|a: Addr|
                pre.inner_trails().dom().contains(a) ==> #[trigger] post.nodes().inners()[a as int]
                    == pre.nodes().inners()[a as int] && !post.nodes().inner_tombstones().contains(
                    a,
                ),
    {
        let old_free = pre.nodes().inner_tombstones();
        let new_free = post.nodes().inner_tombstones();
        if old_free.len() > 0 {
            assert(old_free.contains(old_free.last()));
            assert forall|a: Addr| new_free.contains(a) implies old_free.contains(a) by {
                let i = choose|i: int| 0 <= i < new_free.len() && new_free[i] == a;
                assert(old_free[i] == a);
            }
            if new_free.contains(addr) {
                let i = choose|i: int| 0 <= i < new_free.len() && new_free[i] == addr;
                assert(old_free[i] == old_free[old_free.len() - 1]);
            }
        }
    }

    /// A leaf just allocated is none that the root leads to, and no linked
    /// leaf has changed or been freed.
    pub(crate) proof fn lemma_fresh_leaf(pre: Contree, post: Contree, addr: Addr)
        requires
            pre.wf(),
            post.nodes().wf(),
            Arena::allocated_leaf(pre.nodes(), post.nodes(), addr),
        ensures
            !pre.leaf_trails().dom().contains(addr),
            !post.nodes().leaf_tombstones().contains(addr),
            forall|a: Addr|
                pre.leaf_trails().dom().contains(a) ==> #[trigger] post.nodes().leaves()[a as int]
                    == pre.nodes().leaves()[a as int] && !post.nodes().leaf_tombstones().contains(
                    a,
                ),
    {
        let old_free = pre.nodes().leaf_tombstones();
        let new_free = post.nodes().leaf_tombstones();
        if old_free.len() > 0 {
            assert(old_free.contains(old_free.last()));
            assert forall|a: Addr| new_free.contains(a) implies old_free.contains(a) by {
                let i = choose|i: int| 0 <= i < new_free.len() && new_free[i] == a;
                assert(old_free[i] == a);
            }
            if new_free.contains(addr) {
                let i = choose|i: int| 0 <= i < new_free.len() && new_free[i] == addr;
                assert(old_free[i] == old_free[old_free.len() - 1]);
            }
        }
    }

    /// Linking a new node changes no slot but the one it is linked into.
    pub(crate) proof fn lemma_linked_slots(
        pre: Contree,
        post: Contree,
        parent: Addr,
        index: int,
        addr: Addr,
        leaf: bool,
    )
        requires
            Contree::linked(pre, post, parent, index, addr, leaf),
        ensures
            forall|a: Addr, j: int|
                pre.inner_trails().dom().contains(a) && 0 <= j < 64 && !(a == parent && j == index)
                    ==> #[trigger] post.nodes().inners()[a as int].same_slot(
                    pre.nodes().inners()[a as int],
                    j,
                ),
            post.nodes().inners()[parent as int].occupied(index),
            post.nodes().inners()[parent as int].leaf_at(index) == leaf,
            post.nodes().inners()[parent as int].children[index] == addr,
    {
        lemma_links(
            post.nodes().inners()[parent as int],
            pre.nodes().inners()[parent as int],
            index,
            addr,
            leaf,
        );
        assert forall|a: Addr, j: int|
            pre.inner_trails().dom().contains(a) && 0 <= j < 64 && !(a == parent && j
                == index) implies #[trigger] post.nodes().inners()[a as int].same_slot(
            pre.nodes().inners()[a as int],
            j,
        ) by {
            if a != parent {
                assert(post.nodes().inners()[a as int] == pre.nodes().inners()[a as int]);
            }
        }
    }

    /// Linking a new node at its level keeps the tree sound.
    pub(crate) proof fn lemma_linked_wf(
        pre: Contree,
        post: Contree,
        parent: Addr,
        index: int,
        addr: Addr,
        leaf: bool,
    )
        requires
            pre.wf(),
            post.nodes().wf(),
            Contree::linked(pre, post, parent, index, addr, leaf),
            leaf <==> pre.inner_trails()[parent].len() + 2 == pre.depth(),
            !leaf ==> pre.inner_trails()[parent].len() + 3 <= pre.depth(),
            parent == pre.root() ==> pre.root_slot(index),
            post.nodes().inners().len() >= pre.nodes().inners().len(),
            post.nodes().leaves().len() >= pre.nodes().leaves().len(),
            leaf ==> addr < post.nodes().leaves().len(),
            !leaf ==> addr < post.nodes().inners().len(),
            forall|a: Addr|
                post.inner_trails().dom().contains(a)
                    ==> !post.nodes().inner_tombstones().contains(a),
            forall|a: Addr|
                post.leaf_trails().dom().contains(a)
                    ==> !post.nodes().leaf_tombstones().contains(a),
        ensures
            post.wf(),
    {
        let it = post.inner_trails();
        let lt = post.leaf_trails();
        let inners = post.nodes().inners();
        Contree::lemma_linked_slots(pre, post, parent, index, addr, leaf);
        lemma_zeroed_is_empty();
        assert forall|i: int|
            0 <= i < 64 && #[trigger] inners[post.root() as int].occupied(
                i,
            ) implies post.root_slot(i) by {
            if !(parent == pre.root() && i == index) {
                assert(inners[post.root() as int].same_slot(
                    pre.nodes().inners()[pre.root() as int],
                    i,
                ));
            }
        }
        assert forall|a: Addr, i: int|
            it.dom().contains(a) && 0 <= i < 64 implies #[trigger] slot_ok(
            inners[a as int],
            i,
            it[a],
            it,
            lt,
            post.depth(),
        ) by {
            if !leaf && a == addr {
            } else {
                assert(pre.inner_trails().dom().contains(a));
                assert(slot_ok(
                    pre.nodes().inners()[a as int],
                    i,
                    pre.inner_trails()[a],
                    pre.inner_trails(),
                    pre.leaf_trails(),
                    pre.depth(),
                ));
                if a == parent && i == index {
                } else {
                    assert(inners[a as int].same_slot(pre.nodes().inners()[a as int], i));
                }
            }
        }
    }

    /// After a new node was linked where the walk along `digits` had ended
    /// with `left` digits unused, that walk goes one digit further: to the
    /// new leaf, or into the new inner node, where it ends.
    pub(crate) proof fn lemma_linked_walk(
        pre: Contree,
        post: Contree,
        parent: Addr,
        index: int,
        addr: Addr,
        leaf: bool,
        digits: Seq<ChildIndex>,
        left: int,
        parents: Seq<Addr>,
    )
        requires
            pre.trails_wf(),
            Contree::linked(pre, post, parent, index, addr, leaf),
            forall|i: int| 0 <= i < digits.len() ==> digits[i] < 64,
            1 <= left <= digits.len(),
            !leaf ==> left >= 2,
            parents.len() > 0,
            parents.last() == parent,
            digits[left - 1] == index,
            walk(pre.nodes().inners(), pre.root(), digits, seq![pre.root()]) == (Walk {
                leaf: None,
                stack: digits.take(left),
                parents,
            }),
        ensures
            walk(post.nodes().inners(), post.root(), digits, seq![post.root()]) == (if leaf {
                Walk { leaf: Some(addr), stack: digits.take(left - 1), parents }
            } else {
                Walk { leaf: None, stack: digits.take(left - 1), parents: parents.push(addr) }
            }),
    {
        let after = post.nodes().inners();
        let root = pre.root();
        Contree::lemma_linked_slots(pre, post, parent, index, addr, leaf);
        lemma_zeroed_is_empty();
        assert(digits.take(digits.len() as int) =~= digits);
        assert(digits.skip(digits.len() as int) =~= Seq::<ChildIndex>::empty());
        pre.lemma_walk_modified(
            after,
            parent,
            index,
            digits,
            digits.len() as int,
            root,
            seq![root],
        );
        let stack = digits.take(left);
        assert(stack.last() == index);
        assert(stack.drop_last() =~= digits.take(left - 1));
        let w2 = walk(after, parent, stack, parents);
        if !leaf {
            let rest = digits.take(left - 1);
            assert(rest.len() > 0);
            assert(!after[addr as int].occupied(rest.last() as int));
            assert(walk(after, addr, rest, parents.push(addr)) == (Walk {
                leaf: None,
                stack: rest,
                parents: parents.push(addr),
            }));
        }
    }

    /// Linking a new, zeroed node leaves the material of every cell as it
    /// was.
    pub(crate) proof fn lemma_linked_material(
        pre: Contree,
        post: Contree,
        parent: Addr,
        index: int,
        addr: Addr,
        leaf: bool,
        pos: Position,
    )
        requires
            pre.wf(),
            Contree::linked(pre, post, parent, index, addr, leaf),
        ensures
            post.material_at(pos) == pre.material_at(pos),
    {
        if in_cube(pre.center_offset(), pre.size(), pos) {
            let digits = pre.path_of(pos);
            let after = post.nodes().inners();
            let root = pre.root();
            let full = digits.len() as int;
            pre.lemma_path_of(pos, pos);
            assert(post.path_of(pos) == digits);
            Contree::lemma_linked_slots(pre, post, parent, index, addr, leaf);
            lemma_zeroed_is_empty();
            assert(digits.take(full) =~= digits);
            assert(digits.skip(full) =~= Seq::<ChildIndex>::empty());
            pre.lemma_walk_modified(after, parent, index, digits, full, root, seq![root]);
            pre.lemma_walk_ends(digits, full, root, seq![root]);
            let w = walk(pre.nodes().inners(), root, digits, seq![root]);
            let w2 = walk(after, root, digits, seq![root]);
            if w.leaf is None && w.parents.last() == parent && w.stack.len() > 0 && w.stack.last()
                == index {
                let rest = w.stack.drop_last();
                if !leaf {
                    if rest.len() > 0 {
                        assert(!after[addr as int].occupied(rest.last() as int));
                    }
                    assert(walk(after, addr, rest, w.parents.push(addr)).leaf is None);
                } else {
                    assert(w2 == Walk { leaf: Some(addr), stack: rest, parents: w.parents });
                    if rest.len() == 1 {
                        assert(!post.nodes().leaves()[addr as int].occupied(rest[0] as int));
                    }
                }
            } else {
                assert(w2 == w);
            }
        }
    }

    /// Storing a material in the voxel at which the walk for `pos` ends
    /// gives `pos` that material and leaves every other cell as it was.
    pub(crate) proof fn lemma_voxel_set(
        pre: Contree,
        post: Contree,
        leaf: Addr,
        index: int,
        material: u8,
        pos: Position,
        other: Position,
    )
        requires
            pre.wf(),
            Contree::voxel_set(pre, post, leaf, index, material),
            in_cube(pre.center_offset(), pre.size(), pos),
            pre.find_spec(pos).leaf == Some(leaf),
            pre.find_spec(pos).stack == seq![index as ChildIndex],
        ensures
            post.find_spec(other) == pre.find_spec(other),
            post.material_at(other) == (if other == pos {
                Some(material)
            } else {
                pre.material_at(other)
            }),
    {
        let root = pre.root();
        lemma_holds(
            post.nodes().leaves()[leaf as int],
            pre.nodes().leaves()[leaf as int],
            index,
            material,
        );
        assert(post.path_of(other) == pre.path_of(other));
        if in_cube(pre.center_offset(), pre.size(), other) {
            let mine = pre.path_of(pos);
            let theirs = pre.path_of(other);
            pre.lemma_path_of(pos, other);
            pre.lemma_path_of(other, other);
            assert(mine.take(mine.len() as int) =~= mine);
            assert(mine.skip(mine.len() as int) =~= Seq::<ChildIndex>::empty());
            assert(theirs.take(theirs.len() as int) =~= theirs);
            assert(theirs.skip(theirs.len() as int) =~= Seq::<ChildIndex>::empty());
            pre.lemma_walk_ends(mine, mine.len() as int, root, seq![root]);
            pre.lemma_walk_ends(theirs, theirs.len() as int, root, seq![root]);
            let w = pre.find_spec(other);
            if other != pos && w.leaf == Some(leaf) && w.stack.len() == 1 {
                if w.stack[0] == index {
                    assert(mine.take(1)[0] == theirs.take(1)[0]);
                    assert forall|i: int| 0 <= i < mine.len() implies mine[i] == theirs[i] by {
                        if i > 0 {
                            assert(mine.skip(1)[i - 1] == theirs.skip(1)[i - 1]);
                        }
                    }
                    assert(mine =~= theirs);
                }
            }
        }
    }

    /// Linking a new node keeps every node that the root led to.
    pub(crate) proof fn lemma_linked_kept(
        pre: Contree,
        post: Contree,
        parent: Addr,
        index: int,
        addr: Addr,
        leaf: bool,
    )
        requires
            pre.wf(),
            Contree::linked(pre, post, parent, index, addr, leaf),
        ensures
            Contree::kept(pre, post, None),
    {
        Contree::lemma_linked_slots(pre, post, parent, index, addr, leaf);
        let before = pre.nodes().inners()[parent as int];
        let after = post.nodes().inners()[parent as int];
        lemma_links(after, before, index, addr, leaf);
        assert(slot_ok(
            before,
            index,
            pre.inner_trails()[parent],
            pre.inner_trails(),
            pre.leaf_trails(),
            pre.depth(),
        ));
        assert forall|a: Addr| #[trigger]
            pre.inner_trails().dom().contains(a) implies post.nodes().inners()[a as int].keeps(
            pre.nodes().inners()[a as int],
        ) by {
            if a != parent {
                assert(post.nodes().inners()[a as int] == pre.nodes().inners()[a as int]);
            }
        }
        assert forall|l: Addr| #[trigger]
            pre.leaf_trails().dom().contains(l) implies post.nodes().leaves()[l as int].keeps(
            pre.nodes().leaves()[l as int],
            None,
        ) by {
            assert(post.nodes().leaves()[l as int] == pre.nodes().leaves()[l as int]);
        }
    }

    /// Growth keeps every node that the root led to.
    pub(crate) proof fn lemma_grown_kept(pre: Contree, post: Contree)
        requires
            pre.wf(),
            Contree::grown(pre, post),
        ensures
            Contree::kept(pre, post, None),
    {
        assert forall|a: Addr| #[trigger]
            pre.inner_trails().dom().contains(a) implies post.nodes().inners()[a as int].keeps(
            pre.nodes().inners()[a as int],
        ) by {
            assert(post.nodes().inners()[a as int] == pre.nodes().inners()[a as int]);
        }
    }

    /// Storing a voxel keeps every node that the root led to, but for that
    /// voxel.
    pub(crate) proof fn lemma_voxel_kept(
        pre: Contree,
        post: Contree,
        leaf: Addr,
        index: int,
        material: u8,
    )
        requires
            pre.wf(),
            Contree::voxel_set(pre, post, leaf, index, material),
        ensures
            Contree::kept(pre, post, Some((leaf, index))),
    {
        lemma_holds(
            post.nodes().leaves()[leaf as int],
            pre.nodes().leaves()[leaf as int],
            index,
            material,
        );
        assert forall|l: Addr| #[trigger]
            pre.leaf_trails().dom().contains(l) implies post.nodes().leaves()[l as int].keeps(
            pre.nodes().leaves()[l as int],
            Contree::voxel_but(Some((leaf, index)), l),
        ) by {
            if l != leaf {
                assert(post.nodes().leaves()[l as int] == pre.nodes().leaves()[l as int]);
            }
        }
    }

    /// What is kept twice is kept.
    pub(crate) proof fn lemma_kept_chain(
        first: Contree,
        second: Contree,
        third: Contree,
        but: Option<(Addr, int)>,
    )
        requires
            Contree::kept(first, second, None),
            Contree::kept(second, third, but),
        ensures
            Contree::kept(first, third, but),
    {
        assert forall|a: Addr| #[trigger]
            first.inner_trails().dom().contains(a) implies third.nodes().inners()[a as int].keeps(
            first.nodes().inners()[a as int],
        ) by {
            assert(second.inner_trails().dom().contains(a));
            let x = first.nodes().inners()[a as int];
            let y = second.nodes().inners()[a as int];
            let z = third.nodes().inners()[a as int];
            assert forall|i: int| 0 <= i < 64 && x.occupied(i) implies #[trigger] z.same_slot(
                x,
                i,
            ) by {
                assert(y.same_slot(x, i));
                assert(z.same_slot(y, i));
            }
        }
        assert forall|l: Addr| #[trigger]
            first.leaf_trails().dom().contains(l) implies third.nodes().leaves()[l as int].keeps(
            first.nodes().leaves()[l as int],
            Contree::voxel_but(but, l),
        ) by {
            assert(second.leaf_trails().dom().contains(l));
            let x = first.nodes().leaves()[l as int];
            let y = second.nodes().leaves()[l as int];
            let z = third.nodes().leaves()[l as int];
            assert forall|v: int|
                0 <= v < 64 && Some(v) != Contree::voxel_but(
                    but,
                    l,
                ) implies #[trigger] z.same_voxel(x, v) by {
                assert(y.same_voxel(x, v));
                assert(z.same_voxel(y, v));
            }
        }
    }

    /// Growing the cube until it holds a cell and then putting a material
    /// there is putting the material at that cell.
    pub(crate) proof fn lemma_inserted(
        pre: Contree,
        wide: Contree,
        post: Contree,
        pos: Position,
        material: u8,
        chain: Seq<Addr>,
    )
        requires
            pre.wf(),
            Contree::reached(pre, wide, pos),
            Contree::placed(wide, post, pos, material, chain),
        ensures
            Contree::inserted(pre, post, pos, material, chain),
    {
        let leaf = post.find_spec(pos).leaf.unwrap();
        Contree::lemma_prefix_chain(pre.issued(), wide.issued(), post.issued());
        Contree::lemma_kept_chain(
            pre,
            wide,
            post,
            Some((leaf, post.find_spec(pos).stack[0] as int)),
        );
        assert(post@ =~= pre@.insert(pos, material));
        assert(wide.find_spec(pos) == wide.state().found(pos));
    }

    /// Growth keeps the tree sound.
    pub(crate) proof fn lemma_grown_wf(pre: Contree, post: Contree)
        requires
            pre.wf(),
            pre.size() * 4 <= MAX_SIZE,
            Contree::grown(pre, post),
        ensures
            post.wf(),
    {
        let it = post.inner_trails();
        let lt = post.leaf_trails();
        let inners = post.nodes().inners();
        let new_root = post.root();
        lemma_valid_size(pre.size());
        lemma_zeroed_is_empty();
        lemma_links(
            inners[new_root as int],
            ContreeInner::zeroed(),
            GROW_SLOT as int,
            pre.root(),
            false,
        );
        lemma_grown_offsets(pre.center_offset(), pre.size(), pre.center_offset());
        assert forall|i: int|
            0 <= i < 64 && #[trigger] inners[new_root as int].occupied(i) implies post.root_slot(
            i,
        ) by {
            if i != GROW_SLOT {
                assert(inners[new_root as int].same_slot(ContreeInner::zeroed(), i));
            }
        }
        assert forall|a: Addr, i: int|
            it.dom().contains(a) && 0 <= i < 64 implies #[trigger] slot_ok(
            inners[a as int],
            i,
            it[a],
            it,
            lt,
            post.depth(),
        ) by {
            if a == new_root {
                if i == GROW_SLOT {
                    assert(it[pre.root()] =~= seq![i as ChildIndex] + it[a]);
                } else {
                    assert(inners[a as int].same_slot(ContreeInner::zeroed(), i));
                }
            } else {
                let node = pre.nodes().inners()[a as int];
                assert(slot_ok(
                    node,
                    i,
                    pre.inner_trails()[a],
                    pre.inner_trails(),
                    pre.leaf_trails(),
                    pre.depth(),
                ));
                if node.occupied(i) {
                    let child = node.children[i];
                    let trail = pre.inner_trails()[a];
                    assert((seq![i as ChildIndex] + trail).push(GROW_SLOT) =~= seq![
                        i as ChildIndex,
                    ] + trail.push(GROW_SLOT));
                }
            }
        }
    }

    /// Growth leaves the material of every cell as it was.
    pub(crate) proof fn lemma_grown_material(pre: Contree, post: Contree, pos: Position)
        requires
            pre.wf(),
            pre.size() * 4 <= MAX_SIZE,
            Contree::grown(pre, post),
        ensures
            post.material_at(pos) == pre.material_at(pos),
    {
        let size = pre.size();
        let new_root = post.root();
        let after = post.nodes().inners();
        lemma_valid_size(size);
        lemma_zeroed_is_empty();
        lemma_links(
            after[new_root as int],
            ContreeInner::zeroed(),
            GROW_SLOT as int,
            pre.root(),
            false,
        );
        lemma_grown_path(pre.center_offset(), size, pos);
        if in_cube(post.center_offset(), post.size(), pos) {
            let digits = post.path_of(pos);
            let top = digits.last();
            if in_cube(pre.center_offset(), size, pos) {
                let lower = pre.path_of(pos);
                pre.lemma_path_of(pos, pos);
                assert(digits.drop_last() =~= lower);
                let root = pre.root();
                let chain = seq![new_root].push(root);
                assert(walk(after, new_root, digits, seq![new_root]) == walk(
                    after,
                    root,
                    lower,
                    chain,
                ));
                assert(lower.take(lower.len() as int) =~= lower);
                assert(lower.skip(lower.len() as int) =~= Seq::<ChildIndex>::empty());
                assert forall|a: Addr, j: int|
                    pre.inner_trails().dom().contains(a) && 0 <= j < 64 && !(a == new_root && j
                        == 0) implies #[trigger] after[a as int].same_slot(
                    pre.nodes().inners()[a as int],
                    j,
                ) by {
                    assert(after[a as int] == pre.nodes().inners()[a as int]);
                }
                pre.lemma_walk_modified(after, new_root, 0, lower, lower.len() as int, root, chain);
                pre.lemma_walk_ends(lower, lower.len() as int, root, chain);
                Contree::lemma_walk_parents(pre.nodes().inners(), root, lower, chain, seq![root]);
            } else if top != GROW_SLOT {
                assert(!after[new_root as int].occupied(top as int)) by {
                    assert(after[new_root as int].same_slot(ContreeInner::zeroed(), top as int));
                }
            } else {
                // The cell lies beside the previous cube in the cell that
                // the previous root takes: the walk ends at that root.
                let root = pre.root();
                let lower = digits.drop_last();
                let chain = seq![new_root].push(root);
                assert(walk(after, new_root, digits, seq![new_root]) == walk(
                    after,
                    root,
                    lower,
                    chain,
                ));
                assert(after[root as int] == pre.nodes().inners()[root as int]);
                assert(lower.last() == digits[pre.depth() - 1]);
                assert(!pre.root_slot(lower.last() as int));
                assert(!after[root as int].occupied(lower.last() as int));
            }
        }
    }
}

} // verus!
