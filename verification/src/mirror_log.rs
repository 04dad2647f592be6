//! The record of the commands that an index has handed to its bridge, and
//! what it means for the device to hold the arena.

use crate::contree::Contree;
use crate::gpu_binding::inner_write;
use crate::gpu_binding::leaf_write;
use crate::gpu_binding::lemma_single_record_write;
use crate::gpu_binding::BufferId;
use crate::gpu_binding::GPUBinding;
use crate::gpu_binding::WriteView;
use crate::node::inner_bytes;
use crate::node::leaf_bytes;
use crate::node::Addr;
use crate::node::ContreeInner;
use crate::node::ContreeLeaf;
use crate::node::INNER_RECORD_SIZE;
use crate::node::LEAF_RECORD_SIZE;
use vstd::prelude::*;

verus! {

/// The bytes that the last command of `log` for the place `offset` of
/// `buffer` stores there, if there is such a command.
pub open spec fn latest(log: Seq<WriteView>, buffer: BufferId, offset: int) -> Option<Seq<u8>>
    decreases log.len(),
{
    if log.len() == 0 {
        None
    } else if log.last().target_buffer == buffer && log.last().offset == offset {
        Some(log.last().new_data)
    } else {
        latest(log.drop_last(), buffer, offset)
    }
}

/// Whether `command` writes one whole record at the place of its address:
/// an inner record into the inner buffer of `binding`, or a leaf record into
/// its leaf buffer.
pub open spec fn is_record_write(binding: GPUBinding, command: WriteView) -> bool {
    ||| exists|addr: Addr, node: ContreeInner| #[trigger]
        binding.inner_command(addr, seq![node]) == Some(command)
    ||| exists|addr: Addr, node: ContreeLeaf| #[trigger]
        binding.leaf_command(addr, seq![node]) == Some(command)
}

/// The commands in `command`: one or none.
pub open spec fn option_seq(command: Option<WriteView>) -> Seq<WriteView> {
    match command {
        Some(c) => seq![c],
        None => Seq::empty(),
    }
}

impl Contree {
    /// Whether the device holds the inner record at `addr`: with an
    /// attached bridge whose two buffers differ, the last command for the
    /// record's place in the inner buffer carries the record's bytes.
    pub open spec fn inner_synced(&self, addr: Addr) -> bool {
        match self.binding() {
            GPUBinding::Channel { inner_buffer, leaf_buffer, .. } => inner_buffer != leaf_buffer
                ==> latest(self.issued(), inner_buffer, addr * INNER_RECORD_SIZE) == Some(
                inner_bytes(self.nodes().inners()[addr as int]),
            ),
            GPUBinding::Dummy => true,
        }
    }

    /// Whether the device holds the leaf record at `addr`.
    pub open spec fn leaf_synced(&self, addr: Addr) -> bool {
        match self.binding() {
            GPUBinding::Channel { inner_buffer, leaf_buffer, .. } => inner_buffer != leaf_buffer
                ==> latest(self.issued(), leaf_buffer, addr * LEAF_RECORD_SIZE) == Some(
                leaf_bytes(self.nodes().leaves()[addr as int]),
            ),
            GPUBinding::Dummy => true,
        }
    }

    /// Whether the device holds every record but, at most, the inner record
    /// at `inner` and the leaf record at `leaf`.
    pub open spec fn mirrored_but(&self, inner: Option<Addr>, leaf: Option<Addr>) -> bool {
        &&& forall|i: int|
            0 <= i < self.issued().len() ==> #[trigger] is_record_write(
                self.binding(),
                self.issued()[i],
            )
        &&& forall|a: Addr|
            a < self.nodes().inners().len() && Some(a) != inner ==> #[trigger] self.inner_synced(a)
        &&& forall|a: Addr|
            a < self.nodes().leaves().len() && Some(a) != leaf ==> #[trigger] self.leaf_synced(a)
    }

    /// Whether the device holds every record of the arena: every command
    /// handed to the bridge writes one record at the place of its address
    /// in the buffer of its kind, and applying them in their order gives
    /// the arena byte for byte.
    pub open spec fn mirrored(&self) -> bool {
        self.mirrored_but(None, None)
    }

    /// Number of commands that `writes` node writes hand to the bridge: one
    /// each when attached, none when detached.
    pub open spec fn commands_of(&self, writes: int) -> int {
        if self.binding().attached() {
            writes
        } else {
            0
        }
    }

    /// Number of commands handed to the bridge between `pre` and `post`.
    pub open spec fn sent(pre: Contree, post: Contree) -> int {
        post.issued().len() - pre.issued().len()
    }

    /// One more command changes what the device holds at its place, and
    /// nowhere else.
    pub(crate) proof fn lemma_latest_push(
        log: Seq<WriteView>,
        command: WriteView,
        buffer: BufferId,
        offset: int,
    )
        ensures
            latest(log.push(command), buffer, offset) == (if command.target_buffer == buffer
                && command.offset == offset {
                Some(command.new_data)
            } else {
                latest(log, buffer, offset)
            }),
    {
        assert(log.push(command).drop_last() =~= log);
    }

    /// Records that did not change are held by the device as before while
    /// no command is issued.
    pub(crate) proof fn lemma_sync_kept(
        pre: Contree,
        post: Contree,
        inner: Option<Addr>,
        leaf: Option<Addr>,
    )
        requires
            post.binding() == pre.binding(),
            post.issued() == pre.issued(),
            forall|a: Addr|
                a < post.nodes().inners().len() && Some(a) != inner ==> a
                    < pre.nodes().inners().len() && post.nodes().inners()[a as int]
                    == pre.nodes().inners()[a as int],
            forall|a: Addr|
                a < post.nodes().leaves().len() && Some(a) != leaf ==> a
                    < pre.nodes().leaves().len() && post.nodes().leaves()[a as int]
                    == pre.nodes().leaves()[a as int],
        ensures
            pre.mirrored_but(inner, leaf) ==> post.mirrored_but(inner, leaf),
            pre.mirrored() ==> post.mirrored_but(inner, leaf),
    {
        if pre.mirrored_but(inner, leaf) || pre.mirrored() {
            assert forall|i: int| 0 <= i < post.issued().len() implies #[trigger] is_record_write(
                post.binding(),
                post.issued()[i],
            ) by {
                assert(is_record_write(pre.binding(), pre.issued()[i]));
            }
            assert forall|a: Addr|
                a < post.nodes().inners().len() && Some(a)
                    != inner implies #[trigger] post.inner_synced(a) by {
                assert(pre.inner_synced(a));
            }
            assert forall|a: Addr|
                a < post.nodes().leaves().len() && Some(a)
                    != leaf implies #[trigger] post.leaf_synced(a) by {
                assert(pre.leaf_synced(a));
            }
        }
    }

    /// A log that was extended twice was extended.
    pub(crate) proof fn lemma_prefix_chain(
        first: Seq<WriteView>,
        second: Seq<WriteView>,
        third: Seq<WriteView>,
    )
        requires
            first.is_prefix_of(second),
            second.is_prefix_of(third),
        ensures
            first.is_prefix_of(third),
    {
    }

    /// The command for one inner record brings the device up to date with
    /// that record and changes nothing else on it.
    pub(crate) proof fn lemma_sync_inner(
        pre: Contree,
        post: Contree,
        addr: Addr,
        leaf: Option<Addr>,
    )
        requires
            post.binding() == pre.binding(),
            post.nodes() == pre.nodes(),
            addr < pre.nodes().inners().len(),
            post.issued() == pre.issued() + option_seq(
                pre.binding().inner_command(addr, seq![pre.nodes().inners()[addr as int]]),
            ),
        ensures
            pre.mirrored_but(Some(addr), leaf) ==> post.mirrored_but(None, leaf),
            pre.issued().is_prefix_of(post.issued()),
    {
        let node = pre.nodes().inners()[addr as int];
        match pre.binding() {
            GPUBinding::Channel { inner_buffer, leaf_buffer, .. } => {
                let command = inner_write(inner_buffer, addr, seq![node]);
                lemma_single_record_write(inner_buffer, addr, node, ContreeLeaf::zeroed());
                assert(post.issued() =~= pre.issued().push(command));
                assert(pre.binding().inner_command(addr, seq![node]) == Some(command));
                assert(is_record_write(pre.binding(), command));
                if pre.mirrored_but(Some(addr), leaf) {
                    assert forall|i: int|
                        0 <= i < post.issued().len() implies #[trigger] is_record_write(
                        post.binding(),
                        post.issued()[i],
                    ) by {
                        if i < pre.issued().len() {
                            assert(is_record_write(pre.binding(), pre.issued()[i]));
                        }
                    }
                }
                if pre.mirrored_but(Some(addr), leaf) && inner_buffer != leaf_buffer {
                    assert forall|a: Addr|
                        a < post.nodes().inners().len() implies #[trigger] post.inner_synced(a) by {
                        Contree::lemma_latest_push(
                            pre.issued(),
                            command,
                            inner_buffer,
                            a * INNER_RECORD_SIZE,
                        );
                        if a != addr {
                            assert(pre.inner_synced(a));
                        }
                    }
                    assert forall|a: Addr|
                        a < post.nodes().leaves().len() && Some(a)
                            != leaf implies #[trigger] post.leaf_synced(a) by {
                        Contree::lemma_latest_push(
                            pre.issued(),
                            command,
                            leaf_buffer,
                            a * LEAF_RECORD_SIZE,
                        );
                        assert(pre.leaf_synced(a));
                    }
                }
            },
            GPUBinding::Dummy => {
                assert(post.issued() =~= pre.issued());
            },
        }
    }

    /// The command for one leaf record brings the device up to date with
    /// that record and changes nothing else on it.
    pub(crate) proof fn lemma_sync_leaf(
        pre: Contree,
        post: Contree,
        addr: Addr,
        inner: Option<Addr>,
    )
        requires
            post.binding() == pre.binding(),
            post.nodes() == pre.nodes(),
            addr < pre.nodes().leaves().len(),
            post.issued() == pre.issued() + option_seq(
                pre.binding().leaf_command(addr, seq![pre.nodes().leaves()[addr as int]]),
            ),
        ensures
            pre.mirrored_but(inner, Some(addr)) ==> post.mirrored_but(inner, None),
            pre.issued().is_prefix_of(post.issued()),
    {
        let node = pre.nodes().leaves()[addr as int];
        match pre.binding() {
            GPUBinding::Channel { inner_buffer, leaf_buffer, .. } => {
                let command = leaf_write(leaf_buffer, addr, seq![node]);
                lemma_single_record_write(leaf_buffer, addr, ContreeInner::zeroed(), node);
                assert(post.issued() =~= pre.issued().push(command));
                assert(pre.binding().leaf_command(addr, seq![node]) == Some(command));
                assert(is_record_write(pre.binding(), command));
                if pre.mirrored_but(inner, Some(addr)) {
                    assert forall|i: int|
                        0 <= i < post.issued().len() implies #[trigger] is_record_write(
                        post.binding(),
                        post.issued()[i],
                    ) by {
                        if i < pre.issued().len() {
                            assert(is_record_write(pre.binding(), pre.issued()[i]));
                        }
                    }
                }
                if pre.mirrored_but(inner, Some(addr)) && inner_buffer != leaf_buffer {
                    assert forall|a: Addr|
                        a < post.nodes().leaves().len() implies #[trigger] post.leaf_synced(a) by {
                        Contree::lemma_latest_push(
                            pre.issued(),
                            command,
                            leaf_buffer,
                            a * LEAF_RECORD_SIZE,
                        );
                        if a != addr {
                            assert(pre.leaf_synced(a));
                        }
                    }
                    assert forall|a: Addr|
                        a < post.nodes().inners().len() && Some(a)
                            != inner implies #[trigger] post.inner_synced(a) by {
                        Contree::lemma_latest_push(
                            pre.issued(),
                            command,
                            inner_buffer,
                            a * INNER_RECORD_SIZE,
                        );
                        assert(pre.inner_synced(a));
                    }
                }
            },
            GPUBinding::Dummy => {
                assert(post.issued() =~= pre.issued());
            },
        }
    }
}

} // verus!
