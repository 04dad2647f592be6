//! The bridge towards the device-resident copy of the arena. Every node
//! write becomes one command that names a device buffer, a byte offset and
//! the bytes to store there; an attached bridge hands the command to a
//! channel that the frame loop drains, a detached one drops it.

use crate::node::inner_bytes;
use crate::node::inners_bytes;
use crate::node::leaf_bytes;
use crate::node::leaves_bytes;
use crate::node::lemma_record_len;
use crate::node::Addr;
use crate::node::ContreeInner;
use crate::node::ContreeLeaf;
use crate::node::INNER_RECORD_SIZE;
use crate::node::LEAF_RECORD_SIZE;
use flume::Receiver;
use flume::Sender;
use vstd::prelude::*;

verus! {

/// flume's `Sender`, the sending end of a channel. The proofs know nothing
/// of what is inside.
#[verifier::external_type_specification]
#[verifier::external_body]
#[verifier::reject_recursive_types(T)]
pub struct ExSender<T>(Sender<T>);

/// flume's `Receiver`, the receiving end of a channel. The proofs know
/// nothing of what is inside.
#[verifier::external_type_specification]
#[verifier::external_body]
#[verifier::reject_recursive_types(T)]
pub struct ExReceiver<T>(Receiver<T>);

/// Names a device buffer. The consumer of the commands knows which buffer an
/// id stands for.
pub type BufferId = u32;

/// One byte-range write into a device buffer.
#[derive(Clone, Debug)]
pub struct BufferWriteCommand {
    pub target_buffer: BufferId,
    pub offset: u64,
    pub new_data: Vec<u8>,
}

/// What a write command says.
pub struct WriteView {
    pub target_buffer: BufferId,
    pub offset: int,
    pub new_data: Seq<u8>,
}

impl View for BufferWriteCommand {
    type V = WriteView;

    /// The buffer, the offset and the bytes of the command.
    open spec fn view(&self) -> WriteView {
        WriteView {
            target_buffer: self.target_buffer,
            offset: self.offset as int,
            new_data: self.new_data@,
        }
    }
}

/// The sending end of a command channel without a capacity limit.
#[derive(Debug)]
pub struct MirrorSender {
    sender: Sender<BufferWriteCommand>,
}

impl Clone for MirrorSender {
    /// Another sending end of the same channel.
    fn clone(&self) -> (copy: MirrorSender) {
        MirrorSender { sender: clone_sender(&self.sender) }
    }
}

/// Where node writes go.
#[non_exhaustive]
#[derive(Clone, Debug)]
pub enum GPUBinding {
    /// Detached: every write is dropped.
    Dummy,
    /// Attached: every write is sent to `writer`, addressed to the buffer of
    /// its node kind.
    Channel { writer: MirrorSender, inner_buffer: BufferId, leaf_buffer: BufferId },
}

/// The write of the inner records `data` at the address `addr` into
/// `buffer`.
pub open spec fn inner_write(buffer: BufferId, addr: Addr, data: Seq<ContreeInner>) -> WriteView {
    WriteView {
        target_buffer: buffer,
        offset: addr * INNER_RECORD_SIZE,
        new_data: inners_bytes(data, data.len()),
    }
}

/// The write of the leaf records `data` at the address `addr` into
/// `buffer`.
pub open spec fn leaf_write(buffer: BufferId, addr: Addr, data: Seq<ContreeLeaf>) -> WriteView {
    WriteView {
        target_buffer: buffer,
        offset: addr * LEAF_RECORD_SIZE,
        new_data: leaves_bytes(data, data.len()),
    }
}

/// flume's `unbounded`: a new channel without a capacity limit, as its two
/// connected ends. Nothing is claimed of them.
#[verifier::external_body]
fn unbounded_channel() -> (ends: (Sender<BufferWriteCommand>, Receiver<BufferWriteCommand>)) {
    flume::unbounded()
}

/// flume's `Sender::clone`: one more sending end of the same channel.
/// Nothing is claimed of it.
#[verifier::external_body]
fn clone_sender(sender: &Sender<BufferWriteCommand>) -> (copy: Sender<BufferWriteCommand>) {
    sender.clone()
}

/// flume's `Sender::send` on a channel without a capacity limit: the command
/// is queued, or, when every receiver is gone, dropped. The call does not
/// wait. Whether the command was queued depends on the other end, so
/// nothing is claimed of the answer.
#[verifier::external_body]
fn send_command(writer: &MirrorSender, command: BufferWriteCommand) -> (queued: bool) {
    writer.sender.send(command).is_ok()
}

impl Default for GPUBinding {
    /// Detached.
    fn default() -> (binding: GPUBinding)
        ensures
            binding is Dummy,
    {
        GPUBinding::Dummy
    }
}

impl GPUBinding {
    /// Whether writes are sent on.
    pub open spec fn attached(self) -> bool {
        self is Channel
    }

    /// The command that a write of the inner records `data` at `addr`
    /// gives rise to, if any.
    pub open spec fn inner_command(self, addr: Addr, data: Seq<ContreeInner>) -> Option<WriteView> {
        match self {
            GPUBinding::Dummy => None,
            GPUBinding::Channel { inner_buffer, .. } => Some(inner_write(inner_buffer, addr, data)),
        }
    }

    /// The command that a write of the leaf records `data` at `addr` gives
    /// rise to, if any.
    pub open spec fn leaf_command(self, addr: Addr, data: Seq<ContreeLeaf>) -> Option<WriteView> {
        match self {
            GPUBinding::Dummy => None,
            GPUBinding::Channel { leaf_buffer, .. } => Some(leaf_write(leaf_buffer, addr, data)),
        }
    }

    /// An attached bridge over a new channel without a capacity limit, and
    /// the end of the channel from which the consumer takes the commands.
    pub fn channel(inner_buffer: BufferId, leaf_buffer: BufferId) -> (ends: (
        GPUBinding,
        Receiver<BufferWriteCommand>,
    ))
        ensures
            ends.0 matches GPUBinding::Channel { inner_buffer: i, leaf_buffer: l, .. } && i
                == inner_buffer && l == leaf_buffer,
    {
        let (sender, receiver) = unbounded_channel();
        (
            GPUBinding::Channel { writer: MirrorSender { sender }, inner_buffer, leaf_buffer },
            receiver,
        )
    }

    /// Builds the command for a write of the inner records `data` at
    /// `addr`: none when detached.
    pub fn build_inner_command(&self, addr: Addr, data: &[ContreeInner]) -> (command: Option<
        BufferWriteCommand,
    >)
        ensures
            command.is_some() == self.attached(),
            match command {
                Some(c) => Some(c@) == self.inner_command(addr, data@),
                None => self.inner_command(addr, data@) is None,
            },
    {
        match self {
            GPUBinding::Dummy => None,
            GPUBinding::Channel { inner_buffer, .. } => {
                let mut new_data: Vec<u8> = Vec::new();
                let mut i: usize = 0;
                while i < data.len()
                    invariant
                        i <= data.len(),
                        new_data@ == inners_bytes(data@, i as nat),
                    decreases data.len() - i,
                {
                    let mut record = data[i].to_bytes();
                    new_data.append(&mut record);
                    i += 1;
                    assert(new_data@ =~= inners_bytes(data@, i as nat));
                }
                Some(
                    BufferWriteCommand {
                        target_buffer: *inner_buffer,
                        offset: addr as u64 * INNER_RECORD_SIZE,
                        new_data,
                    },
                )
            },
        }
    }

    /// Builds the command for a write of the leaf records `data` at `addr`:
    /// none when detached.
    pub fn build_leaf_command(&self, addr: Addr, data: &[ContreeLeaf]) -> (command: Option<
        BufferWriteCommand,
    >)
        ensures
            command.is_some() == self.attached(),
            match command {
                Some(c) => Some(c@) == self.leaf_command(addr, data@),
                None => self.leaf_command(addr, data@) is None,
            },
    {
        match self {
            GPUBinding::Dummy => None,
            GPUBinding::Channel { leaf_buffer, .. } => {
                let mut new_data: Vec<u8> = Vec::new();
                let mut i: usize = 0;
                while i < data.len()
                    invariant
                        i <= data.len(),
                        new_data@ == leaves_bytes(data@, i as nat),
                    decreases data.len() - i,
                {
                    let mut record = data[i].to_bytes();
                    new_data.append(&mut record);
                    i += 1;
                    assert(new_data@ =~= leaves_bytes(data@, i as nat));
                }
                Some(
                    BufferWriteCommand {
                        target_buffer: *leaf_buffer,
                        offset: addr as u64 * LEAF_RECORD_SIZE,
                        new_data,
                    },
                )
            },
        }
    }

    /// Mirrors the inner records `data`, which stand at `addr`: when
    /// attached, exactly one command goes to the channel, for the inner
    /// buffer, at `addr` times the record size, with the records' bytes;
    /// when detached, none. The result is that command, as a record of what
    /// was handed over.
    pub fn write_inner(&self, addr: Addr, data: &[ContreeInner]) -> (issued: Ghost<
        Option<WriteView>,
    >)
        ensures
            issued@ == self.inner_command(addr, data@),
    {
        let command = self.build_inner_command(addr, data);
        match self {
            GPUBinding::Dummy => Ghost(None),
            GPUBinding::Channel { writer, .. } => {
                match command {
                    Some(command) => {
                        let ghost view = command@;
                        let _ = send_command(writer, command);
                        Ghost(Some(view))
                    },
                    None => Ghost(None),
                }
            },
        }
    }

    /// Mirrors the leaf records `data`, which stand at `addr`: when
    /// attached, exactly one command goes to the channel, for the leaf
    /// buffer, at `addr` times the record size, with the records' bytes;
    /// when detached, none. The result is that command, as a record of what
    /// was handed over.
    pub fn write_leaf(&self, addr: Addr, data: &[ContreeLeaf]) -> (issued: Ghost<
        Option<WriteView>,
    >)
        ensures
            issued@ == self.leaf_command(addr, data@),
    {
        let command = self.build_leaf_command(addr, data);
        match self {
            GPUBinding::Dummy => Ghost(None),
            GPUBinding::Channel { writer, .. } => {
                match command {
                    Some(command) => {
                        let ghost view = command@;
                        let _ = send_command(writer, command);
                        Ghost(Some(view))
                    },
                    None => Ghost(None),
                }
            },
        }
    }
}

/// A write of one record covers exactly the bytes of its address.
pub proof fn lemma_single_record_write(
    buffer: BufferId,
    addr: Addr,
    inner: ContreeInner,
    leaf: ContreeLeaf,
)
    ensures
        inner_write(buffer, addr, seq![inner]).new_data == inner_bytes(inner),
        inner_write(buffer, addr, seq![inner]).new_data.len() == INNER_RECORD_SIZE,
        leaf_write(buffer, addr, seq![leaf]).new_data == leaf_bytes(leaf),
        leaf_write(buffer, addr, seq![leaf]).new_data.len() == LEAF_RECORD_SIZE,
{
    lemma_record_len(inner, leaf);
    reveal_with_fuel(inners_bytes, 2);
    reveal_with_fuel(leaves_bytes, 2);
    assert(inners_bytes(seq![inner], 1) =~= inner_bytes(inner));
    assert(leaves_bytes(seq![leaf], 1) =~= leaf_bytes(leaf));
}

} // verus!
