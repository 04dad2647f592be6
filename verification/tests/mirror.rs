use contree::contree::Contree;
use contree::gpu_binding::BufferWriteCommand;
use contree::gpu_binding::GPUBinding;
use contree::node::ContreeInner;
use contree::node::ContreeLeaf;
use contree::node::INNER_RECORD_SIZE;
use contree::node::LEAF_RECORD_SIZE;
use contree::position::Position;

const INNER_BUFFER: u32 = 7;
const LEAF_BUFFER: u32 = 9;

fn origin() -> Position {
    Position::new(0, 0, 0)
}

/// What the consumer would do: applies the commands in order to two byte
/// buffers.
fn apply(commands: &[BufferWriteCommand], inner: &mut Vec<u8>, leaf: &mut Vec<u8>) {
    for command in commands {
        let buffer = if command.target_buffer == INNER_BUFFER {
            &mut *inner
        } else {
            assert_eq!(command.target_buffer, LEAF_BUFFER);
            &mut *leaf
        };
        let start = command.offset as usize;
        let end = start + command.new_data.len();
        if buffer.len() < end {
            buffer.resize(end, 0);
        }
        buffer[start..end].copy_from_slice(&command.new_data);
    }
}

fn host_image(contree: &Contree) -> (Vec<u8>, Vec<u8>) {
    let mut inner = Vec::new();
    for addr in 0..contree.inner_count() as u32 {
        inner.extend(contree.inner(addr).unwrap().to_bytes());
    }
    let mut leaf = Vec::new();
    for addr in 0..contree.leaf_count() as u32 {
        leaf.extend(contree.leaf(addr).unwrap().to_bytes());
    }
    (inner, leaf)
}

#[test]
fn record_sizes() {
    assert_eq!(INNER_RECORD_SIZE, 280);
    assert_eq!(LEAF_RECORD_SIZE, 80);
    assert_eq!(ContreeInner::new().to_bytes().len(), 280);
    assert_eq!(ContreeLeaf::new().to_bytes().len(), 80);
}

#[test]
fn inner_record_layout() {
    let mut node = ContreeInner::new();
    node.contains = 0x0102_0304_0506_0708;
    node.leaf = 1 << 56;
    node.light = 0xff;
    node.children[0] = 0x1122_3344;
    node.children[1] = 1;
    node.children[63] = 0xaabb_ccdd;
    let bytes = node.to_bytes();
    assert_eq!(&bytes[0..8], &[8, 7, 6, 5, 4, 3, 2, 1]);
    assert_eq!(&bytes[8..16], &[0, 0, 0, 0, 0, 0, 0, 1]);
    assert_eq!(&bytes[16..24], &[0xff, 0, 0, 0, 0, 0, 0, 0]);
    assert_eq!(&bytes[24..28], &[0x44, 0x33, 0x22, 0x11]);
    assert_eq!(&bytes[28..32], &[1, 0, 0, 0]);
    assert!(bytes[32..276].iter().all(|b| *b == 0));
    assert_eq!(&bytes[276..280], &[0xdd, 0xcc, 0xbb, 0xaa]);
}

#[test]
fn leaf_record_layout() {
    let mut node = ContreeLeaf::new();
    node.contains = 0b101;
    node.light = 0x8000_0000_0000_0000;
    node.children[0] = 10;
    node.children[2] = 20;
    node.children[63] = 255;
    let bytes = node.to_bytes();
    assert_eq!(&bytes[0..8], &[5, 0, 0, 0, 0, 0, 0, 0]);
    assert_eq!(&bytes[8..16], &[0, 0, 0, 0, 0, 0, 0, 0x80]);
    assert_eq!(&bytes[16..19], &[10, 0, 20]);
    assert!(bytes[19..79].iter().all(|b| *b == 0));
    assert_eq!(bytes[79], 255);
}

#[test]
fn detached_bridge_builds_no_command() {
    let binding = GPUBinding::default();
    assert!(matches!(binding, GPUBinding::Dummy));
    assert!(binding.build_inner_command(3, &[ContreeInner::new()]).is_none());
    assert!(binding.build_leaf_command(3, &[ContreeLeaf::new()]).is_none());
    binding.write_inner(3, &[ContreeInner::new()]);
    binding.write_leaf(3, &[ContreeLeaf::new()]);
}

#[test]
fn attached_bridge_addresses_each_kind_to_its_buffer() {
    let (binding, _receiver) = GPUBinding::channel(INNER_BUFFER, LEAF_BUFFER);
    let mut inner = ContreeInner::new();
    inner.light = 3;
    let command = binding.build_inner_command(5, &[inner]).unwrap();
    assert_eq!(command.target_buffer, INNER_BUFFER);
    assert_eq!(command.offset, 5 * 280);
    assert_eq!(command.new_data, inner.to_bytes());

    let mut leaf = ContreeLeaf::new();
    leaf.children[1] = 4;
    let command = binding.build_leaf_command(5, &[leaf]).unwrap();
    assert_eq!(command.target_buffer, LEAF_BUFFER);
    assert_eq!(command.offset, 5 * 80);
    assert_eq!(command.new_data, leaf.to_bytes());

    let command = binding.build_inner_command(u32::MAX, &[]).unwrap();
    assert_eq!(command.offset, u32::MAX as u64 * 280);
    assert!(command.new_data.is_empty());
}

#[test]
fn a_write_of_several_records_carries_them_in_order() {
    let (binding, receiver) = GPUBinding::channel(INNER_BUFFER, LEAF_BUFFER);
    let mut first = ContreeLeaf::new();
    first.contains = 1;
    let mut second = ContreeLeaf::new();
    second.contains = 2;
    binding.write_leaf(2, &[first, second]);
    let commands: Vec<BufferWriteCommand> = receiver.drain().collect();
    assert_eq!(commands.len(), 1);
    assert_eq!(commands[0].offset, 160);
    assert_eq!(commands[0].new_data.len(), 160);
    assert_eq!(commands[0].new_data[0], 1);
    assert_eq!(commands[0].new_data[80], 2);
}

#[test]
fn each_write_is_one_command_in_send_order() {
    let (binding, receiver) = GPUBinding::channel(INNER_BUFFER, LEAF_BUFFER);
    binding.write_inner(0, &[ContreeInner::new()]);
    binding.write_leaf(1, &[ContreeLeaf::new()]);
    binding.write_inner(2, &[ContreeInner::new()]);
    let commands: Vec<BufferWriteCommand> = receiver.drain().collect();
    assert_eq!(commands.len(), 3);
    assert_eq!(
        commands.iter().map(|c| (c.target_buffer, c.offset)).collect::<Vec<_>>(),
        vec![(INNER_BUFFER, 0), (LEAF_BUFFER, 80), (INNER_BUFFER, 560)]
    );
    assert!(receiver.drain().next().is_none());
}

#[test]
fn writes_after_the_consumer_left_are_dropped() {
    let (binding, receiver) = GPUBinding::channel(INNER_BUFFER, LEAF_BUFFER);
    drop(receiver);
    binding.write_inner(0, &[ContreeInner::new()]);
    let mut contree = Contree::new(origin(), 16, binding).unwrap();
    contree.insert(Position::new(1, 1, 1), 3);
    assert_eq!(contree.get(Position::new(1, 1, 1)), Some(3));
}

#[test]
fn a_new_index_mirrors_its_root() {
    let (binding, receiver) = GPUBinding::channel(INNER_BUFFER, LEAF_BUFFER);
    let contree = Contree::new(origin(), 16, binding).unwrap();
    let commands: Vec<BufferWriteCommand> = receiver.drain().collect();
    assert_eq!(commands.len(), 1);
    assert_eq!(commands[0].target_buffer, INNER_BUFFER);
    assert_eq!(commands[0].offset, 0);
    assert_eq!(commands[0].new_data, vec![0u8; 280]);
    assert_eq!(contree.inner_count(), 1);
}

#[test]
fn insert_mirrors_every_node_it_writes() {
    let (binding, receiver) = GPUBinding::channel(INNER_BUFFER, LEAF_BUFFER);
    let mut contree = Contree::new(origin(), 64, binding).unwrap();
    receiver.drain().count();

    // A new inner node, a new leaf, and the voxel.
    contree.insert(origin(), 10);
    let commands: Vec<BufferWriteCommand> = receiver.drain().collect();
    let places: Vec<(u32, u64)> = commands.iter().map(|c| (c.target_buffer, c.offset)).collect();
    assert_eq!(
        places,
        vec![
            (INNER_BUFFER, 280), // the new inner node, zeroed
            (INNER_BUFFER, 0),   // the root, with the new child
            (INNER_BUFFER, 280), // the new inner node, with the new leaf
            (LEAF_BUFFER, 0),    // the new leaf, zeroed
            (LEAF_BUFFER, 0),    // the leaf, with the material
        ]
    );
    assert_eq!(commands[0].new_data, vec![0u8; 280]);
    assert_eq!(commands[3].new_data, vec![0u8; 80]);
    assert_eq!(commands[1].new_data, contree.inner(0).unwrap().to_bytes());
    assert_eq!(commands[2].new_data, contree.inner(1).unwrap().to_bytes());
    assert_eq!(commands[4].new_data, contree.leaf(0).unwrap().to_bytes());
    assert_eq!(commands[4].new_data[16], 10);

    // A voxel of an existing leaf: one command.
    contree.insert(Position::new(1, 0, 0), 11);
    let commands: Vec<BufferWriteCommand> = receiver.drain().collect();
    assert_eq!(commands.len(), 1);
    assert_eq!((commands[0].target_buffer, commands[0].offset), (LEAF_BUFFER, 0));
    assert_eq!(commands[0].new_data, contree.leaf(0).unwrap().to_bytes());

    // A second leaf below the same inner node: two nodes written, then the
    // voxel.
    contree.insert(Position::new(4, 4, 4), 5);
    let commands: Vec<BufferWriteCommand> = receiver.drain().collect();
    let places: Vec<(u32, u64)> = commands.iter().map(|c| (c.target_buffer, c.offset)).collect();
    assert_eq!(places, vec![(INNER_BUFFER, 280), (LEAF_BUFFER, 80), (LEAF_BUFFER, 80)]);
}

#[test]
fn growth_mirrors_the_new_root() {
    let (binding, receiver) = GPUBinding::channel(INNER_BUFFER, LEAF_BUFFER);
    let mut contree = Contree::new(origin(), 16, binding).unwrap();
    contree.insert(origin(), 1);
    receiver.drain().count();
    contree.insert(Position::new(20, 0, 0), 2);
    let commands: Vec<BufferWriteCommand> = receiver.drain().collect();
    let places: Vec<(u32, u64)> = commands.iter().map(|c| (c.target_buffer, c.offset)).collect();
    assert_eq!(
        places,
        vec![
            (INNER_BUFFER, 280), // the new root, zeroed
            (INNER_BUFFER, 280), // the new root, with the previous root as child
            (INNER_BUFFER, 560), // a new inner node on the way
            (INNER_BUFFER, 280), // the new root, with that child
            (INNER_BUFFER, 560), // the new inner node, with the new leaf
            (LEAF_BUFFER, 80),   // the new leaf, zeroed
            (LEAF_BUFFER, 80),   // the leaf, with the material
        ]
    );
    assert_eq!(contree.root(), 1);
}

#[test]
fn replaying_the_commands_gives_the_arena() {
    let (binding, receiver) = GPUBinding::channel(INNER_BUFFER, LEAF_BUFFER);
    let mut contree = Contree::new(origin(), 16, binding).unwrap();
    let mut inner = Vec::new();
    let mut leaf = Vec::new();
    let cells = [
        (0, 0, 0),
        (1, 0, 0),
        (-8, 7, 3),
        (40, 2, -9),
        (0, 0, 0),
        (-300, 17, 90),
        (5, 5, 5),
        (5000, -5000, 123),
    ];
    for (i, (x, y, z)) in cells.iter().enumerate() {
        let p = Position::new(*x, *y, *z);
        assert!(contree.can_insert(p));
        contree.insert(p, i as u8);
        // Once per frame the consumer takes what is there.
        let commands: Vec<BufferWriteCommand> = receiver.drain().collect();
        assert!(!commands.is_empty());
        for command in &commands {
            let record = if command.target_buffer == INNER_BUFFER { 280 } else { 80 };
            assert_eq!(command.offset % record, 0);
            assert_eq!(command.new_data.len() as u64, record);
        }
        apply(&commands, &mut inner, &mut leaf);
        let (host_inner, host_leaf) = host_image(&contree);
        assert_eq!(inner, host_inner);
        assert_eq!(leaf, host_leaf);
    }
}

#[test]
fn detached_index_works_without_a_consumer() {
    let mut contree = Contree::new(origin(), 16, GPUBinding::Dummy).unwrap();
    contree.insert(Position::new(3, 3, 3), 1);
    contree.insert(Position::new(100, 3, 3), 2);
    assert_eq!(contree.get(Position::new(3, 3, 3)), Some(1));
    assert_eq!(contree.get(Position::new(100, 3, 3)), Some(2));
}

#[test]
fn a_cloned_bridge_feeds_the_same_channel() {
    let (binding, receiver) = GPUBinding::channel(INNER_BUFFER, LEAF_BUFFER);
    let copy = binding.clone();
    binding.write_inner(1, &[ContreeInner::new()]);
    copy.write_leaf(2, &[ContreeLeaf::new()]);
    assert!(matches!(GPUBinding::Dummy.clone(), GPUBinding::Dummy));
    let commands: Vec<BufferWriteCommand> = receiver.drain().collect();
    assert_eq!(
        commands.iter().map(|c| (c.target_buffer, c.offset)).collect::<Vec<_>>(),
        vec![(INNER_BUFFER, 280), (LEAF_BUFFER, 160)]
    );
}
