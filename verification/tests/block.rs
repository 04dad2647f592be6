use contree::block::Block;
use contree::block::BlockTraits;
use contree::generation::GenerationOutput;

#[test]
fn only_wood_is_flammable() {
    assert!(Block::Wood.is_flammable());
    assert!(!Block::Air.is_flammable());
    assert!(!Block::Grass.is_flammable());
    assert!(!Block::Dirt.is_flammable());
}

#[test]
fn block_traits_by_block() {
    assert_eq!(Block::Wood.traits(), BlockTraits::flammable());
    assert_eq!(Block::Air.traits(), BlockTraits::empty());
    assert_eq!(Block::Grass.traits(), BlockTraits::empty());
    assert_eq!(Block::Dirt.traits(), BlockTraits::empty());
}

#[test]
fn block_traits_contains() {
    assert!(BlockTraits::flammable().contains(BlockTraits::flammable()));
    assert!(BlockTraits::flammable().contains(BlockTraits::empty()));
    assert!(BlockTraits::empty().contains(BlockTraits::empty()));
    assert!(!BlockTraits::empty().contains(BlockTraits::flammable()));
    assert_eq!(BlockTraits::default(), BlockTraits::empty());
    assert_eq!(BlockTraits::empty().bits, 0);
    assert_eq!(BlockTraits::flammable().bits, 1);
}

#[test]
fn defaults_are_air() {
    assert_eq!(Block::default(), Block::Air);
    assert_eq!(GenerationOutput::default().block, Block::Air);
}
