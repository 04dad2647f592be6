//! Materials of the world and their traits.

use vstd::prelude::*;

verus! {

/// A set of traits of a block, one bit per trait.
#[derive(Clone, Copy, Debug, PartialEq, Eq, Structural)]
pub struct BlockTraits {
    pub bits: u8,
}

impl BlockTraits {
    /// No trait.
    pub fn empty() -> (traits: BlockTraits)
        ensures
            traits.bits == 0,
    {
        BlockTraits { bits: 0 }
    }

    /// The trait of catching fire.
    pub fn flammable() -> (traits: BlockTraits)
        ensures
            traits.bits == 1,
    {
        BlockTraits { bits: 0b1 }
    }

    /// Whether every trait of `other` is one of `self`.
    pub open spec fn includes(self, other: BlockTraits) -> bool {
        self.bits & other.bits == other.bits
    }

    /// Whether every trait of `other` is one of `self`.
    pub fn contains(&self, other: BlockTraits) -> (all: bool)
        ensures
            all == self.includes(other),
    {
        self.bits & other.bits == other.bits
    }
}

impl Default for BlockTraits {
    /// No trait.
    fn default() -> (traits: BlockTraits)
        ensures
            traits.bits == 0,
    {
        BlockTraits::empty()
    }
}

/// What a cell can be made of.
#[non_exhaustive]
#[derive(Clone, Copy, Debug, PartialEq, Eq, Hash, Structural)]
pub enum Block {
    Air,
    Grass,
    Dirt,
    Wood,
}

impl Default for Block {
    /// Air.
    fn default() -> (block: Block)
        ensures
            block is Air,
    {
        Block::Air
    }
}

impl Block {
    /// The traits of every block: wood catches fire, nothing else has a
    /// trait.
    pub open spec fn traits_of(self) -> BlockTraits {
        match self {
            Block::Wood => BlockTraits { bits: 1 },
            _ => BlockTraits { bits: 0 },
        }
    }

    /// The traits of this block.
    pub fn traits(&self) -> (traits: BlockTraits)
        ensures
            traits == self.traits_of(),
    {
        match self {
            Block::Wood => BlockTraits::flammable(),
            _ => BlockTraits::default(),
        }
    }

    /// Whether this block catches fire: only wood does.
    pub fn is_flammable(&self) -> (flammable: bool)
        ensures
            flammable == (*self is Wood),
            flammable == self.traits_of().includes(BlockTraits { bits: 1 }),
    {
        assert(1u8 & 1u8 == 1u8) by (bit_vector);
        assert(0u8 & 1u8 != 1u8) by (bit_vector);
        self.traits().contains(BlockTraits::flammable())
    }
}

} // verus!
