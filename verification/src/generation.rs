//! What terrain generation yields for one cell.

use crate::block::Block;
use vstd::prelude::*;

verus! {

/// The block that generation has chosen for a cell.
#[derive(Clone, Copy, Debug)]
pub struct GenerationOutput {
    pub block: Block,
}

impl Default for GenerationOutput {
    /// Air.
    fn default() -> (output: GenerationOutput)
        ensures
            output.block is Air,
    {
        GenerationOutput { block: Block::default() }
    }
}

} // verus!
