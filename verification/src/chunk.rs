//! Chunks: fixed-size cubes of block slots.

use vstd::prelude::*;
use crate::block::{Block, BlockVertex};
use crate::vector::Vector3;

verus! {

/// Edge length of a chunk, in blocks.
pub const CHUNK_SIZE: usize = 16;

/// Number of block slots in a chunk.
pub const CHUNK_3D_SIZE: usize = CHUNK_SIZE * CHUNK_SIZE * CHUNK_SIZE;

/// Position of a chunk in the chunk grid. The chunk covers the world
/// positions from `position * CHUNK_SIZE` on.
pub type ChunkPosition = Vector3<i32>;

/// The cached surface of a chunk.
#[derive(Debug)]
pub struct ChunkMesh {
    pub vertices: Vec<BlockVertex>,
    pub indices: Vec<u32>,
    /// Number of indices to draw.
    pub num_elements: u32,
}

/// A cube of block slots, `CHUNK_SIZE` along each edge, with its cached mesh.
pub struct Chunk {
    pub id: usize,
    pub position: ChunkPosition,
    /// Whether the chunk has been meshed at least once.
    pub is_active: bool,
    /// The slots, flattened by [`block_index`].
    pub blocks: [Option<Block>; CHUNK_3D_SIZE],
    /// The mesh made when the chunk was last meshed, if a face showed then.
    pub mesh: Option<ChunkMesh>,
}

/// Whether `(x, y, z)` names a slot of a chunk.
pub open spec fn in_chunk(x: int, y: int, z: int) -> bool {
    0 <= x < CHUNK_SIZE && 0 <= y < CHUNK_SIZE && 0 <= z < CHUNK_SIZE
}

/// The place of slot `(x, y, z)` in the flattened slot array.
pub open spec fn block_index(x: int, y: int, z: int) -> int {
    (x * CHUNK_SIZE + y) * CHUNK_SIZE + z
}

/// The slots after `block` has been put at `(x, y, z)`: the slot takes the
/// block if it exists and is empty, and nothing changes otherwise.
pub open spec fn with_block(
    blocks: Seq<Option<Block>>,
    block: Block,
    x: int,
    y: int,
    z: int,
) -> Seq<Option<Block>> {
    if in_chunk(x, y, z) && blocks[block_index(x, y, z)] is None {
        blocks.update(block_index(x, y, z), Some(block))
    } else {
        blocks
    }
}

/// The slots after the one at `(x, y, z)` has been emptied: nothing changes
/// if there is no such slot.
pub open spec fn without_block(blocks: Seq<Option<Block>>, x: int, y: int, z: int) -> Seq<
    Option<Block>,
> {
    if in_chunk(x, y, z) {
        blocks.update(block_index(x, y, z), None)
    } else {
        blocks
    }
}

/// The first block put into a slot stays: putting a second block at the same
/// position changes nothing.
pub proof fn lemma_first_block_stays(
    blocks: Seq<Option<Block>>,
    first: Block,
    second: Block,
    x: int,
    y: int,
    z: int,
)
    requires
        blocks.len() == CHUNK_3D_SIZE,
    ensures
        with_block(with_block(blocks, first, x, y, z), second, x, y, z) == with_block(
            blocks,
            first,
            x,
            y,
            z,
        ),
{
    if in_chunk(x, y, z) {
        lemma_block_index_bijective(x, y, z);
    }
}

/// Positions outside the chunk are left alone: putting a block there or
/// emptying them changes nothing.
pub proof fn lemma_outside_is_ignored(blocks: Seq<Option<Block>>, block: Block, x: int, y: int, z: int)
    requires
        !in_chunk(x, y, z),
    ensures
        with_block(blocks, block, x, y, z) == blocks,
        without_block(blocks, x, y, z) == blocks,
{
}

/// After a slot has been emptied it takes the next block put there, and an
/// emptied slot holds no active block.
pub proof fn lemma_emptied_slot_takes_block(
    blocks: Seq<Option<Block>>,
    block: Block,
    x: int,
    y: int,
    z: int,
)
    requires
        blocks.len() == CHUNK_3D_SIZE,
        in_chunk(x, y, z),
    ensures
        without_block(blocks, x, y, z)[block_index(x, y, z)] is None,
        with_block(without_block(blocks, x, y, z), block, x, y, z)[block_index(x, y, z)] == Some(
            block,
        ),
{
    lemma_block_index_bijective(x, y, z);
}

/// Slot positions and array indices correspond one to one.
pub proof fn lemma_block_index_bijective(x: int, y: int, z: int)
    requires
        in_chunk(x, y, z),
    ensures
        0 <= block_index(x, y, z) < CHUNK_3D_SIZE,
        block_index(x, y, z) / 256 == x,
        (block_index(x, y, z) / 16) % 16 == y,
        block_index(x, y, z) % 16 == z,
{
}

impl Chunk {
    /// The slot at `(x, y, z)`; positions outside the chunk hold nothing.
    pub open spec fn slot(&self, x: int, y: int, z: int) -> Option<Block> {
        if in_chunk(x, y, z) {
            self.blocks@[block_index(x, y, z)]
        } else {
            None
        }
    }

    /// Whether an active block sits at `(x, y, z)`. Everything outside the
    /// chunk counts as air.
    pub open spec fn active_at(&self, x: int, y: int, z: int) -> bool {
        match self.slot(x, y, z) {
            Some(block) => block.is_active,
            None => false,
        }
    }

    /// Whether this is a chunk just made at `position`, not meshed yet, with
    /// `block` in each of its slots.
    pub open spec fn is_fresh(&self, id: usize, position: ChunkPosition, block: Option<Block>) -> bool {
        &&& self.id == id
        &&& self.position == position
        &&& !self.is_active
        &&& self.mesh is None
        &&& forall|i: int| 0 <= i < CHUNK_3D_SIZE ==> self.blocks@[i] == block
    }

    /// An empty chunk that has not been meshed.
    pub fn new(id: usize, position: ChunkPosition) -> (chunk: Self)
        ensures
            chunk.is_fresh(id, position, None),
    {
        let blocks: [Option<Block>; CHUNK_3D_SIZE] = [None;CHUNK_3D_SIZE];
        Chunk { id, position, is_active: false, blocks, mesh: None }
    }

    /// A chunk whose every slot holds an active block with id 0, not yet meshed.
    pub fn full(id: usize, position: ChunkPosition) -> (chunk: Self)
        ensures
            chunk.is_fresh(id, position, Some(Block { id: 0, is_active: true })),
    {
        let block = Block::new(0);
        let blocks: [Option<Block>; CHUNK_3D_SIZE] = [Some(block);CHUNK_3D_SIZE];
        Chunk { id, position, is_active: false, blocks, mesh: None }
    }

    /// Puts `block` into the slot at `position` if that slot exists and is
    /// empty. Does nothing otherwise: the first block put into a slot stays.
    pub fn insert_block(&mut self, block: Block, position: Vector3<usize>)
        ensures
            final(self).id == old(self).id,
            final(self).position == old(self).position,
            final(self).is_active == old(self).is_active,
            final(self).mesh == old(self).mesh,
            final(self).blocks@ == with_block(
                old(self).blocks@,
                block,
                position.x as int,
                position.y as int,
                position.z as int,
            ),
    {
        let x = position.x;
        let y = position.y;
        let z = position.z;

        let limit = CHUNK_SIZE - 1;
        if x <= limit && y <= limit && z <= limit {
            let index = ((x * CHUNK_SIZE + y) * CHUNK_SIZE) + z;
            if self.blocks[index].is_none() {
                self.blocks[index] = Some(block);
            }
        }
    }

    /// Empties the slot at `position`. Does nothing if there is no such slot.
    pub fn remove_block(&mut self, position: Vector3<usize>)
        ensures
            final(self).id == old(self).id,
            final(self).position == old(self).position,
            final(self).is_active == old(self).is_active,
            final(self).mesh == old(self).mesh,
            final(self).blocks@ == without_block(
                old(self).blocks@,
                position.x as int,
                position.y as int,
                position.z as int,
            ),
    {
        let x = position.x;
        let y = position.y;
        let z = position.z;

        let limit = CHUNK_SIZE - 1;
        if x <= limit && y <= limit && z <= limit {
            let index = ((x * CHUNK_SIZE + y) * CHUNK_SIZE) + z;
            if self.blocks[index].is_some() {
                self.blocks[index] = None;
            }
        }
    }

    /// Whether an active block sits at `position`; `false` for every
    /// position outside the chunk.
    pub fn block_active(&self, position: Vector3<usize>) -> (active: bool)
        ensures
            active == self.active_at(position.x as int, position.y as int, position.z as int),
    {
        let x = position.x;
        let y = position.y;
        let z = position.z;

        let limit = CHUNK_SIZE - 1;
        if x <= limit && y <= limit && z <= limit {
            let index = ((x * CHUNK_SIZE + y) * CHUNK_SIZE) + z;
            if let Some(block) = self.blocks[index] {
                return block.is_active;
            }
        }
        false
    }
}

} // verus!
