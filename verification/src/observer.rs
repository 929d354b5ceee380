//! From the observer's position to the chunk that the view is centred on.
//!
//! Positions are given in whole blocks, rounded towards zero. A coordinate
//! is divided by the chunk edge and rounded towards zero after it has been
//! moved away from zero by an offset: half a chunk along x and z, so that the
//! view is centred on the observer, and nothing along y.

use vstd::prelude::*;
use crate::chunk::{ChunkPosition, CHUNK_SIZE};
use crate::vector::Vector3;

verus! {

/// The offset along x and z: half the chunk edge.
pub const HALF_CHUNK: i32 = 8;

/// The chunk coordinate of the block coordinate `p` for the offset `offset`:
/// `(p + offset) / CHUNK_SIZE` rounded down where `p` is not negative,
/// `(p - offset) / CHUNK_SIZE` rounded up where it is.
pub open spec fn chunk_coordinate(p: int, offset: int) -> int {
    if p >= 0 {
        (p + offset) / (CHUNK_SIZE as int)
    } else {
        -((offset - p) / (CHUNK_SIZE as int))
    }
}

/// The block coordinates that belong to chunk coordinate `c`: a stretch of
/// `CHUNK_SIZE` coordinates that starts `offset` before `c * CHUNK_SIZE` on
/// the positive side, and ends `offset` after it on the negative side. The
/// stretch of chunk 0 reaches to both sides of zero, as far as the first
/// stretch on either side.
pub open spec fn in_stretch(p: int, offset: int, c: int) -> bool {
    if c > 0 {
        c * CHUNK_SIZE - offset <= p < (c + 1) * CHUNK_SIZE - offset
    } else if c < 0 {
        (c - 1) * CHUNK_SIZE + offset < p <= c * CHUNK_SIZE + offset
    } else {
        offset - CHUNK_SIZE < p < CHUNK_SIZE - offset
    }
}

/// The chunk that the view is centred on when the observer stands at
/// `position`.
pub open spec fn observed_chunk(position: Vector3<i32>) -> ChunkPosition {
    Vector3 {
        x: chunk_coordinate(position.x as int, HALF_CHUNK as int) as i32,
        y: chunk_coordinate(position.y as int, 0) as i32,
        z: chunk_coordinate(position.z as int, HALF_CHUNK as int) as i32,
    }
}

/// A block coordinate has chunk coordinate `c` exactly if it lies in the
/// stretch of `c`: the chunk coordinate changes only where the position
/// crosses from one stretch into the next.
pub proof fn lemma_chunk_coordinate_stretch(p: int, offset: int, c: int)
    requires
        0 <= offset < CHUNK_SIZE,
    ensures
        chunk_coordinate(p, offset) == c <==> in_stretch(p, offset, c),
{
}

/// Chunk coordinates do not decrease as the block coordinate grows.
pub proof fn lemma_chunk_coordinate_monotonic(p: int, q: int, offset: int)
    requires
        0 <= offset < CHUNK_SIZE,
        p <= q,
    ensures
        chunk_coordinate(p, offset) <= chunk_coordinate(q, offset),
{
}

/// The chunk coordinate of a 32-bit block coordinate is a 32-bit number, with
/// room to spare.
pub proof fn lemma_chunk_coordinate_bounds(p: i32, offset: int)
    requires
        0 <= offset < CHUNK_SIZE,
    ensures
        -0x800_0000 <= chunk_coordinate(p as int, offset) <= 0x800_0000,
{
}

/// The chunk coordinate of `p` for the offset `offset`.
fn coordinate(p: i32, offset: i32) -> (c: i32)
    requires
        0 <= offset < CHUNK_SIZE,
    ensures
        c == chunk_coordinate(p as int, offset as int),
{
    if p >= 0 {
        ((p as i64 + offset as i64) / 16) as i32
    } else {
        (-((offset as i64 - p as i64) / 16)) as i32
    }
}

/// The chunk coordinate of a block coordinate along x or z.
pub fn horizontal_chunk(p: i32) -> (c: i32)
    ensures
        c == chunk_coordinate(p as int, HALF_CHUNK as int),
{
    coordinate(p, HALF_CHUNK)
}

/// The chunk coordinate of a block coordinate along y.
pub fn vertical_chunk(p: i32) -> (c: i32)
    ensures
        c == chunk_coordinate(p as int, 0),
{
    coordinate(p, 0)
}

/// The chunk that the view is centred on when the observer stands at
/// `position`.
pub fn observer_chunk(position: Vector3<i32>) -> (chunk: ChunkPosition)
    ensures
        chunk == observed_chunk(position),
{
    Vector3::new(
        horizontal_chunk(position.x),
        vertical_chunk(position.y),
        horizontal_chunk(position.z),
    )
}

} // verus!
