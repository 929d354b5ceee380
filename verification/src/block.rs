//! Blocks and the quads that draw their faces.

use vstd::prelude::*;
use crate::vector::Vector3;

verus! {

/// Half the chunk edge: quads are shifted by this much along x and z, so that
/// the chunk column at the grid origin is centred on the world origin.
pub const QUAD_OFFSET: i64 = 8;

/// The smallest unit of the world.
#[derive(Clone, Copy, Debug, PartialEq, Eq)]
pub struct Block {
    pub id: usize,
    pub is_active: bool,
}

/// A side of a block, named by the direction it looks in.
#[derive(Clone, Copy, Debug, PartialEq, Eq, Structural)]
pub enum BlockFace {
    /// Towards +x.
    North,
    /// Towards -x.
    South,
    /// Towards +y.
    Top,
    /// Towards -y.
    Bottom,
    /// Towards +z.
    East,
    /// Towards -z.
    West,
}

impl BlockFace {
    /// The axis that the side stands across: 0 is x, 1 is y, 2 is z.
    pub open spec fn axis(self) -> int {
        match self {
            BlockFace::North | BlockFace::South => 0,
            BlockFace::Top | BlockFace::Bottom => 1,
            BlockFace::East | BlockFace::West => 2,
        }
    }

    /// The step along the axis that leads out of the block through this
    /// side: 1 or -1.
    pub open spec fn step(self) -> int {
        match self {
            BlockFace::North | BlockFace::Top | BlockFace::East => 1,
            BlockFace::South | BlockFace::Bottom | BlockFace::West => -1,
        }
    }

    /// The side across `axis` that looks up the axis.
    pub open spec fn up(axis: int) -> BlockFace {
        if axis == 0 {
            BlockFace::North
        } else if axis == 1 {
            BlockFace::Top
        } else {
            BlockFace::East
        }
    }

    /// The side across `axis` that looks down the axis.
    pub open spec fn down(axis: int) -> BlockFace {
        if axis == 0 {
            BlockFace::South
        } else if axis == 1 {
            BlockFace::Bottom
        } else {
            BlockFace::West
        }
    }
}

/// One corner of a quad.
#[derive(Clone, Copy, Debug, PartialEq, Eq)]
pub struct BlockVertex {
    /// Position in world space, in whole blocks.
    pub position: Vector3<i64>,
    /// Flat colour; each channel is a percentage of full intensity.
    pub color: Vector3<u8>,
    /// Direction the face looks in.
    pub normal: Vector3<i64>,
}

/// The colour every quad is drawn in.
pub open spec fn quad_color() -> Vector3<u8> {
    Vector3 { x: 80u8, y: 0u8, z: 50u8 }
}

/// The index fan that splits a quad into two triangles: corners
/// `0, 3, 2` and `2, 1, 0`.
pub open spec fn quad_fan() -> Seq<u32> {
    seq![0u32, 3u32, 2u32, 2u32, 1u32, 0u32]
}

/// Where the first corner of a quad at `position` lies: `position` moved
/// back by [`QUAD_OFFSET`] along x and z.
pub open spec fn quad_origin(position: Vector3<i64>) -> Vector3<int> {
    Vector3 { x: position.x - QUAD_OFFSET, y: position.y as int, z: position.z - QUAD_OFFSET }
}

/// One coordinate of corner `corner` of a parallelogram that starts at
/// `origin` and spans `width` and `height`. The corners go round the quad:
/// origin, origin + width, origin + width + height, origin + height.
pub open spec fn corner_coord(origin: int, width: int, height: int, corner: int) -> int {
    origin + (if corner == 1 || corner == 2 {
        width
    } else {
        0
    }) + (if corner == 2 || corner == 3 {
        height
    } else {
        0
    })
}

/// The position of corner `corner` of the quad.
pub open spec fn quad_corner(
    width: Vector3<i64>,
    height: Vector3<i64>,
    position: Vector3<i64>,
    corner: int,
) -> Vector3<int> {
    let origin = quad_origin(position);
    Vector3 {
        x: corner_coord(origin.x, width.x as int, height.x as int, corner),
        y: corner_coord(origin.y, width.y as int, height.y as int, corner),
        z: corner_coord(origin.z, width.z as int, height.z as int, corner),
    }
}

/// Whether `v` can be held in 64-bit coordinates.
pub open spec fn fits_i64(v: Vector3<int>) -> bool {
    &&& i64::MIN <= v.x <= i64::MAX
    &&& i64::MIN <= v.y <= i64::MAX
    &&& i64::MIN <= v.z <= i64::MAX
}

/// Whether all four corners of the quad can be held in 64-bit coordinates.
pub open spec fn quad_fits(width: Vector3<i64>, height: Vector3<i64>, position: Vector3<i64>) -> bool {
    forall|corner: int|
        0 <= corner < 4 ==> fits_i64(#[trigger] quad_corner(width, height, position, corner))
}

/// The vertex at corner `corner` of the quad.
pub open spec fn quad_vertex(
    width: Vector3<i64>,
    height: Vector3<i64>,
    position: Vector3<i64>,
    normal: Vector3<i64>,
    corner: int,
) -> BlockVertex {
    let c = quad_corner(width, height, position, corner);
    BlockVertex {
        position: Vector3 { x: c.x as i64, y: c.y as i64, z: c.z as i64 },
        color: quad_color(),
        normal,
    }
}

impl Block {
    /// A new, active block.
    pub fn new(id: usize) -> (block: Self)
        ensures
            block == (Block { id, is_active: true }),
    {
        Block { id, is_active: true }
    }

    /// The geometry of one quad: a parallelogram that spans `width` and
    /// `height` from `position` (shifted by [`QUAD_OFFSET`] along x and z),
    /// as four vertices and the six indices of [`quad_fan`].
    pub fn quad(
        width: Vector3<i64>,
        height: Vector3<i64>,
        position: Vector3<i64>,
        normal: Vector3<i64>,
    ) -> (quad: (Vec<BlockVertex>, Vec<u32>))
        requires
            quad_fits(width, height, position),
        ensures
            quad.0@.len() == 4,
            forall|corner: int|
                0 <= corner < 4 ==> quad.0@[corner] == quad_vertex(
                    width,
                    height,
                    position,
                    normal,
                    corner,
                ),
            quad.1@ == quad_fan(),
    {
        let color = Vector3::new(80u8, 0u8, 50u8);
        proof {
            assert(fits_i64(quad_corner(width, height, position, 0)));
            assert(fits_i64(quad_corner(width, height, position, 1)));
            assert(fits_i64(quad_corner(width, height, position, 2)));
            assert(fits_i64(quad_corner(width, height, position, 3)));
        }
        let origin = Vector3::new(position.x - QUAD_OFFSET, position.y, position.z - QUAD_OFFSET);
        let mut vertices: Vec<BlockVertex> = Vec::new();
        vertices.push(BlockVertex::new(origin, color, normal));
        vertices.push(
            BlockVertex::new(
                Vector3::new(origin.x + width.x, origin.y + width.y, origin.z + width.z),
                color,
                normal,
            ),
        );
        vertices.push(
            BlockVertex::new(
                Vector3::new(
                    origin.x + width.x + height.x,
                    origin.y + width.y + height.y,
                    origin.z + width.z + height.z,
                ),
                color,
                normal,
            ),
        );
        vertices.push(
            BlockVertex::new(
                Vector3::new(origin.x + height.x, origin.y + height.y, origin.z + height.z),
                color,
                normal,
            ),
        );
        let mut indices: Vec<u32> = Vec::new();
        indices.push(0);
        indices.push(3);
        indices.push(2);
        indices.push(2);
        indices.push(1);
        indices.push(0);
        assert(indices@ =~= quad_fan());
        (vertices, indices)
    }
}

impl BlockVertex {
    /// A vertex with the given attributes.
    pub fn new(position: Vector3<i64>, color: Vector3<u8>, normal: Vector3<i64>) -> (vertex: Self)
        ensures
            vertex == (BlockVertex { position, color, normal }),
    {
        BlockVertex { position, color, normal }
    }
}

} // verus!
