//! Meshing: from the blocks of a chunk to the quads of its surface.
//!
//! The chunk is swept along each axis in turn. Across an axis there are
//! `CHUNK_SIZE + 1` boundary planes: plane `p` lies between the block layers
//! `p - 1` and `p`, so the first and the last plane are the outer sides of the
//! chunk. A face shows wherever exactly one of the two blocks that meet at a
//! plane is active; what lies outside the chunk counts as air. The faces of
//! each plane are merged into rectangles, and each rectangle becomes a quad.

use vstd::prelude::*;
use crate::block::{
    fits_i64, quad_corner, quad_fan, quad_fits, quad_vertex, Block, BlockFace, BlockVertex,
};
use crate::chunk::{
    block_index, in_chunk, lemma_block_index_bijective, Chunk, ChunkMesh, ChunkPosition,
    CHUNK_3D_SIZE, CHUNK_SIZE,
};
use crate::greedy::{
    cell, lemma_merge_of_nothing, lemma_merge_of_rect, lemma_merged_from_len,
    lemma_merged_rects_partition, merge_mask, merged_rects, partitions, Rect, MASK_SIZE,
};
use crate::vector::Vector3;

verus! {

/// Number of boundary planes across one axis.
pub const PLANES: usize = CHUNK_SIZE + 1;

/// The vector with `layer` along axis `axis` (0 is x, 1 is y, anything else
/// is z), `col` along the axis after it and `row` along the axis before it,
/// in the cycle x, y, z, x.
pub open spec fn arranged<T>(axis: int, layer: T, row: T, col: T) -> Vector3<T> {
    if axis == 0 {
        Vector3 { x: layer, y: col, z: row }
    } else if axis == 1 {
        Vector3 { x: row, y: layer, z: col }
    } else {
        Vector3 { x: col, y: row, z: layer }
    }
}

/// One quad of a chunk's surface: a rectangle of faces in a boundary plane.
#[derive(Clone, Copy, Debug, PartialEq, Eq)]
pub struct Face {
    /// The axis that the plane stands across.
    pub axis: usize,
    /// The plane, from 0 to `CHUNK_SIZE`.
    pub plane: usize,
    /// The rectangle in the plane: rows run along the axis before `axis`,
    /// columns along the axis after it.
    pub rect: Rect,
}

impl Face {
    /// Whether the face lies in a chunk: across one of the three axes, in
    /// one of the boundary planes, with a rectangle inside the plane.
    pub open spec fn wf(&self) -> bool {
        &&& self.axis < 3
        &&& self.plane <= CHUNK_SIZE
        &&& self.rect.in_mask()
    }

    /// The side along which the quad is as wide as the rectangle.
    pub open spec fn width(&self) -> Vector3<i64> {
        arranged(self.axis as int, 0i64, 0i64, self.rect.w as i64)
    }

    /// The side along which the quad is as tall as the rectangle.
    pub open spec fn height(&self) -> Vector3<i64> {
        arranged(self.axis as int, 0i64, self.rect.h as i64, 0i64)
    }

    /// The normal: one step along the axis, whichever of the two blocks at
    /// the plane is the active one.
    pub open spec fn normal(&self) -> Vector3<i64> {
        arranged(self.axis as int, 1i64, 0i64, 0i64)
    }

    /// The corner of the rectangle in world space, for a chunk at `position`.
    pub open spec fn origin(&self, position: ChunkPosition) -> Vector3<i64> {
        let local = arranged(
            self.axis as int,
            self.plane as int,
            self.rect.j as int,
            self.rect.i as int,
        );
        Vector3 {
            x: (local.x + position.x * CHUNK_SIZE) as i64,
            y: (local.y + position.y * CHUNK_SIZE) as i64,
            z: (local.z + position.z * CHUNK_SIZE) as i64,
        }
    }

    /// The vertex at corner `corner` of the quad, for a chunk at `position`.
    pub open spec fn vertex(&self, position: ChunkPosition, corner: int) -> BlockVertex {
        quad_vertex(self.width(), self.height(), self.origin(position), self.normal(), corner)
    }
}

impl Chunk {
    /// Whether side `face` of the block at `(x, y, z)` is exposed: the block
    /// is active, and no active block sits next to it on that side. What
    /// lies outside the chunk counts as air.
    pub open spec fn exposed(&self, x: int, y: int, z: int, face: BlockFace) -> bool {
        let next = arranged(face.axis(), face.step(), 0, 0);
        self.active_at(x, y, z) && !self.active_at(x + next.x, y + next.y, z + next.z)
    }

    /// Whether an active block sits in row `row`, column `col` of block layer
    /// `layer` across `axis`.
    pub open spec fn layer_active(&self, axis: int, layer: int, row: int, col: int) -> bool {
        let p = arranged(axis, layer, row, col);
        self.active_at(p.x, p.y, p.z)
    }

    /// Whether a face shows in row `row`, column `col` of boundary plane
    /// `plane` across `axis`: exactly one of the two blocks that meet there is
    /// active.
    pub open spec fn face_shows(&self, axis: int, plane: int, row: int, col: int) -> bool {
        self.layer_active(axis, plane - 1, row, col) != self.layer_active(axis, plane, row, col)
    }

    /// The faces that show in boundary plane `plane` across `axis`, row by row.
    pub open spec fn face_mask(&self, axis: int, plane: int) -> Seq<bool> {
        Seq::new(
            MASK_SIZE as nat,
            |n: int| self.face_shows(axis, plane, n / (CHUNK_SIZE as int), n % (CHUNK_SIZE as int)),
        )
    }

    /// The quads of boundary plane `plane` across `axis`, in merge order.
    pub open spec fn plane_faces(&self, axis: int, plane: int) -> Seq<Face> {
        let rects = merged_rects(self.face_mask(axis, plane));
        Seq::new(
            rects.len(),
            |k: int| Face { axis: axis as usize, plane: plane as usize, rect: rects[k] },
        )
    }

    /// The quads that the sweep has produced when it reaches boundary plane
    /// `plane` across `axis`: those of the axes before `axis`, and of the
    /// planes before `plane` across `axis`.
    pub open spec fn swept_faces(&self, axis: int, plane: int) -> Seq<Face>
        decreases axis, plane,
    {
        if plane > 0 {
            self.swept_faces(axis, plane - 1) + self.plane_faces(axis, plane - 1)
        } else if axis > 0 {
            self.swept_faces(axis - 1, PLANES as int)
        } else {
            Seq::empty()
        }
    }

    /// All quads of the chunk's surface, in sweep order.
    pub open spec fn faces(&self) -> Seq<Face> {
        self.swept_faces(3, 0)
    }

    /// Whether `after` is this chunk with its mesh rebuilt: the same blocks
    /// at the same position, active, with a mesh that draws the chunk's
    /// faces, or with none if no face shows.
    pub open spec fn meshes_to(&self, after: Chunk) -> bool {
        &&& after.id == self.id
        &&& after.position == self.position
        &&& after.blocks == self.blocks
        &&& after.is_active
        &&& match after.mesh {
            Some(mesh) => {
                &&& self.faces().len() > 0
                &&& draws(mesh.vertices@, mesh.indices@, self.faces(), self.position)
                &&& mesh.num_elements == mesh.indices@.len()
            },
            None => self.faces().len() == 0,
        }
    }
}

/// Whether `vertices` and `indices` draw `faces` for a chunk at `position`:
/// four vertices and six indices for each face, in order, the indices of
/// face `k` being the fan on the vertices from `4 * k` on.
pub open spec fn draws(
    vertices: Seq<BlockVertex>,
    indices: Seq<u32>,
    faces: Seq<Face>,
    position: ChunkPosition,
) -> bool {
    &&& vertices.len() == 4 * faces.len()
    &&& indices.len() == 6 * faces.len()
    &&& forall|n: int|
        0 <= n < vertices.len() ==> #[trigger] vertices[n] == faces[n / 4].vertex(position, n % 4)
    &&& forall|n: int|
        0 <= n < indices.len() ==> #[trigger] indices[n] == 4 * (n / 6) + quad_fan()[n % 6]
}

/// The quads of a chunk are found from its own blocks alone: two chunks with
/// the same blocks have the same faces, wherever they stand and whatever
/// else they hold. What a neighbouring chunk holds plays no part, so the
/// outer sides of a chunk show a face wherever a block touches them.
pub proof fn lemma_faces_from_own_blocks(a: &Chunk, b: &Chunk)
    requires
        a.blocks@ == b.blocks@,
    ensures
        a.faces() == b.faces(),
{
    lemma_swept_faces_from_own_blocks(a, b, 3, 0);
}

/// At every point of the sweep, two chunks with the same blocks have
/// produced the same quads.
proof fn lemma_swept_faces_from_own_blocks(a: &Chunk, b: &Chunk, axis: int, plane: int)
    requires
        a.blocks@ == b.blocks@,
    ensures
        a.swept_faces(axis, plane) == b.swept_faces(axis, plane),
    decreases axis, plane,
{
    if plane > 0 {
        lemma_swept_faces_from_own_blocks(a, b, axis, plane - 1);
        assert(a.face_mask(axis, plane - 1) =~= b.face_mask(axis, plane - 1));
        assert(a.plane_faces(axis, plane - 1) =~= b.plane_faces(axis, plane - 1));
    } else if axis > 0 {
        lemma_swept_faces_from_own_blocks(a, b, axis - 1, PLANES as int);
    }
}

/// The component of `v` along `axis`.
pub open spec fn along(v: Vector3<int>, axis: int) -> int {
    if axis == 0 {
        v.x
    } else if axis == 1 {
        v.y
    } else {
        v.z
    }
}

/// The rectangle that a box from `lo` up to, but not including, `hi` shows
/// across `axis`: its columns run along the axis after `axis`, its rows
/// along the axis before it.
pub open spec fn box_side(lo: Vector3<int>, hi: Vector3<int>, axis: int) -> Rect {
    let cols = (axis + 1) % 3;
    let rows = (axis + 2) % 3;
    Rect {
        i: along(lo, cols) as usize,
        j: along(lo, rows) as usize,
        w: (along(hi, cols) - along(lo, cols)) as usize,
        h: (along(hi, rows) - along(lo, rows)) as usize,
    }
}

/// The two quads that a box shows across `axis`: its side at the low end,
/// then its side at the high end.
pub open spec fn box_sides(lo: Vector3<int>, hi: Vector3<int>, axis: int) -> Seq<Face> {
    seq![
        Face {
            axis: axis as usize,
            plane: along(lo, axis) as usize,
            rect: box_side(lo, hi, axis),
        },
        Face {
            axis: axis as usize,
            plane: along(hi, axis) as usize,
            rect: box_side(lo, hi, axis),
        },
    ]
}

impl Chunk {
    /// Whether the active blocks of the chunk fill the box from `lo` up to,
    /// but not including, `hi`, and no active block lies outside it.
    pub open spec fn is_box(&self, lo: Vector3<int>, hi: Vector3<int>) -> bool {
        &&& 0 <= lo.x < hi.x <= CHUNK_SIZE
        &&& 0 <= lo.y < hi.y <= CHUNK_SIZE
        &&& 0 <= lo.z < hi.z <= CHUNK_SIZE
        &&& forall|x: int, y: int, z: int| #[trigger]
            self.active_at(x, y, z) <==> lo.x <= x < hi.x && lo.y <= y < hi.y && lo.z <= z < hi.z
    }
}

/// A solid box of blocks is meshed into six quads, two across each axis,
/// each as large as the side of the box. So a single block yields six unit
/// quads, and a full chunk yields six quads that span the whole chunk.
pub proof fn lemma_box_faces(chunk: &Chunk, lo: Vector3<int>, hi: Vector3<int>)
    requires
        chunk.is_box(lo, hi),
    ensures
        chunk.faces() == box_sides(lo, hi, 0) + box_sides(lo, hi, 1) + box_sides(lo, hi, 2),
        chunk.faces().len() == 6,
{
    lemma_box_swept(chunk, lo, hi, 0, PLANES as int);
    lemma_box_swept(chunk, lo, hi, 1, PLANES as int);
    lemma_box_swept(chunk, lo, hi, 2, PLANES as int);
    let none = Seq::<Face>::empty();
    assert(chunk.swept_faces(0, 0) == none);
    assert(chunk.swept_faces(1, 0) == chunk.swept_faces(0, PLANES as int));
    assert(chunk.swept_faces(2, 0) == chunk.swept_faces(1, PLANES as int));
    assert(chunk.faces() == chunk.swept_faces(2, PLANES as int));
    assert(none + box_sides(lo, hi, 0) =~= box_sides(lo, hi, 0));
}

/// A chunk with one active block, at `(x, y, z)`, is meshed into the six
/// unit quads around that block: 24 vertices and 36 indices.
pub proof fn lemma_single_block_mesh(before: &Chunk, after: &Chunk, x: int, y: int, z: int)
    requires
        in_chunk(x, y, z),
        forall|bx: int, by: int, bz: int| #[trigger]
            before.active_at(bx, by, bz) <==> bx == x && by == y && bz == z,
        before.meshes_to(*after),
    ensures
        before.faces() == box_sides(
            Vector3 { x, y, z },
            Vector3 { x: x + 1, y: y + 1, z: z + 1 },
            0,
        ) + box_sides(Vector3 { x, y, z }, Vector3 { x: x + 1, y: y + 1, z: z + 1 }, 1) + box_sides(
            Vector3 { x, y, z },
            Vector3 { x: x + 1, y: y + 1, z: z + 1 },
            2,
        ),
        forall|k: int|
            0 <= k < 6 ==> (#[trigger] before.faces()[k]).rect.w == 1 && before.faces()[k].rect.h
                == 1,
        (after.mesh matches Some(mesh) && mesh.vertices@.len() == 24 && mesh.indices@.len() == 36
            && mesh.num_elements == 36),
{
    let lo = Vector3 { x, y, z };
    let hi = Vector3 { x: x + 1, y: y + 1, z: z + 1 };
    assert(before.is_box(lo, hi));
    lemma_box_faces(before, lo, hi);
}

/// A chunk full of active blocks is meshed into six quads that each span a
/// whole side of the chunk: 24 vertices and 36 indices.
pub proof fn lemma_full_chunk_mesh(before: &Chunk, after: &Chunk)
    requires
        forall|i: int|
            0 <= i < CHUNK_3D_SIZE ==> ((#[trigger] before.blocks@[i]) matches Some(block)
                && block.is_active),
        before.meshes_to(*after),
    ensures
        before.faces() == box_sides(
            Vector3 { x: 0, y: 0, z: 0 },
            Vector3 { x: 16, y: 16, z: 16 },
            0,
        ) + box_sides(Vector3 { x: 0, y: 0, z: 0 }, Vector3 { x: 16, y: 16, z: 16 }, 1) + box_sides(
            Vector3 { x: 0, y: 0, z: 0 },
            Vector3 { x: 16, y: 16, z: 16 },
            2,
        ),
        forall|k: int|
            0 <= k < 6 ==> (#[trigger] before.faces()[k]).rect == (Rect {
                i: 0,
                j: 0,
                w: CHUNK_SIZE,
                h: CHUNK_SIZE,
            }),
        (after.mesh matches Some(mesh) && mesh.vertices@.len() == 24 && mesh.indices@.len() == 36
            && mesh.num_elements == 36),
{
    let lo = Vector3 { x: 0int, y: 0int, z: 0int };
    let hi = Vector3 { x: 16int, y: 16int, z: 16int };
    assert forall|x: int, y: int, z: int| #[trigger]
        before.active_at(x, y, z) <==> 0 <= x < 16 && 0 <= y < 16 && 0 <= z < 16 by {
        if in_chunk(x, y, z) {
            lemma_block_index_bijective(x, y, z);
            assert(before.blocks@[block_index(x, y, z)] is Some);
        }
    }
    assert(before.is_box(lo, hi));
    lemma_box_faces(before, lo, hi);
}

/// The quads of a plane of a box: one where the box begins and one where it
/// ends, none elsewhere.
proof fn lemma_box_plane(chunk: &Chunk, lo: Vector3<int>, hi: Vector3<int>, axis: int, plane: int)
    requires
        chunk.is_box(lo, hi),
        0 <= axis < 3,
        0 <= plane <= CHUNK_SIZE,
    ensures
        chunk.plane_faces(axis, plane) == if plane == along(lo, axis) || plane == along(hi, axis) {
            seq![
                Face { axis: axis as usize, plane: plane as usize, rect: box_side(lo, hi, axis) },
            ]
        } else {
            Seq::<Face>::empty()
        },
{
    let mask = chunk.face_mask(axis, plane);
    let side = box_side(lo, hi, axis);
    let shows = plane == along(lo, axis) || plane == along(hi, axis);
    assert forall|r: int, c: int| #[trigger] cell(mask, r, c) <==> shows && side.covers(r, c) by {
        lemma_face_mask(chunk, axis, plane, r, c);
        let below = arranged(axis, plane - 1, r, c);
        let above = arranged(axis, plane, r, c);
        assert(chunk.layer_active(axis, plane - 1, r, c) == chunk.active_at(
            below.x,
            below.y,
            below.z,
        ));
        assert(chunk.layer_active(axis, plane, r, c) == chunk.active_at(above.x, above.y, above.z));
    }
    if shows {
        lemma_merge_of_rect(mask, side);
        assert(chunk.plane_faces(axis, plane) =~= seq![
            Face { axis: axis as usize, plane: plane as usize, rect: side },
        ]);
    } else {
        lemma_merge_of_nothing(mask, 0, 0);
        assert(chunk.plane_faces(axis, plane) =~= Seq::<Face>::empty());
    }
}

/// What the sweep of a box has produced across `axis` when it reaches
/// `plane`: the side at the low end once it is past it, and the side at the
/// high end once it is past that.
proof fn lemma_box_swept(chunk: &Chunk, lo: Vector3<int>, hi: Vector3<int>, axis: int, plane: int)
    requires
        chunk.is_box(lo, hi),
        0 <= axis < 3,
        0 <= plane <= PLANES,
    ensures
        chunk.swept_faces(axis, plane) == chunk.swept_faces(axis, 0) + box_sides(
            lo,
            hi,
            axis,
        ).subrange(
            0,
            if plane > along(hi, axis) {
                2
            } else if plane > along(lo, axis) {
                1
            } else {
                0
            },
        ),
    decreases plane,
{
    let start = chunk.swept_faces(axis, 0);
    let sides = box_sides(lo, hi, axis);
    if plane > 0 {
        lemma_box_swept(chunk, lo, hi, axis, plane - 1);
        lemma_box_plane(chunk, lo, hi, axis, plane - 1);
        let before = if plane - 1 > along(hi, axis) {
            2int
        } else if plane - 1 > along(lo, axis) {
            1int
        } else {
            0int
        };
        let after = if plane > along(hi, axis) {
            2int
        } else if plane > along(lo, axis) {
            1int
        } else {
            0int
        };
        assert(chunk.swept_faces(axis, plane) == chunk.swept_faces(axis, plane - 1)
            + chunk.plane_faces(axis, plane - 1));
        assert(start + sides.subrange(0, before) + chunk.plane_faces(axis, plane - 1) =~= start
            + sides.subrange(0, after));
    } else {
        assert(start + sides.subrange(0, 0) =~= start);
    }
}

/// A face shows in a boundary plane exactly where a side of a block is
/// exposed: the upper side of the block below the plane, or the lower side
/// of the block above it.
pub proof fn lemma_face_shows_exposed_side(chunk: &Chunk, axis: int, plane: int, row: int, col: int)
    requires
        0 <= axis < 3,
    ensures
        chunk.face_shows(axis, plane, row, col) <==> {
            let below = arranged(axis, plane - 1, row, col);
            let above = arranged(axis, plane, row, col);
            ||| chunk.exposed(below.x, below.y, below.z, BlockFace::up(axis))
            ||| chunk.exposed(above.x, above.y, above.z, BlockFace::down(axis))
        },
{
}

/// The cells of a face mask say where faces show: a cell is set exactly if
/// a face shows there.
pub proof fn lemma_face_mask(chunk: &Chunk, axis: int, plane: int, row: int, col: int)
    ensures
        chunk.face_mask(axis, plane).len() == MASK_SIZE,
        cell(chunk.face_mask(axis, plane), row, col) <==> 0 <= row < CHUNK_SIZE && 0 <= col
            < CHUNK_SIZE && chunk.face_shows(axis, plane, row, col),
{
    if 0 <= row < CHUNK_SIZE && 0 <= col < CHUNK_SIZE {
        let n = row * CHUNK_SIZE + col;
        assert(n / 16 == row && n % 16 == col);
    }
}

/// The quads of a boundary plane cover the faces that show in it, each face
/// once, and nothing else.
pub proof fn lemma_plane_faces_cover(chunk: &Chunk, axis: int, plane: int)
    ensures
        partitions(
            merged_rects(chunk.face_mask(axis, plane)),
            chunk.face_mask(axis, plane),
        ),
        forall|k: int|
            0 <= k < chunk.plane_faces(axis, plane).len() ==> (#[trigger] chunk.plane_faces(
                axis,
                plane,
            )[k]).rect == merged_rects(chunk.face_mask(axis, plane))[k],
{
    lemma_face_mask(chunk, axis, plane, 0, 0);
    lemma_merged_rects_partition(chunk.face_mask(axis, plane));
}

/// A sweep that has reached plane `plane` across `axis` has produced at most
/// one quad for each cell of the planes behind it.
pub proof fn lemma_swept_faces_len(chunk: &Chunk, axis: int, plane: int)
    requires
        0 <= axis,
        0 <= plane <= PLANES,
    ensures
        chunk.swept_faces(axis, plane).len() <= (axis * PLANES + plane) * MASK_SIZE,
    decreases axis, plane,
{
    if plane > 0 {
        lemma_swept_faces_len(chunk, axis, plane - 1);
        lemma_merged_from_len(chunk.face_mask(axis, plane - 1), 0, 0);
    } else if axis > 0 {
        lemma_swept_faces_len(chunk, axis - 1, PLANES as int);
    }
}

/// Builds the vector with `layer` along `axis`, `col` along the axis after
/// it and `row` along the axis before it.
fn arrange<T: Copy>(axis: usize, layer: T, row: T, col: T) -> (v: Vector3<T>)
    ensures
        v == arranged(axis as int, layer, row, col),
{
    if axis == 0 {
        Vector3::new(layer, col, row)
    } else if axis == 1 {
        Vector3::new(row, layer, col)
    } else {
        Vector3::new(col, row, layer)
    }
}

impl Chunk {
    /// Finds the faces that show in boundary plane `plane` across `axis`.
    pub fn build_mask(&self, axis: usize, plane: usize) -> (mask: [bool; MASK_SIZE])
        ensures
            mask@ == self.face_mask(axis as int, plane as int),
    {
        let mut mask: [bool; MASK_SIZE] = [false;MASK_SIZE];
        for row in 0..CHUNK_SIZE
            invariant
                forall|n: int|
                    0 <= n < row * CHUNK_SIZE ==> mask@[n] == self.face_shows(
                        axis as int,
                        plane as int,
                        n / 16,
                        n % 16,
                    ),
        {
            for col in 0..CHUNK_SIZE
                invariant
                    row < CHUNK_SIZE,
                    forall|n: int|
                        0 <= n < row * CHUNK_SIZE + col ==> mask@[n] == self.face_shows(
                            axis as int,
                            plane as int,
                            n / 16,
                            n % 16,
                        ),
            {
                let block_current = if 1 <= plane {
                    self.block_active(arrange(axis, plane - 1, row, col))
                } else {
                    false
                };
                let block_compare = if plane < CHUNK_SIZE {
                    self.block_active(arrange(axis, plane, row, col))
                } else {
                    false
                };
                mask[row * CHUNK_SIZE + col] = block_current != block_compare;
            }
        }
        assert(mask@ =~= self.face_mask(axis as int, plane as int));
        mask
    }

    /// Rebuilds the cached mesh from the blocks: sweeps the chunk along each
    /// axis, merges the faces of every boundary plane into rectangles and
    /// draws one quad for each. The chunk counts as active afterwards, and
    /// keeps a mesh only if at least one face shows.
    pub fn greedy_mesh(&mut self)
        ensures
            old(self).meshes_to(*final(self)),
    {
        let mut vertices: Vec<BlockVertex> = Vec::new();
        let mut indices: Vec<u32> = Vec::new();
        let position = self.position;

        let mut offset: u32 = 0;
        for axis in 0..3usize
            invariant
                *self == *old(self),
                position == self.position,
                offset == 4 * self.swept_faces(axis as int, 0).len(),
                draws(vertices@, indices@, self.swept_faces(axis as int, 0), position),
        {
            for plane in 0..PLANES
                invariant
                    *self == *old(self),
                    position == self.position,
                    axis < 3,
                    offset == 4 * self.swept_faces(axis as int, plane as int).len(),
                    draws(vertices@, indices@, self.swept_faces(axis as int, plane as int), position),
            {
                let mask = self.build_mask(axis, plane);
                let rects = merge_mask(mask);
                let ghost before = self.swept_faces(axis as int, plane as int);
                let ghost found = self.plane_faces(axis as int, plane as int);
                proof {
                    lemma_swept_faces_len(self, axis as int, plane as int);
                    lemma_merged_from_len(mask@, 0, 0);
                    lemma_merged_rects_partition(mask@);
                    assert(before + found.subrange(0, 0) =~= before);
                }
                for k in 0..rects.len()
                    invariant
                        axis < 3,
                        plane < PLANES,
                        partitions(rects@, mask@),
                        found.len() == rects@.len(),
                        forall|m: int|
                            0 <= m < found.len() ==> #[trigger] found[m] == (Face {
                                axis,
                                plane,
                                rect: rects@[m],
                            }),
                        rects@.len() <= 256,
                        before.len() <= (axis * 17 + plane) * 256,
                        offset == 4 * (before.len() + k),
                        draws(vertices@, indices@, before + found.subrange(0, k as int), position),
                {
                    let face = Face { axis, plane, rect: rects[k] };
                    assert(face.rect.in_mask());
                    let ghost drawn = before + found.subrange(0, k as int);
                    assert(drawn.push(face) =~= before + found.subrange(0, k + 1));
                    let quad = face.quad(position);
                    push_quad(&mut vertices, &mut indices, offset, quad, Ghost(drawn), Ghost(face), Ghost(position));
                    offset += 4;
                }
                proof {
                    assert(found.subrange(0, rects@.len() as int) =~= found);
                }
            }
        }
        proof {
            lemma_swept_faces_len(self, 3, 0);
        }
        assert(draws(vertices@, indices@, old(self).faces(), old(self).position));
        self.is_active = true;

        if !vertices.is_empty() && !indices.is_empty() {
            let num_elements = indices.len() as u32;
            self.mesh = Some(ChunkMesh { vertices, indices, num_elements });
        } else {
            self.mesh = None;
        }
    }
}

impl Chunk {
    /// Whether side `face` of the block at `position` is exposed.
    pub fn face_exposed(&self, position: Vector3<usize>, face: BlockFace) -> (exposed: bool)
        ensures
            exposed == self.exposed(
                position.x as int,
                position.y as int,
                position.z as int,
                face,
            ),
    {
        if !self.block_active(position) {
            return false;
        }
        let x = position.x;
        let y = position.y;
        let z = position.z;
        match face {
            BlockFace::North => !self.block_active(Vector3::new(x + 1, y, z)),
            BlockFace::South => x == 0 || !self.block_active(Vector3::new(x - 1, y, z)),
            BlockFace::Top => !self.block_active(Vector3::new(x, y + 1, z)),
            BlockFace::Bottom => y == 0 || !self.block_active(Vector3::new(x, y - 1, z)),
            BlockFace::East => !self.block_active(Vector3::new(x, y, z + 1)),
            BlockFace::West => z == 0 || !self.block_active(Vector3::new(x, y, z - 1)),
        }
    }
}

impl Face {
    /// The geometry of the quad, for a chunk at `position`.
    pub fn quad(&self, position: ChunkPosition) -> (quad: (Vec<BlockVertex>, Vec<u32>))
        requires
            self.wf(),
        ensures
            quad.0@.len() == 4,
            forall|corner: int| 0 <= corner < 4 ==> quad.0@[corner] == self.vertex(position, corner),
            quad.1@ == quad_fan(),
    {
        let local = arrange(self.axis, self.plane as i64, self.rect.j as i64, self.rect.i as i64);
        let origin = Vector3::new(
            local.x + position.x as i64 * CHUNK_SIZE as i64,
            local.y + position.y as i64 * CHUNK_SIZE as i64,
            local.z + position.z as i64 * CHUNK_SIZE as i64,
        );
        let width = arrange(self.axis, 0i64, 0i64, self.rect.w as i64);
        let height = arrange(self.axis, 0i64, self.rect.h as i64, 0i64);
        let normal = arrange(self.axis, 1i64, 0i64, 0i64);
        assert(origin == self.origin(position));
        assert(quad_fits(width, height, origin)) by {
            assert forall|corner: int| 0 <= corner < 4 implies fits_i64(
                #[trigger] quad_corner(width, height, origin, corner),
            ) by {}
        }
        Block::quad(width, height, origin, normal)
    }
}

/// Appends the quad of one more face to a mesh: its vertices as they are,
/// its indices moved up by `offset`, the number of vertices already there.
fn push_quad(
    vertices: &mut Vec<BlockVertex>,
    indices: &mut Vec<u32>,
    offset: u32,
    quad: (Vec<BlockVertex>, Vec<u32>),
    Ghost(drawn): Ghost<Seq<Face>>,
    Ghost(face): Ghost<Face>,
    Ghost(position): Ghost<ChunkPosition>,
)
    requires
        draws(old(vertices)@, old(indices)@, drawn, position),
        offset == 4 * drawn.len(),
        drawn.len() < 13056,
        quad.0@.len() == 4,
        forall|corner: int| 0 <= corner < 4 ==> quad.0@[corner] == face.vertex(position, corner),
        quad.1@ == quad_fan(),
    ensures
        draws(final(vertices)@, final(indices)@, drawn.push(face), position),
{
    let mut quad = quad;
    let ghost corners = quad.0@;
    let ghost next = drawn.push(face);
    vertices.append(&mut quad.0);
    for c in 0..6usize
        invariant
            quad.1@ == quad_fan(),
            offset == 4 * drawn.len(),
            drawn.len() < 13056,
            indices@.len() == old(indices)@.len() + c,
            forall|n: int| 0 <= n < old(indices)@.len() ==> indices@[n] == old(indices)@[n],
            forall|n: int|
                0 <= n < c ==> #[trigger] indices@[old(indices)@.len() + n] == offset + quad_fan()[n],
    {
        indices.push(quad.1[c] + offset);
    }
    proof {
        assert forall|n: int| 0 <= n < vertices@.len() implies #[trigger] vertices@[n] == next[n
            / 4].vertex(position, n % 4) by {
            if n < old(vertices)@.len() {
                assert(vertices@[n] == old(vertices)@[n]);
                assert(next[n / 4] == drawn[n / 4]);
            } else {
                assert(n / 4 == drawn.len());
                assert(vertices@[n] == corners[n - old(vertices)@.len()]);
            }
        }
        assert forall|n: int| 0 <= n < indices@.len() implies #[trigger] indices@[n] == 4 * (n / 6)
            + quad_fan()[n % 6] by {
            if n < old(indices)@.len() {
                assert(indices@[n] == old(indices)@[n]);
            } else {
                assert(n / 6 == drawn.len());
                assert(indices@[old(indices)@.len() + (n - old(indices)@.len())] == offset
                    + quad_fan()[n - old(indices)@.len()]);
            }
        }
    }
}

} // verus!
