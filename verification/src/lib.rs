//! Chunked voxel storage, greedy surface meshing and chunk streaming.
//!
//! The world is a sparse grid of chunks, each a cube of block slots. This
//! crate stores the blocks, turns the blocks of a chunk into the quads of
//! its surface, and decides which chunks are in view of an observer and
//! which of them are meshed next. It does no drawing: a mesh is a list of
//! vertices and indices in whole-number coordinates, for whoever draws it to
//! hand to the graphics device.
//!
//! - [`vector`]: three-component vectors.
//! - [`block`]: blocks, their sides, and the geometry of a quad.
//! - [`chunk`]: the slots of a chunk and the operations on them.
//! - [`greedy`]: merging the set cells of a mask into rectangles.
//! - [`mesh`]: the sweep that finds the faces of a chunk and meshes them.
//! - [`observer`]: from the observer's position to the chunk it is in.
//! - [`manager`]: the chunks of the world, the view and the remeshing queue.
//! - [`player`]: the actions that the pressed keys stand for.
//!
//! Every function says in its contract what it returns or changes, and is
//! proved to do so, free of overflow and of panics, on every input that the
//! contract admits. The proof functions state what holds of the operations
//! taken together.

pub mod vector;
pub mod block;
pub mod chunk;
pub mod greedy;
pub mod mesh;
pub mod observer;
pub mod manager;
pub mod player;
