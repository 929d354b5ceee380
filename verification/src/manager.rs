//! The chunk manager: which chunks exist, which are in view, and which wait
//! to be meshed.

use vstd::prelude::*;
use vstd::arithmetic::div_mod::{lemma_fundamental_div_mod, lemma_fundamental_div_mod_converse};
use vstd::seq_lib::seq_to_set_is_finite;
use vstd::set_lib::{
    lemma_len_subset, lemma_set_difference_len, lemma_set_empty_equivalency_len,
    lemma_set_subset_finite,
};
use vstd::std_specs::iter::IteratorSpec;
use std::collections::hash_map::Entry;
use std::collections::{HashMap, HashSet};
use crate::block::Block;
use crate::chunk::{Chunk, ChunkPosition};
use crate::observer::{observed_chunk, observer_chunk};
use crate::vector::Vector3;

verus! {

broadcast use vstd::std_specs::hash::group_hash_axioms;

/// How many waiting positions one pass of remeshing takes at most.
pub const MAX_REBUILD_FRAME: usize = 2;

/// The key under which a chunk position is stored: its three coordinates,
/// each moved into the unsigned 32-bit range, side by side.
pub open spec fn position_key(position: ChunkPosition) -> u128 {
    (((position.x + 0x8000_0000) * 0x1_0000_0000 + (position.y + 0x8000_0000)) * 0x1_0000_0000 + (
    position.z + 0x8000_0000)) as u128
}

/// The chunk position that a key stands for.
pub open spec fn key_position(key: u128) -> ChunkPosition {
    let upper = key / 0x1_0000_0000;
    Vector3 {
        x: (upper / 0x1_0000_0000 - 0x8000_0000) as i32,
        y: (upper % 0x1_0000_0000 - 0x8000_0000) as i32,
        z: (key % 0x1_0000_0000 - 0x8000_0000) as i32,
    }
}

/// Whether a key stands for a chunk position.
pub open spec fn is_key(key: u128) -> bool {
    key < 0x1_0000_0000_0000_0000_0000_0000
}

/// Every chunk position has a key, and the key stands for that position
/// alone.
pub proof fn lemma_position_key(position: ChunkPosition)
    ensures
        is_key(position_key(position)),
        key_position(position_key(position)) == position,
{
    let a = position.x + 0x8000_0000;
    let b = position.y + 0x8000_0000;
    let c = position.z + 0x8000_0000;
    let upper = a * 0x1_0000_0000 + b;
    let key = upper * 0x1_0000_0000 + c;
    assert(0 <= upper < 0x1_0000_0000_0000_0000);
    assert(0 <= key < 0x1_0000_0000_0000_0000_0000_0000);
    lemma_fundamental_div_mod_converse(key, 0x1_0000_0000, upper, c);
    lemma_fundamental_div_mod_converse(upper, 0x1_0000_0000, a, b);
}

/// No two chunk positions share a key.
pub proof fn lemma_key_of_one_position(position: ChunkPosition)
    ensures
        forall|p: ChunkPosition|
            #![trigger position_key(p)]
            position_key(p) == position_key(position) ==> p == position,
{
    lemma_position_key(position);
    assert forall|p: ChunkPosition|
        #![trigger position_key(p)]
        position_key(p) == position_key(position) implies p == position by {
        lemma_position_key(p);
    }
}

/// Every key is the key of the position that it stands for.
pub proof fn lemma_key_position(key: u128)
    requires
        is_key(key),
    ensures
        position_key(key_position(key)) == key,
{
    let upper = key as int / 0x1_0000_0000;
    let c = key as int % 0x1_0000_0000;
    let a = upper / 0x1_0000_0000;
    let b = upper % 0x1_0000_0000;
    lemma_fundamental_div_mod(key as int, 0x1_0000_0000);
    lemma_fundamental_div_mod(upper, 0x1_0000_0000);
    assert(0 <= c < 0x1_0000_0000);
    assert(0 <= b < 0x1_0000_0000);
    assert(0 <= upper < 0x1_0000_0000_0000_0000);
    assert(0 <= a < 0x1_0000_0000);
    assert(upper == 0x1_0000_0000 * a + b);
    assert(key == 0x1_0000_0000 * upper + c);
}

/// The key of `position`.
fn key_of(position: ChunkPosition) -> (key: u128)
    ensures
        key == position_key(position),
{
    let x = (position.x as i64 + 0x8000_0000) as u128;
    let y = (position.y as i64 + 0x8000_0000) as u128;
    let z = (position.z as i64 + 0x8000_0000) as u128;
    (x * 0x1_0000_0000 + y) * 0x1_0000_0000 + z
}

/// The position that `key` stands for.
fn position_of(key: u128) -> (position: ChunkPosition)
    requires
        is_key(key),
    ensures
        position == key_position(key),
{
    let upper = key / 0x1_0000_0000;
    let x = (upper / 0x1_0000_0000) as i64 - 0x8000_0000;
    let y = (upper % 0x1_0000_0000) as i64 - 0x8000_0000;
    let z = (key % 0x1_0000_0000) as i64 - 0x8000_0000;
    Vector3::new(x as i32, y as i32, z as i32)
}

/// The members of `set`, each once, in the order in which the set hands them
/// out.
fn members(set: &HashSet<u128>) -> (keys: Vec<u128>)
    ensures
        keys@.no_duplicates(),
        keys@.to_set() == set@,
        keys@.len() == set@.len(),
{
    let mut keys: Vec<u128> = Vec::new();
    for key in it: set.iter()
        invariant
            keys@.len() == it.index(),
            forall|i: int| 0 <= i < keys@.len() ==> keys@[i] == *it.seq()[i],
    {
        keys.push(*key);
    }
    assert(keys@ =~= set.iter().remaining().unref());
    keys
}

/// Whether the chunk position `p` is in view from chunk `center` at render
/// distance `dist`: within `dist` chunks of `center` along each axis, and
/// never below the ground level 0.
pub open spec fn in_view(center: ChunkPosition, dist: int, p: ChunkPosition) -> bool {
    &&& center.x - dist <= p.x <= center.x + dist
    &&& center.y - dist <= p.y <= center.y + dist
    &&& 0 <= p.y
    &&& center.z - dist <= p.z <= center.z + dist
}

/// Whether `p` comes before `(x, y, z)` in the order in which the view is
/// scanned: x first, then y, then z.
spec fn scanned(p: ChunkPosition, x: int, y: int, z: int) -> bool {
    p.x < x || (p.x == x && (p.y < y || (p.y == y && p.z < z)))
}

/// Half of `width`, rounded towards zero.
pub open spec fn half_width(width: int) -> int {
    if width >= 0 {
        width / 2
    } else {
        -((-width) / 2)
    }
}

/// Whether `p` lies on the ground level, in the square that reaches
/// `half_width(width)` chunks from the origin along x and z.
pub open spec fn in_square(width: int, p: ChunkPosition) -> bool {
    &&& p.y == 0
    &&& -half_width(width) <= p.x <= half_width(width)
    &&& -half_width(width) <= p.z <= half_width(width)
}

/// What a chunk manager holds.
pub struct ChunkManagerView {
    /// The chunks, by the position they are registered under.
    pub chunks: Map<ChunkPosition, Chunk>,
    /// The positions whose chunks wait to be meshed.
    pub rebuild: Set<ChunkPosition>,
    /// The positions in view.
    pub render: Set<ChunkPosition>,
    /// How far the view reaches, in chunks.
    pub render_dist: u16,
    /// The chunk that the observer was in at the last update.
    pub old_chunk_pos: Option<ChunkPosition>,
}

/// Owns the chunks of the world, and keeps track of the ones in view and of
/// the ones that wait to be meshed.
pub struct ChunkManager {
    chunks: HashMap<u128, Chunk>,
    rebuild: HashSet<u128>,
    render: HashSet<u128>,
    render_dist: u16,
    old_chunk_pos: Option<ChunkPosition>,
}

impl View for ChunkManager {
    type V = ChunkManagerView;

    closed spec fn view(&self) -> ChunkManagerView {
        ChunkManagerView {
            chunks: Map::new(
                |p: ChunkPosition| self.chunks@.contains_key(position_key(p)),
                |p: ChunkPosition| self.chunks@[position_key(p)],
            ),
            rebuild: Set::new(|p: ChunkPosition| self.rebuild@.contains(position_key(p))),
            render: Set::new(|p: ChunkPosition| self.render@.contains(position_key(p))),
            render_dist: self.render_dist,
            old_chunk_pos: self.old_chunk_pos,
        }
    }
}

impl ChunkManagerView {
    /// A manager without chunks that has not seen the observer yet.
    pub open spec fn empty() -> ChunkManagerView {
        ChunkManagerView {
            chunks: Map::empty(),
            rebuild: Set::empty(),
            render: Set::empty(),
            render_dist: 2,
            old_chunk_pos: None,
        }
    }

    /// Registers `chunk` under its position, unless a chunk is registered
    /// there already.
    pub open spec fn add(self, chunk: Chunk) -> ChunkManagerView {
        if self.chunks.contains_key(chunk.position) {
            self
        } else {
            ChunkManagerView { chunks: self.chunks.insert(chunk.position, chunk), ..self }
        }
    }

    /// Whether one pass of remeshing can lead from this state to `after`,
    /// with the chunks at `rebuilt` remeshed. A pass takes waiting positions
    /// out of the queue, in no particular order: [`MAX_REBUILD_FRAME`] of
    /// them, or all if fewer wait. The chunks at the positions it takes are
    /// remeshed; a position without a chunk just stops waiting.
    pub open spec fn rebuilds_to(self, after: ChunkManagerView, rebuilt: Seq<ChunkPosition>) -> bool {
        let taken = self.rebuild.difference(after.rebuild);
        &&& after.chunks.dom() == self.chunks.dom()
        &&& after.render == self.render
        &&& after.render_dist == self.render_dist
        &&& after.old_chunk_pos == self.old_chunk_pos
        &&& after.rebuild.subset_of(self.rebuild)
        &&& taken.finite()
        &&& taken.len() <= MAX_REBUILD_FRAME
        &&& after.rebuild.is_empty() || taken.len() == MAX_REBUILD_FRAME
        &&& rebuilt.no_duplicates()
        &&& forall|p: ChunkPosition|
            rebuilt.contains(p) <==> taken.contains(p) && self.chunks.contains_key(p)
        &&& forall|p: ChunkPosition| #[trigger]
            self.chunks.contains_key(p) ==> if rebuilt.contains(p) {
                self.chunks[p].meshes_to(after.chunks[p])
            } else {
                after.chunks[p] == self.chunks[p]
            }
    }

    /// The state after the observer has been found in chunk `center`. If
    /// that is where the observer was last, nothing changes. If not, the
    /// chunks in view of `center` become the ones to render, and those of
    /// them that have no mesh wait to be meshed, besides the ones that wait
    /// already.
    pub open spec fn moved_to(self, center: ChunkPosition) -> ChunkManagerView {
        if self.old_chunk_pos == Some(center) {
            self
        } else {
            ChunkManagerView {
                rebuild: self.rebuild.union(
                    Set::new(
                        |p: ChunkPosition|
                            in_view(center, self.render_dist as int, p) && self.chunks.contains_key(
                                p,
                            ) && self.chunks[p].mesh is None,
                    ),
                ),
                render: Set::new(
                    |p: ChunkPosition|
                        in_view(center, self.render_dist as int, p) && self.chunks.contains_key(p),
                ),
                old_chunk_pos: Some(center),
                ..self
            }
        }
    }

    /// Registers `chunks` one after the other.
    pub open spec fn add_all(self, chunks: Seq<Chunk>) -> ChunkManagerView
        decreases chunks.len(),
    {
        if chunks.len() == 0 {
            self
        } else {
            self.add_all(chunks.drop_last()).add(chunks.last())
        }
    }
}

impl ChunkManager {
    /// Whether the manager is well formed: every key that it stores stands
    /// for a chunk position. Holds of every manager that this module hands
    /// out, and is kept by all its operations.
    pub closed spec fn wf(&self) -> bool {
        &&& forall|key: u128| self.chunks@.contains_key(key) ==> is_key(key)
        &&& forall|key: u128| self.rebuild@.contains(key) ==> is_key(key)
        &&& forall|key: u128| self.render@.contains(key) ==> is_key(key)
    }

    /// A manager holds finitely many chunks, and finitely many positions
    /// wait or are in view.
    pub proof fn lemma_finite(&self)
        ensures
            self@.chunks.dom().finite(),
            self@.rebuild.finite(),
            self@.render.finite(),
    {
        seq_to_set_is_finite(self.rebuild.iter().remaining().unref());
        seq_to_set_is_finite(self.render.iter().remaining().unref());
        lemma_keyed_positions_finite(self.chunks@.dom(), self@.chunks.dom());
        lemma_keyed_positions_finite(self.rebuild@, self@.rebuild);
        lemma_keyed_positions_finite(self.render@, self@.render);
    }

    /// Whether `after` is this manager with at most the chunk at `position`
    /// changed.
    spec fn differs_at(&self, after: ChunkManager, position: ChunkPosition) -> bool {
        &&& after.chunks@ == self.chunks@ || after.chunks@ == self.chunks@.insert(
            position_key(position),
            after.chunks@[position_key(position)],
        )
        &&& after.rebuild == self.rebuild
        &&& after.render == self.render
        &&& after.render_dist == self.render_dist
        &&& after.old_chunk_pos == self.old_chunk_pos
    }

    /// A manager that differs from a well-formed one at one chunk at most is
    /// well formed, and holds what the other holds but for that chunk.
    proof fn lemma_differs_at(&self, after: ChunkManager, position: ChunkPosition)
        requires
            self.wf(),
            self.differs_at(after, position),
            !self.chunks@.contains_key(position_key(position)) ==> after.chunks@ == self.chunks@,
        ensures
            after.wf(),
            self.chunks@.contains_key(position_key(position)) ==> after@ == (ChunkManagerView {
                chunks: self@.chunks.insert(position, after.chunks@[position_key(position)]),
                ..self@
            }),
            !self.chunks@.contains_key(position_key(position)) ==> after@ == self@,
    {
        let key = position_key(position);
        lemma_key_of_one_position(position);
        if self.chunks@.contains_key(key) {
            assert(after@.chunks =~= self@.chunks.insert(position, after.chunks@[key]));
        } else {
            assert(after.chunks@ == self.chunks@);
            assert(after@.chunks =~= self@.chunks);
        }
    }

    /// A manager of `chunks`, each registered under its position. Where
    /// several chunks have one position, the first of them is kept.
    pub fn new(chunks: Vec<Chunk>) -> (manager: Self)
        ensures
            manager.wf(),
            manager@ == ChunkManagerView::empty().add_all(chunks@),
    {
        let mut manager = ChunkManager {
            chunks: HashMap::new(),
            rebuild: HashSet::new(),
            render: HashSet::new(),
            render_dist: 2,
            old_chunk_pos: None,
        };
        proof {
            assert(manager@.chunks =~= Map::empty());
            assert(manager@.rebuild =~= Set::empty());
            assert(manager@.render =~= Set::empty());
        }
        let mut chunks = chunks;
        let ghost all = chunks@;
        let mut reversed: Vec<Chunk> = Vec::new();
        while chunks.len() > 0
            invariant
                chunks@.len() + reversed@.len() == all.len(),
                forall|i: int| 0 <= i < chunks@.len() ==> chunks@[i] == all[i],
                forall|i: int|
                    0 <= i < reversed@.len() ==> reversed@[i] == all[all.len() - 1 - i],
            decreases chunks.len(),
        {
            let chunk = chunks.pop().unwrap();
            reversed.push(chunk);
        }
        while reversed.len() > 0
            invariant
                manager.wf(),
                reversed@.len() <= all.len(),
                forall|i: int|
                    0 <= i < reversed@.len() ==> reversed@[i] == all[all.len() - 1 - i],
                manager@ == ChunkManagerView::empty().add_all(
                    all.subrange(0, all.len() - reversed@.len()),
                ),
            decreases reversed.len(),
        {
            let ghost done = all.subrange(0, all.len() - reversed@.len());
            let chunk = reversed.pop().unwrap();
            assert(all.subrange(0, all.len() - reversed@.len()).drop_last() =~= done);
            manager.add_chunk(chunk);
        }
        assert(all.subrange(0, all.len() as int) =~= all);
        manager
    }

    /// Registers `chunk` under its position. Does nothing if a chunk is
    /// registered there already: the first registration stays.
    pub fn add_chunk(&mut self, chunk: Chunk)
        requires
            old(self).wf(),
        ensures
            final(self).wf(),
            final(self)@ == old(self)@.add(chunk),
    {
        proof {
            lemma_position_key(chunk.position);
        }
        let key = key_of(chunk.position);
        // Prevent overwriting
        if self.chunks.contains_key(&key) {
            return ;
        }
        let ghost position = chunk.position;
        self.chunks.insert(key, chunk);
        proof {
            lemma_key_of_one_position(position);
            assert(self@.chunks =~= old(self)@.chunks.insert(position, chunk));
        }
    }

    /// The chunk registered under `position`, if there is one.
    pub fn get_chunk(&self, position: &ChunkPosition) -> (chunk: Option<&Chunk>)
        ensures
            match chunk {
                Some(chunk) => self@.chunks.contains_key(*position) && *chunk
                    == self@.chunks[*position],
                None => !self@.chunks.contains_key(*position),
            },
    {
        let key = key_of(*position);
        self.chunks.get(&key)
    }

    /// The chunk registered under `position`, if there is one, for changing
    /// it in place.
    pub fn get_chunk_mut(&mut self, position: &ChunkPosition) -> (chunk: Option<&mut Chunk>)
        requires
            old(self).wf(),
        ensures
            final(self).wf(),
            chunk is Some <==> old(self)@.chunks.contains_key(*position),
            chunk matches Some(chunk) ==> *chunk == old(self)@.chunks[*position],
            final(self)@ == match chunk {
                Some(chunk) => ChunkManagerView {
                    chunks: old(self)@.chunks.insert(*position, *final(chunk)),
                    ..old(self)@
                },
                None => old(self)@,
            },
    {
        let key = key_of(*position);
        proof {
            assert forall|after: ChunkManager|
                #![trigger after.wf()]
                #![trigger after@]
                old(self).differs_at(after, *position) && (!old(self).chunks@.contains_key(key)
                    ==> after.chunks@ == old(self).chunks@) implies {
                &&& after.wf()
                &&& old(self).chunks@.contains_key(key) ==> after@ == (ChunkManagerView {
                    chunks: old(self)@.chunks.insert(*position, after.chunks@[key]),
                    ..old(self)@
                })
                &&& !old(self).chunks@.contains_key(key) ==> after@ == old(self)@
            } by {
                old(self).lemma_differs_at(after, *position);
            }
            if !self.chunks@.contains_key(key) {
                assert(self.chunks@.remove(key) =~= self.chunks@);
            }
        }
        match self.chunks.entry(key) {
            Entry::Occupied(entry) => Some(entry.into_mut()),
            Entry::Vacant(_) => None,
        }
    }
}

impl ChunkManager {
    /// Takes waiting positions out of the queue, [`MAX_REBUILD_FRAME`] of
    /// them or all if fewer wait, and remeshes the chunks registered there.
    /// Returns the positions of the chunks that it has remeshed.
    pub fn rebuild_chunks(&mut self) -> (rebuilt: Vec<ChunkPosition>)
        requires
            old(self).wf(),
        ensures
            final(self).wf(),
            old(self)@.rebuilds_to(final(self)@, rebuilt@),
    {
        // Rebuild the mesh of chunks that were modified
        let positions = members(&self.rebuild);

        let mut rebuilt: Vec<ChunkPosition> = Vec::new();
        let ghost mut meshed: Seq<u128> = Seq::empty();
        let mut next: usize = 0;
        assert(positions@.subrange(0, positions@.len() as int) =~= positions@);
        while next < positions.len() && next < MAX_REBUILD_FRAME
            invariant
                self.wf(),
                old(self).wf(),
                next <= positions@.len(),
                next <= MAX_REBUILD_FRAME,
                positions@.no_duplicates(),
                positions@.to_set() == old(self).rebuild@,
                self.render == old(self).render,
                self.render_dist == old(self).render_dist,
                self.old_chunk_pos == old(self).old_chunk_pos,
                self.rebuild@ =~= positions@.subrange(next as int, positions@.len() as int).to_set(),
                self.chunks@.dom() == old(self).chunks@.dom(),
                rebuilt@.len() == meshed.len(),
                meshed.no_duplicates(),
                forall|i: int| 0 <= i < meshed.len() ==> rebuilt@[i] == key_position(meshed[i]),
                forall|key: u128|
                    meshed.contains(key) <==> positions@.subrange(0, next as int).contains(key)
                        && old(self).chunks@.contains_key(key),
                forall|key: u128| #[trigger]
                    old(self).chunks@.contains_key(key) ==> if meshed.contains(key) {
                        old(self).chunks@[key].meshes_to(self.chunks@[key])
                    } else {
                        self.chunks@[key] == old(self).chunks@[key]
                    },
            decreases positions@.len() - next,
        {
            let key = positions[next];
            assert(positions@.to_set().contains(key));
            assert(!positions@.subrange(0, next as int).contains(key));
            let ghost before = self.chunks@;
            let ghost meshed_before = meshed;
            match self.chunks.entry(key) {
                Entry::Occupied(mut entry) => {
                    entry.get_mut().greedy_mesh();
                    rebuilt.push(position_of(key));
                    proof {
                        meshed = meshed.push(key);
                    }
                },
                Entry::Vacant(_) => {
                    assert(before.remove(key) =~= before);
                },
            }
            self.rebuild.remove(&key);
            proof {
                let done = positions@.subrange(0, next as int);
                let more = positions@.subrange(0, next + 1);
                assert(more =~= done.push(key));
                lemma_push_contains(done, key);
                if before.contains_key(key) {
                    assert(self.chunks@ == before.insert(key, self.chunks@[key]));
                    assert(before[key].meshes_to(self.chunks@[key]));
                    lemma_push_contains(meshed_before, key);
                } else {
                    assert(self.chunks@ == before);
                }
                let left = positions@.subrange(next as int, positions@.len() as int);
                let less = positions@.subrange(next + 1, positions@.len() as int);
                assert(left[0] == key);
                assert(less =~= left.drop_first());
                assert(self.rebuild@ =~= less.to_set()) by {
                    assert forall|k: u128| less.to_set().contains(k) <==> left.to_set().contains(k)
                        && k != key by {
                        if less.contains(k) {
                            let i = choose|i: int| 0 <= i < less.len() && less[i] == k;
                            assert(left[i + 1] == k);
                        }
                        if left.contains(k) && k != key {
                            let i = choose|i: int| 0 <= i < left.len() && left[i] == k;
                            assert(less[i - 1] == k);
                        }
                    }
                }
                assert(self.chunks@.dom() =~= old(self).chunks@.dom());
            }
            next += 1;
        }
        proof {
            self.lemma_rebuilt(*old(self), positions@, next as int, meshed, rebuilt@);
        }
        rebuilt
    }

    /// Carries the relation between two managers before and after a pass
    /// over from keys to positions.
    proof fn lemma_rebuilt(
        &self,
        before: ChunkManager,
        positions: Seq<u128>,
        next: int,
        meshed: Seq<u128>,
        rebuilt: Seq<ChunkPosition>,
    )
        requires
            self.wf(),
            before.wf(),
            0 <= next <= positions.len(),
            next <= MAX_REBUILD_FRAME,
            next == positions.len() || next == MAX_REBUILD_FRAME,
            positions.no_duplicates(),
            positions.to_set() == before.rebuild@,
            self.render == before.render,
            self.render_dist == before.render_dist,
            self.old_chunk_pos == before.old_chunk_pos,
            self.rebuild@ =~= positions.subrange(next, positions.len() as int).to_set(),
            self.chunks@.dom() == before.chunks@.dom(),
            rebuilt.len() == meshed.len(),
            meshed.no_duplicates(),
            forall|i: int| 0 <= i < meshed.len() ==> rebuilt[i] == key_position(meshed[i]),
            forall|key: u128|
                meshed.contains(key) <==> positions.subrange(0, next).contains(key)
                    && before.chunks@.contains_key(key),
            forall|key: u128| #[trigger]
                before.chunks@.contains_key(key) ==> if meshed.contains(key) {
                    before.chunks@[key].meshes_to(self.chunks@[key])
                } else {
                    self.chunks@[key] == before.chunks@[key]
                },
        ensures
            before@.rebuilds_to(self@, rebuilt),
    {
        let old_view = before@;
        let new_view = self@;
        let rest = positions.subrange(next, positions.len() as int);
        let done = positions.subrange(0, next);
        let taken = old_view.rebuild.difference(new_view.rebuild);
        assert forall|i: int| 0 <= i < positions.len() implies is_key(#[trigger] positions[i]) by {
            assert(positions.to_set().contains(positions[i]));
        }
        assert forall|key: u128| positions.contains(key) implies (done.contains(key)
            != rest.contains(key)) by {
            let i = choose|i: int| 0 <= i < positions.len() && positions[i] == key;
            if i < next {
                assert(done[i] == key);
                if rest.contains(key) {
                    let j = choose|j: int| 0 <= j < rest.len() && rest[j] == key;
                    assert(positions[next + j] == key);
                }
            } else {
                assert(rest[i - next] == key);
                if done.contains(key) {
                    let j = choose|j: int| 0 <= j < done.len() && done[j] == key;
                    assert(positions[j] == key);
                }
            }
        }
        assert forall|key: u128| done.contains(key) implies positions.contains(key) by {
            let j = choose|j: int| 0 <= j < done.len() && done[j] == key;
            assert(positions[j] == key);
        }
        // The positions that have left the queue are those of the keys taken.
        let gone = Seq::new(next as nat, |i: int| key_position(done[i]));
        lemma_positions_of(done, gone);
        assert(gone.to_set() =~= taken) by {
            assert forall|p: ChunkPosition| gone.contains(p) <==> taken.contains(p) by {
                let key = position_key(p);
                if taken.contains(p) {
                    assert(positions.to_set().contains(key));
                }
            }
        }
        seq_to_set_is_finite(gone);
        gone.unique_seq_to_set();
        assert forall|i: int| 0 <= i < meshed.len() implies is_key(#[trigger] meshed[i]) by {
            assert(meshed.contains(meshed[i]));
            assert(positions.contains(meshed[i]));
            assert(positions.to_set().contains(meshed[i]));
        }
        lemma_positions_of(meshed, rebuilt);
        assert(new_view.chunks.dom() =~= old_view.chunks.dom());
        assert(new_view.render =~= old_view.render);
        if next == positions.len() {
            assert(new_view.rebuild =~= Set::empty()) by {
                assert(rest =~= Seq::empty());
            }
        }
        assert forall|p: ChunkPosition|
            rebuilt.contains(p) <==> taken.contains(p) && old_view.chunks.contains_key(p) by {
            let key = position_key(p);
            if taken.contains(p) {
                assert(gone.contains(p));
            }
        }
    }
}

impl ChunkManager {
    /// Takes note that the observer is in chunk `center`. If the observer
    /// was elsewhere at the last call, or if this is the first, the chunks
    /// in view become the ones to render, and those of them that have no
    /// mesh are made to wait for one.
    pub fn move_to(&mut self, center: ChunkPosition)
        requires
            old(self).wf(),
        ensures
            final(self).wf(),
            final(self)@ == old(self)@.moved_to(center),
    {
        let moved = match self.old_chunk_pos {
            Some(old_chunk_pos) => old_chunk_pos.x != center.x || old_chunk_pos.y != center.y
                || old_chunk_pos.z != center.z,
            None => true,
        };
        if !moved {
            return ;
        }
        // Add chunks that are within the current render distance
        let mut new_render: HashSet<u128> = HashSet::new();
        let render_dist = self.render_dist as i64;
        let x_end = center.x as i64 + render_dist + 1;
        let y_end = center.y as i64 + render_dist + 1;
        let z_end = center.z as i64 + render_dist + 1;
        let y_start = if center.y as i64 - render_dist > 0 {
            center.y as i64 - render_dist
        } else {
            0
        };
        let ghost dist = self.render_dist as int;
        let mut x = center.x as i64 - render_dist;
        while x < x_end
            invariant
                self.wf(),
                self.scan_state(*old(self), new_render@, center, x as int, y_start as int, z_end - 2 * dist - 1),
                dist == old(self).render_dist,
                render_dist == dist,
                x_end == center.x + dist + 1,
                y_end == center.y + dist + 1,
                z_end == center.z + dist + 1,
                y_start == if center.y - dist > 0 { center.y - dist } else { 0 },
                center.x - dist <= x <= x_end,
            decreases x_end - x,
        {
            let mut y = y_start;
            while y < y_end
                invariant
                    self.wf(),
                    self.scan_state(*old(self), new_render@, center, x as int, y as int, z_end - 2 * dist - 1),
                    dist == old(self).render_dist,
                    render_dist == dist,
                    x_end == center.x + dist + 1,
                    y_end == center.y + dist + 1,
                    z_end == center.z + dist + 1,
                    y_start == if center.y - dist > 0 { center.y - dist } else { 0 },
                    center.x - dist <= x < x_end,
                    y_start <= y,
                decreases y_end - y,
            {
                let mut z = center.z as i64 - render_dist;
                while z < z_end
                    invariant
                        self.wf(),
                        self.scan_state(*old(self), new_render@, center, x as int, y as int, z as int),
                        dist == old(self).render_dist,
                        render_dist == dist,
                        x_end == center.x + dist + 1,
                        y_end == center.y + dist + 1,
                        z_end == center.z + dist + 1,
                        y_start == if center.y - dist > 0 { center.y - dist } else { 0 },
                        center.x - dist <= x < x_end,
                        y_start <= y < y_end,
                        center.z - dist <= z <= z_end,
                    decreases z_end - z,
                {
                    if i32::MIN as i64 <= x && x <= i32::MAX as i64 && y <= i32::MAX as i64
                        && i32::MIN as i64 <= z && z <= i32::MAX as i64 {
                        let position = Vector3::new(x as i32, y as i32, z as i32);
                        let key = key_of(position);
                        proof {
                            lemma_position_key(position);
                            lemma_key_of_one_position(position);
                        }
                        if let Some(chunk) = self.chunks.get(&key) {
                            if let None = chunk.mesh {
                                self.rebuild.insert(key);
                            }
                            new_render.insert(key);
                        }
                    }
                    proof {
                        assert forall|p: ChunkPosition|
                            scanned(p, x as int, y as int, z + 1) <==> scanned(
                                p,
                                x as int,
                                y as int,
                                z as int,
                            ) || (p.x == x && p.y == y && p.z == z) by {}
                    }
                    z += 1;
                }
                proof {
                    self.lemma_scan_row(*old(self), new_render@, center, x as int, y as int);
                }
                y += 1;
            }
            proof {
                self.lemma_scan_plane(*old(self), new_render@, center, x as int, y as int);
            }
            x += 1;
        }
        self.render = new_render;
        self.old_chunk_pos = Some(center);
        proof {
            let before = old(self)@;
            let after = self@;
            let goal = before.moved_to(center);
            assert(after.chunks =~= goal.chunks);
            assert(after.rebuild =~= goal.rebuild);
            assert(after.render =~= goal.render);
        }
    }

    /// What holds while the view of `center` is scanned and the scan is about
    /// to look at `(x, y, z)`: of `render`, the positions to render that
    /// have been found so far, and of this manager, which `before` has
    /// become since the scan began.
    spec fn scan_state(
        &self,
        before: ChunkManager,
        render: Set<u128>,
        center: ChunkPosition,
        x: int,
        y: int,
        z: int,
    ) -> bool {
        let dist = before.render_dist as int;
        &&& self.chunks == before.chunks
        &&& self.render_dist == before.render_dist
        &&& self.old_chunk_pos == before.old_chunk_pos
        &&& self.render == before.render
        &&& forall|key: u128| render.contains(key) ==> is_key(key)
        &&& forall|p: ChunkPosition| #[trigger]
            render.contains(position_key(p)) <==> in_view(center, dist, p) && scanned(p, x, y, z)
                && before.chunks@.contains_key(position_key(p))
        &&& forall|p: ChunkPosition| #[trigger]
            self.rebuild@.contains(position_key(p)) <==> before.rebuild@.contains(position_key(p))
                || (in_view(center, dist, p) && scanned(p, x, y, z) && before.chunks@.contains_key(
                position_key(p),
            ) && before.chunks@[position_key(p)].mesh is None)
    }

    /// A scan that has reached the end of a row stands at the start of the
    /// next.
    proof fn lemma_scan_row(
        &self,
        before: ChunkManager,
        render: Set<u128>,
        center: ChunkPosition,
        x: int,
        y: int,
    )
        requires
            self.scan_state(before, render, center, x, y, center.z + before.render_dist + 1),
        ensures
            self.scan_state(before, render, center, x, y + 1, center.z - before.render_dist),
    {
    }

    /// A scan that has reached the end of a plane stands at the start of the
    /// next.
    proof fn lemma_scan_plane(
        &self,
        before: ChunkManager,
        render: Set<u128>,
        center: ChunkPosition,
        x: int,
        y: int,
    )
        requires
            center.y + before.render_dist < y,
            self.scan_state(before, render, center, x, y, center.z - before.render_dist),
        ensures
            self.scan_state(
                before,
                render,
                center,
                x + 1,
                if center.y - before.render_dist > 0 {
                    center.y - before.render_dist
                } else {
                    0
                },
                center.z - before.render_dist,
            ),
    {
    }
}

impl ChunkManager {
    /// The world to start with: a square of full chunks on the ground
    /// level, `half_width(width)` chunks to each side of the origin. None of
    /// them is meshed, in view or waiting yet.
    pub fn default(width: i32) -> (manager: Self)
        ensures
            manager.wf(),
            manager@.chunks.dom() == Set::new(|p: ChunkPosition| in_square(width as int, p)),
            forall|p: ChunkPosition|
                in_square(width as int, p) ==> (#[trigger] manager@.chunks[p]).is_fresh(
                    0,
                    p,
                    Some(Block { id: 0, is_active: true }),
                ),
            manager@.rebuild == Set::<ChunkPosition>::empty(),
            manager@.render == Set::<ChunkPosition>::empty(),
            manager@.render_dist == 2,
            manager@.old_chunk_pos is None,
    {
        let half: i64 = if width >= 0 {
            width as i64 / 2
        } else {
            -((-(width as i64)) / 2)
        };
        let mut chunks: HashMap<u128, Chunk> = HashMap::new();
        let mut x = -half;
        while x < half + 1
            invariant
                half == half_width(width as int),
                -half <= x,
                forall|key: u128| chunks@.contains_key(key) ==> is_key(key),
                forall|p: ChunkPosition| #[trigger]
                    chunks@.contains_key(position_key(p)) <==> in_square(width as int, p) && p.x < x,
                forall|p: ChunkPosition|
                    chunks@.contains_key(position_key(p)) ==> (#[trigger] chunks@[position_key(
                        p,
                    )]).is_fresh(0, p, Some(Block { id: 0, is_active: true })),
            decreases half + 1 - x,
        {
            let mut z = -half;
            while z < half + 1
                invariant
                    half == half_width(width as int),
                    -half <= x < half + 1,
                    -half <= z,
                    forall|key: u128| chunks@.contains_key(key) ==> is_key(key),
                    forall|p: ChunkPosition| #[trigger]
                        chunks@.contains_key(position_key(p)) <==> in_square(width as int, p) && (
                        p.x < x || (p.x == x && p.z < z)),
                    forall|p: ChunkPosition|
                        chunks@.contains_key(position_key(p)) ==> (#[trigger] chunks@[position_key(
                            p,
                        )]).is_fresh(0, p, Some(Block { id: 0, is_active: true })),
                decreases half + 1 - z,
            {
                let pos = Vector3::new(x as i32, 0, z as i32);
                let key = key_of(pos);
                proof {
                    lemma_position_key(pos);
                    lemma_key_of_one_position(pos);
                }
                chunks.insert(key, Chunk::full(0, pos));
                z += 1;
            }
            x += 1;
        }
        let manager = ChunkManager {
            chunks,
            rebuild: HashSet::new(),
            render: HashSet::new(),
            render_dist: 2,
            old_chunk_pos: None,
        };
        proof {
            assert(manager@.chunks.dom() =~= Set::new(|p: ChunkPosition| in_square(width as int, p)));
            assert(manager@.rebuild =~= Set::empty());
            assert(manager@.render =~= Set::empty());
        }
        manager
    }

    /// Brings the manager up to date with an observer who stands at
    /// `observer`, a position in whole blocks: takes note of the chunk that
    /// the observer is in, as [`ChunkManager::move_to`] does, then remeshes
    /// waiting chunks, as [`ChunkManager::rebuild_chunks`] does. Returns the
    /// positions of the chunks that it has remeshed.
    pub fn update(&mut self, observer: Vector3<i32>) -> (rebuilt: Vec<ChunkPosition>)
        requires
            old(self).wf(),
        ensures
            final(self).wf(),
            old(self)@.moved_to(observed_chunk(observer)).rebuilds_to(final(self)@, rebuilt@),
    {
        let camera_chunk_pos = observer_chunk(observer);
        self.move_to(camera_chunk_pos);
        self.rebuild_chunks()
    }

    /// Makes the chunk at `position` wait to be meshed. Whoever changes the
    /// blocks of a chunk calls this to have the change shown.
    pub fn request_rebuild(&mut self, position: ChunkPosition)
        requires
            old(self).wf(),
        ensures
            final(self).wf(),
            final(self)@ == (ChunkManagerView {
                rebuild: old(self)@.rebuild.insert(position),
                ..old(self)@
            }),
    {
        let key = key_of(position);
        proof {
            lemma_position_key(position);
            lemma_key_of_one_position(position);
        }
        self.rebuild.insert(key);
        proof {
            assert(self@.rebuild =~= old(self)@.rebuild.insert(position));
            assert(self@.chunks =~= old(self)@.chunks);
            assert(self@.render =~= old(self)@.render);
        }
    }

    /// The positions that wait to be meshed, each once, in no particular
    /// order.
    pub fn waiting(&self) -> (positions: Vec<ChunkPosition>)
        requires
            self.wf(),
        ensures
            positions@.no_duplicates(),
            positions@.to_set() == self@.rebuild,
    {
        let keys = members(&self.rebuild);
        let positions = positions_of(&keys);
        proof {
            lemma_positions_of(keys@, positions@);
            assert(positions@.to_set() =~= self@.rebuild) by {
                assert forall|p: ChunkPosition| positions@.contains(p) <==> self@.rebuild.contains(
                    p,
                ) by {
                    lemma_position_key(p);
                    assert(keys@.to_set().contains(position_key(p)) <==> self.rebuild@.contains(
                        position_key(p),
                    ));
                }
            }
        }
        positions
    }

    /// Whether the chunk position `position` is in view.
    pub fn is_visible(&self, position: ChunkPosition) -> (visible: bool)
        ensures
            visible == self@.render.contains(position),
    {
        let key = key_of(position);
        self.render.contains(&key)
    }

    /// What to draw: the positions in view whose chunks have a mesh, each
    /// once and in no particular order, with the number of indices of the
    /// mesh.
    pub fn visible_meshes(&self) -> (visible: Vec<(ChunkPosition, u32)>)
        requires
            self.wf(),
        ensures
            forall|i: int, j: int|
                0 <= i < j < visible@.len() ==> visible@[i].0 != visible@[j].0,
            forall|i: int|
                0 <= i < visible@.len() ==> {
                    let p = (#[trigger] visible@[i]).0;
                    &&& self@.render.contains(p)
                    &&& self@.chunks.contains_key(p)
                    &&& self@.chunks[p].mesh matches Some(mesh) && mesh.num_elements
                        == visible@[i].1
                },
            forall|p: ChunkPosition|
                self@.render.contains(p) && self@.chunks.contains_key(p) && self@.chunks[p].mesh
                    is Some ==> exists|i: int| 0 <= i < visible@.len() && (#[trigger] visible@[i]).0
                    == p,
    {
        let keys = members(&self.render);
        let mut visible: Vec<(ChunkPosition, u32)> = Vec::new();
        let ghost mut drawn: Seq<u128> = Seq::empty();
        for n in 0..keys.len()
            invariant
                self.wf(),
                keys@.no_duplicates(),
                keys@.to_set() == self.render@,
                drawn.len() == visible@.len(),
                forall|i: int|
                    0 <= i < drawn.len() ==> {
                        &&& keys@.subrange(0, n as int).contains(#[trigger] drawn[i])
                        &&& is_key(drawn[i])
                        &&& visible@[i].0 == key_position(drawn[i])
                        &&& self.chunks@.contains_key(drawn[i])
                        &&& self.chunks@[drawn[i]].mesh matches Some(mesh) && mesh.num_elements
                            == visible@[i].1
                    },
                forall|i: int, j: int| 0 <= i < j < drawn.len() ==> drawn[i] != drawn[j],
                forall|m: int|
                    0 <= m < n && self.chunks@.contains_key(keys@[m]) && self.chunks@[keys@[m]].mesh
                        is Some ==> drawn.contains(#[trigger] keys@[m]),
        {
            let key = keys[n];
            assert(keys@.to_set().contains(key));
            assert(!keys@.subrange(0, n as int).contains(key));
            proof {
                let done = keys@.subrange(0, n as int);
                let more = keys@.subrange(0, n + 1);
                assert forall|k: u128| done.contains(k) implies more.contains(k) by {
                    let i = choose|i: int| 0 <= i < done.len() && done[i] == k;
                    assert(more[i] == k);
                }
                assert(more[n as int] == key);
            }
            if let Some(chunk) = self.chunks.get(&key) {
                if let Some(mesh) = &chunk.mesh {
                    let ghost before = drawn;
                    visible.push((position_of(key), mesh.num_elements));
                    proof {
                        drawn = drawn.push(key);
                        assert forall|m: int|
                            0 <= m <= n && self.chunks@.contains_key(keys@[m])
                                && self.chunks@[keys@[m]].mesh is Some implies drawn.contains(
                            #[trigger] keys@[m],
                        ) by {
                            if m < n {
                                let i = choose|i: int| 0 <= i < before.len() && before[i] == keys@[m];
                                assert(drawn[i] == keys@[m]);
                            } else {
                                assert(drawn[before.len() as int] == key);
                            }
                        }
                    }
                }
            }
        }
        proof {
            assert forall|i: int, j: int| 0 <= i < j < visible@.len() implies visible@[i].0
                != visible@[j].0 by {
                lemma_key_position(drawn[i]);
                lemma_key_position(drawn[j]);
            }
            assert forall|i: int| 0 <= i < visible@.len() implies {
                let p = (#[trigger] visible@[i]).0;
                &&& self@.render.contains(p)
                &&& self@.chunks.contains_key(p)
                &&& self@.chunks[p].mesh matches Some(mesh) && mesh.num_elements == visible@[i].1
            } by {
                lemma_key_position(drawn[i]);
                let done = keys@.subrange(0, keys@.len() as int);
                let m = choose|m: int| 0 <= m < done.len() && done[m] == drawn[i];
                assert(keys@[m] == drawn[i]);
                assert(keys@.to_set().contains(drawn[i]));
            }
            assert forall|p: ChunkPosition|
                self@.render.contains(p) && self@.chunks.contains_key(p) && self@.chunks[p].mesh
                    is Some implies exists|i: int|
                0 <= i < visible@.len() && (#[trigger] visible@[i]).0 == p by {
                let key = position_key(p);
                lemma_position_key(p);
                assert(keys@.to_set().contains(key));
                let m = choose|m: int| 0 <= m < keys@.len() && keys@[m] == key;
                assert(drawn.contains(keys@[m]));
                let i = choose|i: int| 0 <= i < drawn.len() && drawn[i] == key;
                assert(visible@[i].0 == p);
            }
        }
        visible
    }
}

/// Positions whose keys all lie in a finite set are finitely many.
proof fn lemma_keyed_positions_finite(keys: Set<u128>, positions: Set<ChunkPosition>)
    requires
        keys.finite(),
        forall|p: ChunkPosition| positions.contains(p) ==> keys.contains(position_key(p)),
    ensures
        positions.finite(),
{
    let position = |key: u128| key_position(key);
    keys.lemma_map_finite(position);
    assert(positions.subset_of(keys.map(position))) by {
        assert forall|p: ChunkPosition| positions.contains(p) implies keys.map(position).contains(
            p,
        ) by {
            lemma_position_key(p);
            assert(keys.contains(position_key(p)));
        }
    }
    lemma_set_subset_finite(keys.map(position), positions);
}

/// What a sequence holds after a push: what it held before, and the element
/// pushed.
proof fn lemma_push_contains(keys: Seq<u128>, key: u128)
    ensures
        forall|k: u128|
            #![trigger keys.push(key).contains(k)]
            #![trigger keys.contains(k)]
            keys.push(key).contains(k) <==> keys.contains(k) || k == key,
{
    let more = keys.push(key);
    assert forall|k: u128|
        #![trigger more.contains(k)]
        #![trigger keys.contains(k)]
        more.contains(k) <==> keys.contains(k) || k == key by {
        if more.contains(k) {
            let i = choose|i: int| 0 <= i < more.len() && more[i] == k;
            if i < keys.len() {
                assert(keys[i] == k);
            }
        }
        if keys.contains(k) {
            let i = choose|i: int| 0 <= i < keys.len() && keys[i] == k;
            assert(more[i] == k);
        }
        assert(more[keys.len() as int] == key);
    }
}

/// The positions that `keys` stand for, in the same order.
fn positions_of(keys: &Vec<u128>) -> (positions: Vec<ChunkPosition>)
    requires
        forall|i: int| 0 <= i < keys@.len() ==> is_key(#[trigger] keys@[i]),
    ensures
        positions@.len() == keys@.len(),
        forall|i: int| 0 <= i < keys@.len() ==> positions@[i] == key_position(#[trigger] keys@[i]),
{
    let mut positions: Vec<ChunkPosition> = Vec::new();
    for n in 0..keys.len()
        invariant
            forall|i: int| 0 <= i < keys@.len() ==> is_key(#[trigger] keys@[i]),
            positions@.len() == n,
            forall|i: int| 0 <= i < n ==> positions@[i] == key_position(#[trigger] keys@[i]),
    {
        positions.push(position_of(keys[n]));
    }
    positions
}

/// Distinct keys stand for distinct positions, and a position is among the
/// positions exactly if its key is among the keys.
proof fn lemma_positions_of(keys: Seq<u128>, positions: Seq<ChunkPosition>)
    requires
        keys.no_duplicates(),
        forall|i: int| 0 <= i < keys.len() ==> is_key(#[trigger] keys[i]),
        positions.len() == keys.len(),
        forall|i: int| 0 <= i < keys.len() ==> positions[i] == key_position(#[trigger] keys[i]),
    ensures
        positions.no_duplicates(),
        forall|p: ChunkPosition| positions.contains(p) <==> keys.contains(position_key(p)),
{
    assert forall|i: int, j: int|
        0 <= i < positions.len() && 0 <= j < positions.len() && i != j implies positions[i]
        != positions[j] by {
        lemma_key_position(keys[i]);
        lemma_key_position(keys[j]);
    }
    assert forall|p: ChunkPosition| positions.contains(p) <==> keys.contains(position_key(p)) by {
        lemma_position_key(p);
        if positions.contains(p) {
            let i = choose|i: int| 0 <= i < positions.len() && positions[i] == p;
            lemma_key_position(keys[i]);
            assert(keys[i] == position_key(p));
        }
        if keys.contains(position_key(p)) {
            let i = choose|i: int| 0 <= i < keys.len() && keys[i] == position_key(p);
            assert(positions[i] == p);
        }
    }
}

/// No position ever holds two chunks: a chunk registered at a position that
/// is taken changes nothing, so the first chunk registered there stays.
pub proof fn lemma_first_chunk_stays(manager: ChunkManagerView, first: Chunk, second: Chunk)
    requires
        first.position == second.position,
    ensures
        manager.add(first).add(second) == manager.add(first),
        manager.add(first).chunks.contains_key(first.position),
        !manager.chunks.contains_key(first.position) ==> manager.add(first).chunks[first.position]
            == first,
        manager.chunks.contains_key(first.position) ==> manager.add(first) == manager,
{
}

/// Whether one of `chunks` stands at `position`.
pub open spec fn stands_at(chunks: Seq<Chunk>, position: ChunkPosition) -> bool {
    exists|i: int| 0 <= i < chunks.len() && (#[trigger] chunks[i]).position == position
}

/// After any number of registrations, a position holds a chunk exactly if
/// it held one before or one of the chunks registered stands there.
/// Registering chunks changes nothing else.
pub proof fn lemma_add_all_positions(
    manager: ChunkManagerView,
    chunks: Seq<Chunk>,
    position: ChunkPosition,
)
    ensures
        manager.add_all(chunks).chunks.contains_key(position) <==> manager.chunks.contains_key(
            position,
        ) || stands_at(chunks, position),
        manager.add_all(chunks).rebuild == manager.rebuild,
        manager.add_all(chunks).render == manager.render,
        manager.add_all(chunks).render_dist == manager.render_dist,
        manager.add_all(chunks).old_chunk_pos == manager.old_chunk_pos,
    decreases chunks.len(),
{
    if chunks.len() > 0 {
        let front = chunks.drop_last();
        let last = chunks.last();
        lemma_add_all_positions(manager, front, position);
        if stands_at(front, position) {
            let i = choose|i: int| 0 <= i < front.len() && (#[trigger] front[i]).position == position;
            assert(chunks[i].position == position);
        }
        if stands_at(chunks, position) {
            let i = choose|i: int|
                0 <= i < chunks.len() && (#[trigger] chunks[i]).position == position;
            if i < front.len() {
                assert(front[i].position == position);
            }
        }
        if last.position == position {
            assert(chunks[chunks.len() - 1].position == position);
        }
    }
}

/// After any number of registrations, a position that held a chunk before
/// still holds the same one.
pub proof fn lemma_add_all_keeps(manager: ChunkManagerView, chunks: Seq<Chunk>, position: ChunkPosition)
    requires
        manager.chunks.contains_key(position),
    ensures
        manager.add_all(chunks).chunks.contains_key(position),
        manager.add_all(chunks).chunks[position] == manager.chunks[position],
    decreases chunks.len(),
{
    if chunks.len() > 0 {
        lemma_add_all_keeps(manager, chunks.drop_last(), position);
    }
}

/// After any number of registrations, a position that held no chunk before
/// holds the first chunk registered there: no position ever holds two.
pub proof fn lemma_add_all_first(manager: ChunkManagerView, chunks: Seq<Chunk>, first: int)
    requires
        0 <= first < chunks.len(),
        !manager.chunks.contains_key(chunks[first].position),
        forall|j: int| 0 <= j < first ==> (#[trigger] chunks[j]).position != chunks[first].position,
    ensures
        manager.add_all(chunks).chunks.contains_key(chunks[first].position),
        manager.add_all(chunks).chunks[chunks[first].position] == chunks[first],
    decreases chunks.len(),
{
    let front = chunks.drop_last();
    let position = chunks[first].position;
    if first < front.len() {
        assert(front[first] == chunks[first]);
        assert forall|j: int| 0 <= j < first implies (#[trigger] front[j]).position != position by {
            assert(front[j] == chunks[j]);
        }
        lemma_add_all_first(manager, front, first);
    } else {
        lemma_add_all_positions(manager, front, position);
        if stands_at(front, position) {
            let j = choose|j: int| 0 <= j < front.len() && (#[trigger] front[j]).position == position;
            assert(chunks[j].position == position);
        }
    }
}

/// Finding the observer in the same chunk twice is the same as finding it
/// there once.
pub proof fn lemma_moved_to_twice(manager: ChunkManagerView, center: ChunkPosition)
    ensures
        manager.moved_to(center).moved_to(center) == manager.moved_to(center),
{
}

/// A pass of remeshing takes no more than [`MAX_REBUILD_FRAME`] positions
/// out of the queue, however many wait, and it makes progress: unless no
/// position was waiting, fewer wait afterwards. The chunks it remeshes are
/// the ones at the positions it takes.
pub proof fn lemma_rebuild_progress(
    before: ChunkManagerView,
    after: ChunkManagerView,
    rebuilt: Seq<ChunkPosition>,
)
    requires
        before.rebuild.finite(),
        before.rebuilds_to(after, rebuilt),
    ensures
        after.rebuild.finite(),
        before.rebuild.len() - after.rebuild.len() <= MAX_REBUILD_FRAME,
        before.rebuild.len() - after.rebuild.len() == MAX_REBUILD_FRAME || after.rebuild.len()
            == 0,
        before.rebuild.len() > 0 ==> after.rebuild.len() < before.rebuild.len(),
        rebuilt.len() <= MAX_REBUILD_FRAME,
        rebuilt.to_set() == before.rebuild.difference(after.rebuild).intersect(
            before.chunks.dom(),
        ),
{
    let taken = before.rebuild.difference(after.rebuild);
    lemma_set_subset_finite(before.rebuild, after.rebuild);
    lemma_set_difference_len(before.rebuild, after.rebuild);
    assert(before.rebuild.intersect(after.rebuild) =~= after.rebuild);
    assert(rebuilt.to_set() =~= taken.intersect(before.chunks.dom()));
    rebuilt.unique_seq_to_set();
    lemma_len_subset(rebuilt.to_set(), taken);
    lemma_set_empty_equivalency_len(after.rebuild);
}

/// Whether one pass of remeshing can lead from `before` to `after`.
pub open spec fn passes_to(before: ChunkManagerView, after: ChunkManagerView) -> bool {
    exists|rebuilt: Seq<ChunkPosition>| #[trigger] before.rebuilds_to(after, rebuilt)
}

/// Whether each state in `states` leads to the next by one pass of
/// remeshing.
pub open spec fn passes(states: Seq<ChunkManagerView>) -> bool {
    forall|i: int| 0 < i < states.len() ==> passes_to(states[i - 1], #[trigger] states[i])
}

/// Passes of remeshing empty the queue, however long it is: each pass
/// shortens it by [`MAX_REBUILD_FRAME`] until nothing is left, so none waits
/// once the passes could have taken as many positions as were waiting.
pub proof fn lemma_rebuild_drains(states: Seq<ChunkManagerView>)
    requires
        states.len() > 0,
        passes(states),
        states[0].rebuild.finite(),
        (states.len() - 1) * MAX_REBUILD_FRAME >= states[0].rebuild.len(),
    ensures
        states.last().rebuild.is_empty(),
{
    lemma_rebuild_shrinks(states, states.len() - 1);
    lemma_set_empty_equivalency_len(states.last().rebuild);
}

/// After `n` passes, `n` times [`MAX_REBUILD_FRAME`] fewer positions wait,
/// or none.
pub proof fn lemma_rebuild_shrinks(states: Seq<ChunkManagerView>, n: int)
    requires
        passes(states),
        0 <= n < states.len(),
        states[0].rebuild.finite(),
    ensures
        states[n].rebuild.finite(),
        states[n].rebuild.len() == if states[0].rebuild.len() >= n * MAX_REBUILD_FRAME {
            states[0].rebuild.len() - n * MAX_REBUILD_FRAME
        } else {
            0
        },
    decreases n,
{
    if n > 0 {
        lemma_rebuild_shrinks(states, n - 1);
        assert(passes_to(states[n - 1], states[n]));
        let rebuilt = choose|rebuilt: Seq<ChunkPosition>| #[trigger]
            states[n - 1].rebuilds_to(states[n], rebuilt);
        lemma_rebuild_progress(states[n - 1], states[n], rebuilt);
    }
}

} // verus!
