//! The entity store: chunks with their physics mirrors, monsters, and
//! the shared physics-world ledger, held in indexable tables so that the
//! streaming pass can iterate by index and defer structural changes.

use vstd::prelude::*;

use crate::body::ChunkBody;
use crate::chunk::Chunk;
use crate::coords::{spec_world_to_chunk, ChunkPos};
use crate::physics::PhysicsWorld;

verus! {

/// A gameplay entity that lives in some chunk: it carries its world
/// position, the chunk coordinate derived from it each frame, and an
/// activity flag that follows its chunk's residency.
#[derive(Clone, Copy, Debug, PartialEq, Eq, Structural)]
pub struct Monster {
    pub x: i32,
    pub y: i32,
    pub chunk: ChunkPos,
    pub active: bool,
}

/// A chunk entity: the chunk and its physics mirror, created and removed
/// together.
#[derive(Clone, Debug, PartialEq)]
pub struct ChunkEntity {
    pub chunk: Chunk,
    pub body: ChunkBody,
}

/// The world the streaming pass operates on.
#[derive(Debug)]
pub struct GameWorld {
    pub chunks: Vec<ChunkEntity>,
    pub monsters: Vec<Monster>,
    pub physics: PhysicsWorld,
}

/// `m` with its activity flag set to `a`.
pub open spec fn with_active(m: Monster, a: bool) -> Monster {
    Monster { active: a, ..m }
}

/// `m` with its chunk coordinate recomputed from its world position.
pub open spec fn retag(m: Monster, csu: int) -> Monster {
    Monster { chunk: spec_world_to_chunk(m.x as int, m.y as int, csu), ..m }
}

/// Every monster with its chunk coordinate recomputed.
pub open spec fn retag_all(ms: Seq<Monster>, csu: int) -> Seq<Monster> {
    Seq::new(ms.len(), |j: int| retag(ms[j], csu))
}

/// Some stored chunk owns coordinate `c`.
pub open spec fn has_chunk_at(chunks: Seq<ChunkEntity>, c: ChunkPos) -> bool {
    exists|i: int| 0 <= i < chunks.len() && (#[trigger] chunks[i]).chunk.pos == c
}

/// Whether some stored chunk owns coordinate `c`.
pub fn has_chunk_at_pos(chunks: &Vec<ChunkEntity>, c: &ChunkPos) -> (b: bool)
    ensures
        b == has_chunk_at(chunks@, *c),
{
    let n: usize = chunks.len();
    let mut i: usize = 0;
    while i < n
        invariant
            n == chunks@.len(),
            i <= n,
            forall|j: int| 0 <= j < i ==> (#[trigger] chunks@[j]).chunk.pos != *c,
        decreases n - i,
    {
        let p: ChunkPos = chunks[i].chunk.pos;
        if p.x == c.x && p.y == c.y {
            return true;
        }
        i += 1;
    }
    false
}

/// A coordinate found among stored chunks is still found when the store
/// grows at the end.
pub proof fn lemma_has_chunk_at_grows(s1: Seq<ChunkEntity>, s2: Seq<ChunkEntity>, c: ChunkPos)
    requires
        has_chunk_at(s1, c),
        s1.len() <= s2.len(),
        forall|i: int| 0 <= i < s1.len() ==> s2[i] == s1[i],
    ensures
        has_chunk_at(s2, c),
{
    let i = choose|i: int| 0 <= i < s1.len() && (#[trigger] s1[i]).chunk.pos == c;
    assert(s2[i].chunk.pos == c);
}

impl GameWorld {
    /// An empty world.
    pub fn new() -> (w: GameWorld)
        ensures
            w.chunks@.len() == 0,
            w.monsters@.len() == 0,
            w.physics.bodies@.len() == 0,
            w.physics.colliders@.len() == 0,
            w.physics.log@.len() == 0,
    {
        GameWorld { chunks: Vec::new(), monsters: Vec::new(), physics: PhysicsWorld::new() }
    }

    /// Adds a monster at the given world position. Its chunk coordinate
    /// is recomputed by the next streaming pass before it is used.
    pub fn spawn_monster(&mut self, x: i32, y: i32, active: bool)
        ensures
            final(self).monsters@ == old(self).monsters@.push(
                Monster { x, y, chunk: ChunkPos { x: 0, y: 0 }, active },
            ),
            final(self).chunks@ == old(self).chunks@,
            final(self).physics == old(self).physics,
    {
        self.monsters.push(Monster { x, y, chunk: ChunkPos { x: 0, y: 0 }, active });
    }
}

/// Recomputes every monster's chunk coordinate from its world position.
pub fn retag_monsters(monsters: &mut Vec<Monster>, csu: u32)
    requires
        csu >= 1,
    ensures
        final(monsters)@ == retag_all(old(monsters)@, csu as int),
{
    let ghost ms0 = monsters@;
    let n: usize = monsters.len();
    let mut i: usize = 0;
    while i < n
        invariant
            csu >= 1,
            n == ms0.len(),
            monsters@.len() == n,
            i <= n,
            forall|j: int| 0 <= j < i ==> monsters@[j] == retag(ms0[j], csu as int),
            forall|j: int| i <= j < n ==> monsters@[j] == ms0[j],
        decreases n - i,
    {
        let m: Monster = monsters[i];
        let c = crate::coords::world_to_chunk(m.x, m.y, csu);
        monsters.set(i, Monster { chunk: c, ..m });
        i += 1;
    }
    assert(monsters@ =~= retag_all(ms0, csu as int));
}

/// Flips the activity flag of every monster tagged with coordinate `c`.
pub fn set_monsters_active(monsters: &mut Vec<Monster>, c: &ChunkPos, active: bool)
    ensures
        final(monsters)@.len() == old(monsters)@.len(),
        forall|j: int|
            0 <= j < old(monsters)@.len() ==> final(monsters)@[j] == (if old(monsters)@[j].chunk
                == *c {
                with_active(old(monsters)@[j], active)
            } else {
                old(monsters)@[j]
            }),
{
    let ghost ms0 = monsters@;
    let n: usize = monsters.len();
    let mut i: usize = 0;
    while i < n
        invariant
            n == ms0.len(),
            monsters@.len() == n,
            i <= n,
            forall|j: int|
                0 <= j < i ==> monsters@[j] == (if ms0[j].chunk == *c {
                    with_active(ms0[j], active)
                } else {
                    ms0[j]
                }),
            forall|j: int| i <= j < n ==> monsters@[j] == ms0[j],
        decreases n - i,
    {
        let m: Monster = monsters[i];
        if m.chunk.x == c.x && m.chunk.y == c.y {
            monsters.set(i, Monster { active, ..m });
        }
        i += 1;
    }
}

} // verus!
