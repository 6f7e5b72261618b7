//! Streaming configuration and the per-frame streaming pass: observer
//! tracking, chunk promotion, load, unload and eviction, with structural
//! changes deferred to a flush at the end of the pass.

use vstd::prelude::*;

use crate::body::ChunkBody;
use crate::chunk::{chunk_tiles, has_tile_grid, Chunk, ChunkState};
use crate::coords::{
    ceil_sqrt, distance_squared, in_coord_range, in_player_range, spec_dist2, spec_world_to_chunk,
    world_to_chunk, ChunkPos, WorldRect, COORD_LIMIT,
};
use crate::field::NoiseField;
use crate::physics::PhysicsWorld;
use crate::store::{
    has_chunk_at, retag, retag_monsters, set_monsters_active, with_active, ChunkEntity,
    GameWorld, Monster,
};

verus! {

/// A configuration the streaming pass cannot run on, detected at
/// startup: a zero chunk or tile size, or distance bands that are not
/// strictly ordered (which would evict chunks before ever unloading
/// them).
#[derive(Clone, Copy, Debug, PartialEq, Eq, Structural)]
pub enum ConfigError {
    ZeroChunkSize,
    ZeroTileSize,
    InvertedDistanceBands,
}

/// Process-wide streaming state: the noise field and solidity threshold,
/// grid sizing, the observer's last chunk coordinate, and the two
/// squared-distance bands whose gap provides hysteresis.
#[derive(Clone, Debug)]
pub struct ChunkManager {
    pub world_noise: NoiseField,
    pub threshold: u32,
    pub player_chunk: ChunkPos,
    pub chunk_size_in_tiles: u8,
    pub tile_size_in_units: u16,
    /// Derived: `chunk_size_in_tiles * tile_size_in_units`.
    pub chunk_size_in_units: u32,
    pub unloading_distance: u32,
    pub freeing_distance: u32,
}

/// The world-space footprint of the chunk at `pos`.
pub open spec fn spec_chunk_rect(pos: ChunkPos, csu: int) -> WorldRect {
    WorldRect { x: (pos.x * csu) as i64, y: (pos.y * csu) as i64, w: csu as i64, h: csu as i64 }
}

/// Chunk coordinates in range times the chunk size stay well inside
/// `i64`.
pub proof fn lemma_rect_bounded(c: int, csu: int)
    requires
        -COORD_LIMIT <= c <= COORD_LIMIT,
        0 <= csu <= 0x100_0000,
    ensures
        -0x100_0000_0000_0000 <= c * csu <= 0x100_0000_0000_0000,
{
    assert(-0x100_0000_0000_0000 <= c * csu <= 0x100_0000_0000_0000) by (nonlinear_arith)
        requires
            -0x1_0000_0000 <= c <= 0x1_0000_0000,
            0 <= csu <= 0x100_0000,
    ;
}

impl ChunkManager {
    /// The configuration invariants: positive sizes, the derived chunk
    /// size, strictly ordered distance bands, and an observer coordinate
    /// that keeps the promotion scan in range.
    pub open spec fn wf(&self) -> bool {
        &&& self.chunk_size_in_tiles >= 1
        &&& self.tile_size_in_units >= 1
        &&& self.chunk_size_in_units == self.chunk_size_in_tiles as int
            * self.tile_size_in_units as int
        &&& self.unloading_distance < self.freeing_distance
        &&& in_player_range(self.player_chunk)
    }

    /// The configuration fields of `m2` equal those of `m1`.
    pub open spec fn same_config(m1: ChunkManager, m2: ChunkManager) -> bool {
        &&& m2.world_noise == m1.world_noise
        &&& m2.threshold == m1.threshold
        &&& m2.chunk_size_in_tiles == m1.chunk_size_in_tiles
        &&& m2.tile_size_in_units == m1.tile_size_in_units
        &&& m2.chunk_size_in_units == m1.chunk_size_in_units
        &&& m2.unloading_distance == m1.unloading_distance
        &&& m2.freeing_distance == m1.freeing_distance
    }

    /// Validates the configuration and builds the manager; each way a
    /// configuration can be wrong is reported as its own error.
    pub fn new(
        world_noise: NoiseField,
        threshold: u32,
        chunk_size_in_tiles: u8,
        tile_size_in_units: u16,
        unloading_distance: u32,
        freeing_distance: u32,
    ) -> (r: Result<ChunkManager, ConfigError>)
        ensures
            r is Ok <==> (chunk_size_in_tiles >= 1 && tile_size_in_units >= 1
                && unloading_distance < freeing_distance),
            r == Err::<ChunkManager, ConfigError>(ConfigError::ZeroChunkSize) <==> chunk_size_in_tiles == 0,
            r == Err::<ChunkManager, ConfigError>(ConfigError::ZeroTileSize) <==> (
            chunk_size_in_tiles >= 1 && tile_size_in_units == 0),
            r == Err::<ChunkManager, ConfigError>(ConfigError::InvertedDistanceBands) <==> (
            chunk_size_in_tiles >= 1 && tile_size_in_units >= 1 && freeing_distance
                <= unloading_distance),
            match r {
                Ok(m) => {
                    &&& m.wf()
                    &&& m.world_noise == world_noise
                    &&& m.threshold == threshold
                    &&& m.player_chunk == (ChunkPos { x: 0, y: 0 })
                    &&& m.chunk_size_in_tiles == chunk_size_in_tiles
                    &&& m.tile_size_in_units == tile_size_in_units
                    &&& m.unloading_distance == unloading_distance
                    &&& m.freeing_distance == freeing_distance
                },
                Err(_) => true,
            },
    {
        if chunk_size_in_tiles == 0 {
            return Err(ConfigError::ZeroChunkSize);
        }
        if tile_size_in_units == 0 {
            return Err(ConfigError::ZeroTileSize);
        }
        if freeing_distance <= unloading_distance {
            return Err(ConfigError::InvertedDistanceBands);
        }
        proof {
            assert((chunk_size_in_tiles as int) * (tile_size_in_units as int) < 0x100_0000)
                by (nonlinear_arith)
                requires
                    chunk_size_in_tiles < 0x100,
                    tile_size_in_units < 0x1_0000,
            ;
        }
        let chunk_size_in_units: u32 = (chunk_size_in_tiles as u32) * (tile_size_in_units as u32);
        Ok(
            ChunkManager {
                world_noise,
                threshold,
                player_chunk: ChunkPos { x: 0, y: 0 },
                chunk_size_in_tiles,
                tile_size_in_units,
                chunk_size_in_units,
                unloading_distance,
                freeing_distance,
            },
        )
    }

    /// The world-space rectangle covered by the chunk at `pos`.
    pub fn get_chunk_rect(&self, pos: &ChunkPos) -> (r: WorldRect)
        requires
            self.wf(),
            in_coord_range(*pos),
        ensures
            r == spec_chunk_rect(*pos, self.chunk_size_in_units as int),
    {
        proof {
            assert(self.chunk_size_in_units <= 0x100_0000) by (nonlinear_arith)
                requires
                    self.chunk_size_in_units == self.chunk_size_in_tiles as int
                        * self.tile_size_in_units as int,
                    self.chunk_size_in_tiles < 0x100,
                    self.tile_size_in_units < 0x1_0000,
            ;
            lemma_rect_bounded(pos.x as int, self.chunk_size_in_units as int);
            lemma_rect_bounded(pos.y as int, self.chunk_size_in_units as int);
        }
        let csu: i64 = self.chunk_size_in_units as i64;
        WorldRect { x: pos.x * csu, y: pos.y * csu, w: csu, h: csu }
    }

    /// The chunk coordinate covering a world position.
    pub fn get_chunk_by_position(&self, x: i32, y: i32) -> (c: ChunkPos)
        requires
            self.wf(),
        ensures
            c == spec_world_to_chunk(
                x as int,
                y as int,
                self.chunk_size_in_units as int,
            ),
            in_player_range(c),
            in_coord_range(c),
    {
        proof {
            assert(self.chunk_size_in_units >= 1) by (nonlinear_arith)
                requires
                    self.chunk_size_in_units == self.chunk_size_in_tiles as int
                        * self.tile_size_in_units as int,
                    self.chunk_size_in_tiles >= 1,
                    self.tile_size_in_units >= 1,
            ;
        }
        world_to_chunk(x, y, self.chunk_size_in_units)
    }

    /// One stored chunk entity is consistent: physics mirror aligned
    /// with the chunk, residency never `Freed`, the tile grid present
    /// exactly while loaded and then exactly the sampled grid, handles
    /// paired with solid tiles while loaded and absent otherwise.
    pub open spec fn wf_entity(&self, e: ChunkEntity) -> bool {
        &&& in_coord_range(e.chunk.pos)
        &&& e.body.pos == e.chunk.pos
        &&& e.body.state == e.chunk.state
        &&& e.chunk.state != ChunkState::Freed
        &&& (e.chunk.state == ChunkState::Loaded <==> e.chunk.matrix is Some)
        &&& (e.chunk.matrix is Some ==> has_tile_grid(
            e.chunk,
            self.world_noise.seed,
            self.threshold,
            self.chunk_size_in_tiles as int,
        ))
        &&& e.chunk.rect == spec_chunk_rect(e.chunk.pos, self.chunk_size_in_units as int)
        &&& e.body.grids_wf(self.chunk_size_in_tiles as int)
        &&& (e.chunk.state == ChunkState::Loaded ==> e.body.paired_with(chunk_tiles(e.chunk)))
        &&& (e.chunk.state == ChunkState::Unloaded ==> e.body.all_clear())
    }

    /// Every stored chunk is consistent and no coordinate is stored
    /// twice.
    pub open spec fn wf_chunks(&self, chunks: Seq<ChunkEntity>) -> bool {
        &&& forall|i: int| 0 <= i < chunks.len() ==> self.wf_entity(#[trigger] chunks[i])
        &&& forall|i: int, j: int|
            0 <= i < j < chunks.len() ==> (#[trigger] chunks[i]).chunk.pos != (
            #[trigger] chunks[j]).chunk.pos
    }
}

/// Among the first `n` stored chunks, the one at coordinate `c` is about
/// to make the `Unloaded` to `Loaded` transition.
pub open spec fn loaded_transition_upto(
    chunks: Seq<ChunkEntity>,
    c: ChunkPos,
    pc: ChunkPos,
    ud: u32,
    n: int,
) -> bool {
    exists|i: int|
        0 <= i < n && i < chunks.len() && (#[trigger] chunks[i]).chunk.pos == c
            && chunks[i].chunk.state == ChunkState::Unloaded && spec_dist2(chunks[i].chunk.pos, pc)
            < ud
}

/// The stored chunk at coordinate `c` is about to be (re)loaded.
pub open spec fn loaded_transition_at(
    chunks: Seq<ChunkEntity>,
    c: ChunkPos,
    pc: ChunkPos,
    ud: u32,
) -> bool {
    loaded_transition_upto(chunks, c, pc, ud, chunks.len() as int)
}

/// Among the first `n` stored chunks, the one at coordinate `c` is about
/// to make the `Loaded` to `Unloaded` transition.
pub open spec fn unload_transition_upto(
    chunks: Seq<ChunkEntity>,
    c: ChunkPos,
    pc: ChunkPos,
    ud: u32,
    n: int,
) -> bool {
    exists|i: int|
        0 <= i < n && i < chunks.len() && (#[trigger] chunks[i]).chunk.pos == c
            && chunks[i].chunk.state == ChunkState::Loaded && spec_dist2(chunks[i].chunk.pos, pc)
            >= ud
}

/// The stored chunk at coordinate `c` is about to be unloaded.
pub open spec fn unload_transition_at(
    chunks: Seq<ChunkEntity>,
    c: ChunkPos,
    pc: ChunkPos,
    ud: u32,
) -> bool {
    unload_transition_upto(chunks, c, pc, ud, chunks.len() as int)
}

/// Monsters after the load step has processed the first `n` chunks:
/// those tagged with a chunk that transitioned to `Loaded` are active.
pub open spec fn activate_upto(
    ms: Seq<Monster>,
    chunks: Seq<ChunkEntity>,
    pc: ChunkPos,
    ud: u32,
    n: int,
) -> Seq<Monster> {
    Seq::new(
        ms.len(),
        |j: int|
            if loaded_transition_upto(chunks, ms[j].chunk, pc, ud, n) {
                with_active(ms[j], true)
            } else {
                ms[j]
            },
    )
}

/// Monsters after the unload step has processed the first `n` chunks:
/// those tagged with a chunk that transitioned to `Unloaded` are
/// inactive.
pub open spec fn deactivate_upto(
    ms: Seq<Monster>,
    chunks: Seq<ChunkEntity>,
    pc: ChunkPos,
    ud: u32,
    n: int,
) -> Seq<Monster> {
    Seq::new(
        ms.len(),
        |j: int|
            if unload_transition_upto(chunks, ms[j].chunk, pc, ud, n) {
                with_active(ms[j], false)
            } else {
                ms[j]
            },
    )
}

/// Among the first `n` stored chunks, coordinate `c` is owned by one at
/// or beyond the freeing band.
pub open spec fn freed_upto(
    chunks: Seq<ChunkEntity>,
    c: ChunkPos,
    pc: ChunkPos,
    fd: u32,
    n: int,
) -> bool {
    exists|i: int|
        0 <= i < n && i < chunks.len() && (#[trigger] chunks[i]).chunk.pos == c && spec_dist2(
            chunks[i].chunk.pos,
            pc,
        ) >= fd
}

/// Coordinate `c` is owned by a stored chunk at or beyond the freeing
/// band, so the entities there are about to be destroyed.
pub open spec fn freed_at(chunks: Seq<ChunkEntity>, c: ChunkPos, pc: ChunkPos, fd: u32) -> bool {
    freed_upto(chunks, c, pc, fd, chunks.len() as int)
}

/// The stored chunks that survive eviction: those strictly inside the
/// freeing band, in storage order.
pub open spec fn chunks_within(chunks: Seq<ChunkEntity>, pc: ChunkPos, fd: u32) -> Seq<
    ChunkEntity,
>
    decreases chunks.len(),
{
    if chunks.len() == 0 {
        Seq::empty()
    } else {
        let rest = chunks_within(chunks.drop_last(), pc, fd);
        if spec_dist2(chunks.last().chunk.pos, pc) < fd {
            rest.push(chunks.last())
        } else {
            rest
        }
    }
}

/// The monsters that survive eviction: those whose chunk coordinate is
/// not owned by an evicted chunk, in storage order.
pub open spec fn monsters_kept(
    ms: Seq<Monster>,
    chunks: Seq<ChunkEntity>,
    pc: ChunkPos,
    fd: u32,
) -> Seq<Monster>
    decreases ms.len(),
{
    if ms.len() == 0 {
        Seq::empty()
    } else {
        let rest = monsters_kept(ms.drop_last(), chunks, pc, fd);
        if freed_at(chunks, ms.last().chunk, pc, fd) {
            rest
        } else {
            rest.push(ms.last())
        }
    }
}

/// Some stored chunk owns coordinate `c` and is loaded.
pub open spec fn loaded_chunk_at(chunks: Seq<ChunkEntity>, c: ChunkPos) -> bool {
    exists|i: int|
        0 <= i < chunks.len() && (#[trigger] chunks[i]).chunk.pos == c && chunks[i].chunk.state
            == ChunkState::Loaded
}

/// One monster after one full streaming pass, before eviction: its chunk
/// coordinate recomputed, and its activity flipped if that chunk made a
/// residency transition this pass.
pub open spec fn monster_streamed(
    m: Monster,
    chunks: Seq<ChunkEntity>,
    pc: ChunkPos,
    csu: int,
    ud: u32,
) -> Monster {
    let t = retag(m, csu);
    if loaded_transition_at(chunks, t.chunk, pc, ud) {
        with_active(t, true)
    } else if unload_transition_at(chunks, t.chunk, pc, ud) {
        with_active(t, false)
    } else {
        t
    }
}

/// Every monster after one full streaming pass, before eviction.
pub open spec fn streamed_all(
    ms: Seq<Monster>,
    chunks: Seq<ChunkEntity>,
    pc: ChunkPos,
    csu: int,
    ud: u32,
) -> Seq<Monster> {
    Seq::new(ms.len(), |j: int| monster_streamed(ms[j], chunks, pc, csu, ud))
}

/// Cell `c` of the promotion scan square around `pc` of radius `r` lies
/// strictly before scan position `(iy, ix)` in row-major order.
pub open spec fn scanned(c: ChunkPos, pc: ChunkPos, r: int, iy: int, ix: int) -> bool {
    let dx = c.x - (pc.x - r);
    let dy = c.y - (pc.y - r);
    &&& 0 <= dx < 2 * r + 1
    &&& 0 <= dy
    &&& (dy < iy || (dy == iy && dx < ix))
}

/// A coordinate closer to `pc` than `ud` lies strictly inside the square
/// of radius `r` around `pc` whenever `r * r` covers `ud`.
pub proof fn lemma_in_range_in_square(c: ChunkPos, pc: ChunkPos, r: int, ud: int)
    requires
        spec_dist2(c, pc) < ud,
        ud <= r * r,
        r >= 0,
    ensures
        pc.x - r < c.x < pc.x + r,
        pc.y - r < c.y < pc.y + r,
{
    let dx = c.x - pc.x;
    let dy = c.y - pc.y;
    assert(dx * dx <= dx * dx + dy * dy) by (nonlinear_arith);
    assert(dy * dy <= dx * dx + dy * dy) by (nonlinear_arith);
    assert(-r < dx < r) by (nonlinear_arith)
        requires
            dx * dx < r * r,
            r >= 0,
    ;
    assert(-r < dy < r) by (nonlinear_arith)
        requires
            dy * dy < r * r,
            r >= 0,
    ;
}

impl ChunkManager {
    /// Creation step of the streaming pass: scans the square of side
    /// `2r + 1` around the observer's chunk, and for every coordinate
    /// within the load band that has no live chunk builds a fresh chunk
    /// entity, drives it through its first load (tiles, then physics
    /// bodies), and queues it for the flush at the end of the pass.
    pub fn promote(&self, chunks: &Vec<ChunkEntity>, pw: &mut PhysicsWorld) -> (pending: Vec<
        ChunkEntity,
    >)
        requires
            self.wf(),
            self.wf_chunks(chunks@),
        ensures
            forall|k: int|
                0 <= k < pending@.len() ==> {
                    &&& self.wf_entity(#[trigger] pending@[k])
                    &&& pending@[k].chunk.state == ChunkState::Loaded
                    &&& spec_dist2(pending@[k].chunk.pos, self.player_chunk)
                        < self.unloading_distance
                    &&& !has_chunk_at(chunks@, pending@[k].chunk.pos)
                },
            forall|k1: int, k2: int|
                0 <= k1 < k2 < pending@.len() ==> (#[trigger] pending@[k1]).chunk.pos != (
                #[trigger] pending@[k2]).chunk.pos,
            forall|c: ChunkPos|
                #[trigger] spec_dist2(c, self.player_chunk) < self.unloading_distance
                    && !has_chunk_at(chunks@, c) ==> has_chunk_at(pending@, c),
            final(pw).log@.len() >= old(pw).log@.len(),
            final(pw).log@.subrange(0, old(pw).log@.len() as int) == old(pw).log@,
    {
        let pc: ChunkPos = self.player_chunk;
        let r: u32 = ceil_sqrt(self.unloading_distance);
        let side: u64 = 2 * (r as u64) + 1;
        let ghost log0 = pw.log@;
        let ghost lo = pw.log@.len() as int;
        let mut pending: Vec<ChunkEntity> = Vec::new();
        let mut iy: u64 = 0;
        while iy < side
            invariant
                self.wf(),
                self.wf_chunks(chunks@),
                pc == self.player_chunk,
                r <= 0x1_0000,
                r * r >= self.unloading_distance,
                side == 2 * r + 1,
                iy <= side,
                lo == log0.len(),
                lo <= pw.log@.len(),
                pw.log@.subrange(0, lo) == log0,
                forall|k: int|
                    0 <= k < pending@.len() ==> {
                        &&& self.wf_entity(#[trigger] pending@[k])
                        &&& pending@[k].chunk.state == ChunkState::Loaded
                        &&& spec_dist2(pending@[k].chunk.pos, pc) < self.unloading_distance
                        &&& !has_chunk_at(chunks@, pending@[k].chunk.pos)
                        &&& scanned(pending@[k].chunk.pos, pc, r as int, iy as int, 0)
                    },
                forall|k1: int, k2: int|
                    0 <= k1 < k2 < pending@.len() ==> (#[trigger] pending@[k1]).chunk.pos != (
                    #[trigger] pending@[k2]).chunk.pos,
                forall|c: ChunkPos|
                    #[trigger] spec_dist2(c, pc) < self.unloading_distance && !has_chunk_at(
                        chunks@,
                        c,
                    ) && scanned(c, pc, r as int, iy as int, 0) ==> has_chunk_at(pending@, c),
            decreases side - iy,
        {
            let mut ix: u64 = 0;
            while ix < side
                invariant
                    self.wf(),
                    self.wf_chunks(chunks@),
                    pc == self.player_chunk,
                    r <= 0x1_0000,
                    r * r >= self.unloading_distance,
                    side == 2 * r + 1,
                    iy < side,
                    ix <= side,
                    lo == log0.len(),
                    lo <= pw.log@.len(),
                    pw.log@.subrange(0, lo) == log0,
                    forall|k: int|
                        0 <= k < pending@.len() ==> {
                            &&& self.wf_entity(#[trigger] pending@[k])
                            &&& pending@[k].chunk.state == ChunkState::Loaded
                            &&& spec_dist2(pending@[k].chunk.pos, pc) < self.unloading_distance
                            &&& !has_chunk_at(chunks@, pending@[k].chunk.pos)
                            &&& scanned(pending@[k].chunk.pos, pc, r as int, iy as int, ix as int)
                        },
                    forall|k1: int, k2: int|
                        0 <= k1 < k2 < pending@.len() ==> (#[trigger] pending@[k1]).chunk.pos != (
                        #[trigger] pending@[k2]).chunk.pos,
                    forall|c: ChunkPos|
                        #[trigger] spec_dist2(c, pc) < self.unloading_distance && !has_chunk_at(
                            chunks@,
                            c,
                        ) && scanned(c, pc, r as int, iy as int, ix as int) ==> has_chunk_at(
                            pending@,
                            c,
                        ),
                decreases side - ix,
            {
                let ghost pending_pre = pending@;
                let ghost log_pre = pw.log@;
                let cx: i64 = pc.x - (r as i64) + (ix as i64);
                let cy: i64 = pc.y - (r as i64) + (iy as i64);
                let c = ChunkPos { x: cx, y: cy };
                let d: i128 = distance_squared(&c, &pc);
                if d < self.unloading_distance as i128 && !crate::store::has_chunk_at_pos(
                    chunks,
                    &c,
                ) {
                    let rect = self.get_chunk_rect(&c);
                    let mut chunk = Chunk::new(c, rect);
                    chunk.load(&self.world_noise, self.threshold, self.chunk_size_in_tiles);
                    let mut body = ChunkBody::new(self.chunk_size_in_tiles, c);
                    let sync = body.load(
                        &chunk,
                        self.chunk_size_in_tiles,
                        self.tile_size_in_units,
                        pw,
                    );
                    proof {
                        assert(sync is Ok);
                        crate::body::lemma_count_solid_bounds(chunk_tiles(chunk));
                        assert(pw.log@.len() >= log_pre.len());
                        assert(pw.log@.subrange(0, lo) =~= log_pre.subrange(0, lo));
                    }
                    pending.push(ChunkEntity { chunk, body });
                    proof {
                        assert forall|k: int| 0 <= k < pending_pre.len() implies has_chunk_at(
                            pending@,
                            pending_pre[k].chunk.pos,
                        ) by {
                            assert(pending@[k] == pending_pre[k]);
                        }
                    }
                }
                ix += 1;
                proof {
                    assert forall|c2: ChunkPos|
                        #[trigger] spec_dist2(c2, pc) < self.unloading_distance && !has_chunk_at(
                            chunks@,
                            c2,
                        ) && scanned(c2, pc, r as int, iy as int, ix as int) implies has_chunk_at(
                        pending@,
                        c2,
                    ) by {
                        if scanned(c2, pc, r as int, iy as int, ix as int - 1) {
                            if has_chunk_at(pending_pre, c2) {
                                crate::store::lemma_has_chunk_at_grows(pending_pre, pending@, c2);
                            }
                        } else {
                            assert(c2 == c);
                            assert(pending@[pending@.len() - 1].chunk.pos == c);
                        }
                    }
                }
            }
            iy += 1;
            proof {
                assert forall|c2: ChunkPos|
                    #[trigger] spec_dist2(c2, pc) < self.unloading_distance && !has_chunk_at(
                        chunks@,
                        c2,
                    ) && scanned(c2, pc, r as int, iy as int, 0) implies has_chunk_at(
                    pending@,
                    c2,
                ) by {
                    assert(scanned(c2, pc, r as int, iy as int - 1, side as int));
                }
                assert forall|k: int| 0 <= k < pending@.len() implies scanned(
                    #[trigger] pending@[k].chunk.pos,
                    pc,
                    r as int,
                    iy as int,
                    0,
                ) by {
                    assert(scanned(pending@[k].chunk.pos, pc, r as int, iy as int - 1, side as int));
                }
            }
        }
        proof {
            assert forall|c2: ChunkPos|
                #[trigger] spec_dist2(c2, pc) < self.unloading_distance && !has_chunk_at(
                    chunks@,
                    c2,
                ) implies has_chunk_at(pending@, c2) by {
                lemma_in_range_in_square(
                    c2,
                    pc,
                    r as int,
                    self.unloading_distance as int,
                );
                assert(scanned(c2, pc, r as int, iy as int, 0));
            }
        }
        pending
    }

    /// How the load step acts on one stored chunk: a chunk inside the
    /// load band that is not yet loaded comes out loaded with its sampled
    /// tile grid and paired physics handles; any other chunk is
    /// untouched.
    pub open spec fn load_step_rel(&self, e1: ChunkEntity, e2: ChunkEntity) -> bool {
        if e1.chunk.state != ChunkState::Loaded && spec_dist2(e1.chunk.pos, self.player_chunk)
            < self.unloading_distance {
            &&& e2.chunk.pos == e1.chunk.pos
            &&& e2.chunk.rect == e1.chunk.rect
            &&& e2.chunk.state == ChunkState::Loaded
            &&& e2.chunk.matrix is Some
            &&& has_tile_grid(
                e2.chunk,
                self.world_noise.seed,
                self.threshold,
                self.chunk_size_in_tiles as int,
            )
            &&& e2.body.pos == e1.body.pos
            &&& e2.body.state == ChunkState::Loaded
            &&& e2.body.grids_wf(self.chunk_size_in_tiles as int)
            &&& e2.body.paired_with(chunk_tiles(e2.chunk))
        } else {
            e2 == e1
        }
    }

    /// Load step of the streaming pass: drives every stored chunk inside
    /// the load band to `Loaded` — tiles first, then monster
    /// reactivation, then physics bodies — and leaves the rest alone.
    pub fn load_pass(
        &self,
        chunks: &mut Vec<ChunkEntity>,
        monsters: &mut Vec<Monster>,
        pw: &mut PhysicsWorld,
    )
        requires
            self.wf(),
            self.wf_chunks(old(chunks)@),
        ensures
            final(chunks)@.len() == old(chunks)@.len(),
            forall|i: int|
                0 <= i < old(chunks)@.len() ==> self.load_step_rel(
                    old(chunks)@[i],
                    #[trigger] final(chunks)@[i],
                ),
            final(monsters)@ == activate_upto(
                old(monsters)@,
                old(chunks)@,
                self.player_chunk,
                self.unloading_distance,
                old(chunks)@.len() as int,
            ),
            final(pw).log@.len() >= old(pw).log@.len(),
            final(pw).log@.subrange(0, old(pw).log@.len() as int) == old(pw).log@,
    {
        let ghost cs0 = chunks@;
        let ghost ms0 = monsters@;
        let ghost log0 = pw.log@;
        let ghost lo = pw.log@.len() as int;
        let pc: ChunkPos = self.player_chunk;
        let n: usize = chunks.len();
        let mut i: usize = 0;
        while i < n
            invariant
                self.wf(),
                self.wf_chunks(cs0),
                pc == self.player_chunk,
                n == cs0.len(),
                chunks@.len() == n,
                i <= n,
                forall|j: int|
                    0 <= j < i ==> self.load_step_rel(cs0[j], #[trigger] chunks@[j]),
                forall|j: int| i <= j < n ==> chunks@[j] == cs0[j],
                monsters@ == activate_upto(
                    ms0,
                    cs0,
                    pc,
                    self.unloading_distance,
                    i as int,
                ),
                lo == log0.len(),
                lo <= pw.log@.len(),
                pw.log@.subrange(0, lo) == log0,
            decreases n - i,
        {
            let ghost ms_pre = monsters@;
            let ghost log_pre = pw.log@;
            let pos: ChunkPos = chunks[i].chunk.pos;
            let rect: WorldRect = chunks[i].chunk.rect;
            let was_loaded: bool = chunks[i].chunk.state == ChunkState::Loaded;
            proof {
                assert(self.wf_entity(cs0[i as int]));
            }
            let d: i128 = distance_squared(&pos, &pc);
            if d < self.unloading_distance as i128 && !was_loaded {
                let mut ch = Chunk::new(pos, rect);
                ch.load(&self.world_noise, self.threshold, self.chunk_size_in_tiles);
                set_monsters_active(monsters, &pos, true);
                let mut body = ChunkBody::new(self.chunk_size_in_tiles, pos);
                let sync = body.load(
                    &ch,
                    self.chunk_size_in_tiles,
                    self.tile_size_in_units,
                    pw,
                );
                proof {
                    assert(sync is Ok);
                    crate::body::lemma_count_solid_bounds(chunk_tiles(ch));
                    assert(pw.log@.len() >= log_pre.len());
                    assert(pw.log@.subrange(0, lo) =~= log_pre.subrange(0, lo));
                }
                chunks.set(i, ChunkEntity { chunk: ch, body });
                proof {
                    let target = activate_upto(
                        ms0,
                        cs0,
                        pc,
                        self.unloading_distance,
                        i as int + 1,
                    );
                    assert forall|j: int| 0 <= j < ms0.len() implies monsters@[j] == target[j] by {
                        assert(ms_pre[j].chunk == ms0[j].chunk);
                        if ms0[j].chunk == pos {
                            assert(loaded_transition_upto(
                                cs0,
                                ms0[j].chunk,
                                pc,
                                self.unloading_distance,
                                i as int + 1,
                            ));
                        } else {
                            assert(monsters@[j] == ms_pre[j]);
                            if loaded_transition_upto(
                                cs0,
                                ms0[j].chunk,
                                pc,
                                self.unloading_distance,
                                i as int + 1,
                            ) {
                                let w = choose|w: int|
                                    0 <= w < i as int + 1 && w < cs0.len() && (
                                    #[trigger] cs0[w]).chunk.pos == ms0[j].chunk
                                        && cs0[w].chunk.state == ChunkState::Unloaded && spec_dist2(
                                        cs0[w].chunk.pos,
                                        pc,
                                    ) < self.unloading_distance;
                                assert(w < i as int);
                            }
                        }
                    }
                    assert(monsters@ =~= target);
                }
            } else {
                proof {
                    let target = activate_upto(
                        ms0,
                        cs0,
                        pc,
                        self.unloading_distance,
                        i as int + 1,
                    );
                    assert forall|j: int| 0 <= j < ms0.len() implies monsters@[j] == target[j] by {
                        if loaded_transition_upto(
                            cs0,
                            ms0[j].chunk,
                            pc,
                            self.unloading_distance,
                            i as int + 1,
                        ) {
                            let w = choose|w: int|
                                0 <= w < i as int + 1 && w < cs0.len() && (
                                #[trigger] cs0[w]).chunk.pos == ms0[j].chunk && cs0[w].chunk.state
                                    == ChunkState::Unloaded && spec_dist2(cs0[w].chunk.pos, pc)
                                    < self.unloading_distance;
                            assert(w < i as int);
                        }
                    }
                    assert(monsters@ =~= target);
                }
            }
            i += 1;
        }
    }

    /// How the unload step acts on one stored chunk: a loaded chunk at
    /// or beyond the unload band comes out unloaded with its tile grid
    /// discarded and its physics handles removed; any other chunk is
    /// untouched.
    pub open spec fn unload_step_rel(&self, e1: ChunkEntity, e2: ChunkEntity) -> bool {
        if e1.chunk.state == ChunkState::Loaded && spec_dist2(e1.chunk.pos, self.player_chunk)
            >= self.unloading_distance {
            &&& e2.chunk.pos == e1.chunk.pos
            &&& e2.chunk.rect == e1.chunk.rect
            &&& e2.chunk.state == ChunkState::Unloaded
            &&& e2.chunk.matrix is None
            &&& e2.body.pos == e1.body.pos
            &&& e2.body.state == ChunkState::Unloaded
            &&& e2.body.grids_wf(self.chunk_size_in_tiles as int)
            &&& e2.body.all_clear()
        } else {
            e2 == e1
        }
    }

    /// Unload step of the streaming pass: drives every loaded chunk at
    /// or beyond the unload band to `Unloaded` — physics teardown, tile
    /// discard, monster deactivation — and leaves the rest alone.
    pub fn unload_pass(
        &self,
        chunks: &mut Vec<ChunkEntity>,
        monsters: &mut Vec<Monster>,
        pw: &mut PhysicsWorld,
    )
        requires
            self.wf(),
            self.wf_chunks(old(chunks)@),
        ensures
            final(chunks)@.len() == old(chunks)@.len(),
            forall|i: int|
                0 <= i < old(chunks)@.len() ==> self.unload_step_rel(
                    old(chunks)@[i],
                    #[trigger] final(chunks)@[i],
                ),
            final(monsters)@ == deactivate_upto(
                old(monsters)@,
                old(chunks)@,
                self.player_chunk,
                self.unloading_distance,
                old(chunks)@.len() as int,
            ),
            final(pw).log@.len() >= old(pw).log@.len(),
            final(pw).log@.subrange(0, old(pw).log@.len() as int) == old(pw).log@,
    {
        let ghost cs0 = chunks@;
        let ghost ms0 = monsters@;
        let ghost log0 = pw.log@;
        let ghost lo = pw.log@.len() as int;
        let pc: ChunkPos = self.player_chunk;
        let n: usize = chunks.len();
        let mut i: usize = 0;
        while i < n
            invariant
                self.wf(),
                self.wf_chunks(cs0),
                pc == self.player_chunk,
                n == cs0.len(),
                chunks@.len() == n,
                i <= n,
                forall|j: int|
                    0 <= j < i ==> self.unload_step_rel(cs0[j], #[trigger] chunks@[j]),
                forall|j: int| i <= j < n ==> chunks@[j] == cs0[j],
                monsters@ == deactivate_upto(
                    ms0,
                    cs0,
                    pc,
                    self.unloading_distance,
                    i as int,
                ),
                lo == log0.len(),
                lo <= pw.log@.len(),
                pw.log@.subrange(0, lo) == log0,
            decreases n - i,
        {
            let ghost ms_pre = monsters@;
            let ghost log_pre = pw.log@;
            let ghost chunks_pre = chunks@;
            let pos: ChunkPos = chunks[i].chunk.pos;
            let rect: WorldRect = chunks[i].chunk.rect;
            let was_loaded: bool = chunks[i].chunk.state == ChunkState::Loaded;
            proof {
                assert(self.wf_entity(cs0[i as int]));
            }
            let d: i128 = distance_squared(&pos, &pc);
            if d >= self.unloading_distance as i128 && was_loaded {
                let mut tmp = ChunkEntity {
                    chunk: Chunk::new(pos, rect),
                    body: ChunkBody::new(self.chunk_size_in_tiles, pos),
                };
                let e: &mut ChunkEntity = &mut chunks[i];
                core::mem::swap(e, &mut tmp);
                tmp.chunk.unload();
                proof {
                    let e1 = cs0[i as int];
                    let tiles = chunk_tiles(e1.chunk);
                    assert(e1.body.paired_with(tiles));
                    assert forall|j: int|
                        0 <= j < e1.body.body_handles.data@.len() implies ((
                    #[trigger] e1.body.body_handles.data@[j]) is Some
                        <==> e1.body.collider_handles.data@[j] is Some) by {
                        assert(e1.body.body_handles.data@[j] is Some <==> tiles[j] != 0u32);
                        assert(e1.body.collider_handles.data@[j] is Some <==> tiles[j] != 0u32);
                    }
                    assert(e1.body.handles_aligned());
                }
                tmp.body.unload(self.chunk_size_in_tiles, pw);
                proof {
                    crate::body::lemma_count_some_bounds(cs0[i as int].body.body_handles.data@);
                    assert(pw.log@.len() >= log_pre.len());
                    assert(pw.log@.subrange(0, lo) =~= log_pre.subrange(0, lo));
                }
                chunks.set(i, tmp);
                proof {
                    assert(chunks@ =~= chunks_pre.update(i as int, chunks@[i as int]));
                }
                set_monsters_active(monsters, &pos, false);
                proof {
                    let target = deactivate_upto(
                        ms0,
                        cs0,
                        pc,
                        self.unloading_distance,
                        i as int + 1,
                    );
                    assert forall|j: int| 0 <= j < ms0.len() implies monsters@[j] == target[j] by {
                        assert(ms_pre[j].chunk == ms0[j].chunk);
                        if ms0[j].chunk == pos {
                            assert(unload_transition_upto(
                                cs0,
                                ms0[j].chunk,
                                pc,
                                self.unloading_distance,
                                i as int + 1,
                            ));
                        } else {
                            assert(monsters@[j] == ms_pre[j]);
                            if unload_transition_upto(
                                cs0,
                                ms0[j].chunk,
                                pc,
                                self.unloading_distance,
                                i as int + 1,
                            ) {
                                let w = choose|w: int|
                                    0 <= w < i as int + 1 && w < cs0.len() && (
                                    #[trigger] cs0[w]).chunk.pos == ms0[j].chunk
                                        && cs0[w].chunk.state == ChunkState::Loaded && spec_dist2(
                                        cs0[w].chunk.pos,
                                        pc,
                                    ) >= self.unloading_distance;
                                assert(w < i as int);
                            }
                        }
                    }
                    assert(monsters@ =~= target);
                }
            } else {
                proof {
                    let target = deactivate_upto(
                        ms0,
                        cs0,
                        pc,
                        self.unloading_distance,
                        i as int + 1,
                    );
                    assert forall|j: int| 0 <= j < ms0.len() implies monsters@[j] == target[j] by {
                        if unload_transition_upto(
                            cs0,
                            ms0[j].chunk,
                            pc,
                            self.unloading_distance,
                            i as int + 1,
                        ) {
                            let w = choose|w: int|
                                0 <= w < i as int + 1 && w < cs0.len() && (
                                #[trigger] cs0[w]).chunk.pos == ms0[j].chunk && cs0[w].chunk.state
                                    == ChunkState::Loaded && spec_dist2(cs0[w].chunk.pos, pc)
                                    >= self.unloading_distance;
                            assert(w < i as int);
                        }
                    }
                    assert(monsters@ =~= target);
                }
            }
            i += 1;
        }
    }

    /// Eviction step of the streaming pass: destroys every monster whose
    /// coordinate is owned by a chunk at or beyond the freeing band, then
    /// removes those chunks from the store.
    pub fn free_pass(&self, chunks: &mut Vec<ChunkEntity>, monsters: &mut Vec<Monster>)
        requires
            self.wf(),
            forall|i: int|
                0 <= i < old(chunks)@.len() ==> in_coord_range(
                    (#[trigger] old(chunks)@[i]).chunk.pos,
                ),
        ensures
            final(chunks)@ == chunks_within(
                old(chunks)@,
                self.player_chunk,
                self.freeing_distance,
            ),
            final(monsters)@ == monsters_kept(
                old(monsters)@,
                old(chunks)@,
                self.player_chunk,
                self.freeing_distance,
            ),
    {
        let ghost cs0 = chunks@;
        let ghost ms0 = monsters@;
        let pc: ChunkPos = self.player_chunk;
        let fd: u32 = self.freeing_distance;

        // Destroy dependent monsters first, while every evicted chunk is
        // still visible in the store.
        let mut kept: Vec<Monster> = Vec::new();
        let mut j: usize = 0;
        let nm: usize = monsters.len();
        while j < nm
            invariant
                self.wf(),
                pc == self.player_chunk,
                fd == self.freeing_distance,
                chunks@ == cs0,
                forall|i: int|
                    0 <= i < cs0.len() ==> in_coord_range((#[trigger] cs0[i]).chunk.pos),
                nm == ms0.len(),
                monsters@ == ms0,
                j <= nm,
                kept@ == monsters_kept(ms0.take(j as int), cs0, pc, fd),
            decreases nm - j,
        {
            let m: Monster = monsters[j];
            proof {
                assert(ms0.take(j as int + 1).drop_last() =~= ms0.take(j as int));
                assert(ms0.take(j as int + 1).last() == ms0[j as int]);
            }
            if !is_freed_pos(chunks, &m.chunk, &pc, fd) {
                kept.push(m);
            }
            j += 1;
        }
        proof {
            assert(ms0.take(nm as int) =~= ms0);
        }
        *monsters = kept;

        // Then remove the evicted chunks themselves, in place.
        let mut k: usize = 0;
        let ghost mut pp: int = 0;
        while k < chunks.len()
            invariant
                self.wf(),
                pc == self.player_chunk,
                fd == self.freeing_distance,
                forall|i: int|
                    0 <= i < cs0.len() ==> in_coord_range((#[trigger] cs0[i]).chunk.pos),
                0 <= pp <= cs0.len(),
                k == chunks_within(cs0.take(pp), pc, fd).len(),
                chunks@ == chunks_within(cs0.take(pp), pc, fd) + cs0.skip(pp),
                k <= chunks@.len(),
            decreases cs0.len() - pp,
        {
            let ghost kept_pre = chunks_within(cs0.take(pp), pc, fd);
            proof {
                assert(chunks@.len() == kept_pre.len() + cs0.len() - pp);
                assert(chunks@[k as int] == cs0.skip(pp)[0]);
                assert(cs0.skip(pp)[0] == cs0[pp]);
                assert(cs0.take(pp + 1).drop_last() =~= cs0.take(pp));
                assert(cs0.take(pp + 1).last() == cs0[pp]);
            }
            let pos: ChunkPos = chunks[k].chunk.pos;
            let d: i128 = distance_squared(&pos, &pc);
            if d >= fd as i128 {
                chunks.remove(k);
                proof {
                    pp = pp + 1;
                    assert(chunks@ =~= chunks_within(cs0.take(pp), pc, fd) + cs0.skip(pp));
                }
            } else {
                k += 1;
                proof {
                    pp = pp + 1;
                    assert(chunks_within(cs0.take(pp), pc, fd) =~= kept_pre.push(cs0[pp - 1]));
                    assert(chunks@ =~= chunks_within(cs0.take(pp), pc, fd) + cs0.skip(pp));
                }
            }
        }
        proof {
            assert(pp == cs0.len());
            assert(cs0.take(pp) =~= cs0);
            assert(chunks@ =~= chunks_within(cs0, pc, fd));
        }
    }
}

/// Whether coordinate `c` is owned by a stored chunk at or beyond the
/// freeing band.
fn is_freed_pos(chunks: &Vec<ChunkEntity>, c: &ChunkPos, pc: &ChunkPos, fd: u32) -> (b: bool)
    requires
        in_player_range(*pc),
        forall|i: int|
            0 <= i < chunks@.len() ==> in_coord_range((#[trigger] chunks@[i]).chunk.pos),
    ensures
        b == freed_at(chunks@, *c, *pc, fd),
{
    let n: usize = chunks.len();
    let mut i: usize = 0;
    while i < n
        invariant
            in_player_range(*pc),
            forall|j: int|
                0 <= j < chunks@.len() ==> in_coord_range((#[trigger] chunks@[j]).chunk.pos),
            n == chunks@.len(),
            i <= n,
            !freed_upto(chunks@, *c, *pc, fd, i as int),
        decreases n - i,
    {
        let pos: ChunkPos = chunks[i].chunk.pos;
        if pos.x == c.x && pos.y == c.y {
            let d: i128 = distance_squared(&pos, pc);
            if d >= fd as i128 {
                return true;
            }
        }
        proof {
            assert forall|w: int|
                0 <= w < i as int + 1 && (#[trigger] chunks@[w]).chunk.pos == *c implies spec_dist2(
                chunks@[w].chunk.pos,
                *pc,
            ) < fd by {
                if w < i as int {
                    assert(!freed_upto(chunks@, *c, *pc, fd, i as int));
                }
            }
        }
        i += 1;
    }
    false
}

/// The unload transitions read the same before and after the load step:
/// loading only touches chunks strictly inside the load band.
proof fn lemma_unload_transition_translate(
    cm: ChunkManager,
    cs0: Seq<ChunkEntity>,
    cs1: Seq<ChunkEntity>,
    c: ChunkPos,
)
    requires
        cs1.len() == cs0.len(),
        forall|i: int| 0 <= i < cs0.len() ==> cm.load_step_rel(cs0[i], #[trigger] cs1[i]),
    ensures
        unload_transition_at(cs1, c, cm.player_chunk, cm.unloading_distance)
            == unload_transition_at(cs0, c, cm.player_chunk, cm.unloading_distance),
{
    let pc = cm.player_chunk;
    let ud = cm.unloading_distance;
    if unload_transition_at(cs1, c, pc, ud) {
        let w = choose|w: int|
            0 <= w < cs1.len() && (#[trigger] cs1[w]).chunk.pos == c && cs1[w].chunk.state
                == ChunkState::Loaded && spec_dist2(cs1[w].chunk.pos, pc) >= ud;
        assert(cm.load_step_rel(cs0[w], cs1[w]));
        assert(cs0[w] == cs1[w]);
        assert(unload_transition_at(cs0, c, pc, ud));
    }
    if unload_transition_at(cs0, c, pc, ud) {
        let w = choose|w: int|
            0 <= w < cs0.len() && (#[trigger] cs0[w]).chunk.pos == c && cs0[w].chunk.state
                == ChunkState::Loaded && spec_dist2(cs0[w].chunk.pos, pc) >= ud;
        assert(cm.load_step_rel(cs0[w], cs1[w]));
        assert(cs1[w] == cs0[w]);
        assert(unload_transition_at(cs1, c, pc, ud));
    }
}

/// Eviction judges only positions and distances, so any two chunk tables
/// with the same positions slot by slot agree on it.
proof fn lemma_freed_translate(
    s1: Seq<ChunkEntity>,
    s2: Seq<ChunkEntity>,
    c: ChunkPos,
    pc: ChunkPos,
    fd: u32,
)
    requires
        s1.len() == s2.len(),
        forall|i: int| 0 <= i < s1.len() ==> (#[trigger] s1[i]).chunk.pos == s2[i].chunk.pos,
    ensures
        freed_at(s1, c, pc, fd) == freed_at(s2, c, pc, fd),
{
    if freed_at(s1, c, pc, fd) {
        let w = choose|w: int|
            0 <= w < s1.len() && (#[trigger] s1[w]).chunk.pos == c && spec_dist2(
                s1[w].chunk.pos,
                pc,
            ) >= fd;
        assert(s2[w].chunk.pos == c);
        assert(freed_at(s2, c, pc, fd));
    }
    if freed_at(s2, c, pc, fd) {
        let w = choose|w: int|
            0 <= w < s2.len() && (#[trigger] s2[w]).chunk.pos == c && spec_dist2(
                s2[w].chunk.pos,
                pc,
            ) >= fd;
        assert(s1[w].chunk.pos == c);
        assert(freed_at(s1, c, pc, fd));
    }
}

/// Which monsters eviction keeps depends on the chunk table only through
/// which coordinates it evicts.
proof fn lemma_monsters_kept_congruent(
    ms: Seq<Monster>,
    s1: Seq<ChunkEntity>,
    s2: Seq<ChunkEntity>,
    pc: ChunkPos,
    fd: u32,
)
    requires
        forall|c: ChunkPos| #[trigger] freed_at(s1, c, pc, fd) == freed_at(s2, c, pc, fd),
    ensures
        monsters_kept(ms, s1, pc, fd) == monsters_kept(ms, s2, pc, fd),
    decreases ms.len(),
{
    if ms.len() > 0 {
        lemma_monsters_kept_congruent(ms.drop_last(), s1, s2, pc, fd);
        assert(freed_at(s1, ms.last().chunk, pc, fd) == freed_at(s2, ms.last().chunk, pc, fd));
    }
}

/// Every surviving chunk is one of the stored chunks, strictly inside
/// the freeing band; and every stored chunk strictly inside the band
/// survives.
proof fn lemma_chunks_within_membership(s: Seq<ChunkEntity>, pc: ChunkPos, fd: u32)
    ensures
        forall|k: int|
            0 <= k < chunks_within(s, pc, fd).len() ==> exists|i: int|
                0 <= i < s.len() && s[i] == #[trigger] chunks_within(s, pc, fd)[k] && spec_dist2(
                    s[i].chunk.pos,
                    pc,
                ) < fd,
        forall|i: int|
            0 <= i < s.len() && spec_dist2((#[trigger] s[i]).chunk.pos, pc) < fd ==> exists|k: int|
                0 <= k < chunks_within(s, pc, fd).len() && chunks_within(s, pc, fd)[k] == s[i],
    decreases s.len(),
{
    if s.len() > 0 {
        let d = s.drop_last();
        lemma_chunks_within_membership(d, pc, fd);
        let cw = chunks_within(s, pc, fd);
        let cwd = chunks_within(d, pc, fd);
        assert forall|k: int| 0 <= k < cw.len() implies exists|i: int|
            0 <= i < s.len() && s[i] == #[trigger] cw[k] && spec_dist2(s[i].chunk.pos, pc)
                < fd by {
            if k < cwd.len() {
                let i = choose|i: int|
                    0 <= i < d.len() && d[i] == #[trigger] cwd[k] && spec_dist2(
                        d[i].chunk.pos,
                        pc,
                    ) < fd;
                assert(s[i] == cw[k] && spec_dist2(s[i].chunk.pos, pc) < fd);
            } else {
                assert(cw[k] == s.last());
                assert(s[s.len() - 1] == cw[k] && spec_dist2(
                    s[s.len() - 1].chunk.pos,
                    pc,
                ) < fd);
            }
        }
        assert forall|i: int|
            0 <= i < s.len() && spec_dist2((#[trigger] s[i]).chunk.pos, pc) < fd implies exists|
            k: int,
        | 0 <= k < cw.len() && cw[k] == s[i] by {
            if i < s.len() - 1 {
                let k = choose|k: int| 0 <= k < cwd.len() && cwd[k] == d[i];
                assert(cw[k] == s[i]);
            } else {
                assert(cw[cw.len() - 1] == s[i]);
            }
        }
    }
}

impl ChunkManager {
    /// One full streaming pass, in the fixed per-frame order: observer
    /// tracking, monster tracking, promotion of missing in-band
    /// coordinates (born loaded), load, unload, eviction, and finally the
    /// flush of the deferred creations.
    ///
    /// Afterwards every coordinate within the load band has a loaded
    /// chunk; every surviving chunk at or beyond the load band is
    /// unloaded; no chunk at or beyond the freeing band survives, and no
    /// chunk inside it was destroyed; monsters are retagged, follow their
    /// chunk's transition, and are destroyed exactly with an evicted
    /// chunk; and the physics command log only grows.
    #[verifier::rlimit(100)]
    pub fn run(&mut self, world: &mut GameWorld, player_x: i32, player_y: i32)
        requires
            old(self).wf(),
            old(self).wf_chunks(old(world).chunks@),
        ensures
            ChunkManager::same_config(*old(self), *final(self)),
            final(self).wf(),
            final(self).player_chunk == spec_world_to_chunk(
                player_x as int,
                player_y as int,
                old(self).chunk_size_in_units as int,
            ),
            final(self).wf_chunks(final(world).chunks@),
            forall|c: ChunkPos|
                #[trigger] spec_dist2(c, final(self).player_chunk) < old(self).unloading_distance
                    ==> loaded_chunk_at(final(world).chunks@, c),
            forall|i: int|
                0 <= i < final(world).chunks@.len() && spec_dist2(
                    (#[trigger] final(world).chunks@[i]).chunk.pos,
                    final(self).player_chunk,
                ) >= old(self).unloading_distance ==> final(world).chunks@[i].chunk.state
                    == ChunkState::Unloaded,
            forall|i: int|
                0 <= i < final(world).chunks@.len() ==> spec_dist2(
                    (#[trigger] final(world).chunks@[i]).chunk.pos,
                    final(self).player_chunk,
                ) < old(self).freeing_distance,
            forall|i: int|
                0 <= i < old(world).chunks@.len() && spec_dist2(
                    (#[trigger] old(world).chunks@[i]).chunk.pos,
                    final(self).player_chunk,
                ) < old(self).freeing_distance ==> has_chunk_at(
                    final(world).chunks@,
                    old(world).chunks@[i].chunk.pos,
                ),
            forall|i: int|
                0 <= i < final(world).chunks@.len() ==> has_chunk_at(
                    old(world).chunks@,
                    (#[trigger] final(world).chunks@[i]).chunk.pos,
                ) || spec_dist2(final(world).chunks@[i].chunk.pos, final(self).player_chunk)
                    < old(self).unloading_distance,
            final(world).monsters@ == monsters_kept(
                streamed_all(
                    old(world).monsters@,
                    old(world).chunks@,
                    final(self).player_chunk,
                    old(self).chunk_size_in_units as int,
                    old(self).unloading_distance,
                ),
                old(world).chunks@,
                final(self).player_chunk,
                old(self).freeing_distance,
            ),
            final(world).physics.log@.len() >= old(world).physics.log@.len(),
            final(world).physics.log@.subrange(0, old(world).physics.log@.len() as int) == old(
                world,
            ).physics.log@,
    {
        let ghost cs0 = world.chunks@;
        let ghost ms0 = world.monsters@;
        let ghost log0 = world.physics.log@;
        let ghost lo = world.physics.log@.len() as int;
        let ud: u32 = self.unloading_distance;
        let fd: u32 = self.freeing_distance;

        // Step 1: observer tracking.
        let pc: ChunkPos = self.get_chunk_by_position(player_x, player_y);
        self.player_chunk = pc;

        // Step 2: dependent tracking.
        proof {
            assert(self.chunk_size_in_units >= 1) by (nonlinear_arith)
                requires
                    self.chunk_size_in_units == self.chunk_size_in_tiles as int
                        * self.tile_size_in_units as int,
                    self.chunk_size_in_tiles >= 1,
                    self.tile_size_in_units >= 1,
            ;
        }
        retag_monsters(&mut world.monsters, self.chunk_size_in_units);
        let ghost ms1 = world.monsters@;

        // Step 3: promotion; new chunks are born loaded, their insertion
        // into the store is deferred to the flush below.
        let mut pending = self.promote(&world.chunks, &mut world.physics);
        let ghost pend = pending@;
        let ghost log1 = world.physics.log@;

        // Step 4: load.
        self.load_pass(&mut world.chunks, &mut world.monsters, &mut world.physics);
        let ghost cs1 = world.chunks@;
        let ghost ms2 = world.monsters@;
        let ghost log2 = world.physics.log@;

        // Step 5: unload.
        self.unload_pass(&mut world.chunks, &mut world.monsters, &mut world.physics);
        let ghost cs2 = world.chunks@;
        let ghost ms3 = world.monsters@;
        let ghost log3 = world.physics.log@;

        // Positions never move within the table before eviction.
        proof {
            assert forall|i: int| 0 <= i < cs0.len() implies (#[trigger] cs2[i]).chunk.pos
                == cs0[i].chunk.pos && cs2[i].chunk.rect == cs0[i].chunk.rect by {
                assert(self.load_step_rel(cs0[i], cs1[i]));
                assert(self.unload_step_rel(cs1[i], cs2[i]));
            }
            assert forall|i: int| 0 <= i < cs2.len() implies self.wf_entity(
                #[trigger] cs2[i],
            ) by {
                assert(self.wf_entity(cs0[i]));
                assert(self.load_step_rel(cs0[i], cs1[i]));
                assert(self.unload_step_rel(cs1[i], cs2[i]));
            }
            assert(self.wf_chunks(cs2));
        }

        // Step 6: eviction.
        self.free_pass(&mut world.chunks, &mut world.monsters);
        let ghost cs3 = world.chunks@;

        // Flush: apply the deferred creations.
        world.chunks.append(&mut pending);

        proof {
            let csf = world.chunks@;
            assert(csf == cs3 + pend);
            lemma_chunks_within_membership(cs2, pc, fd);
            lemma_chunks_within_distinct(cs2, pc, fd);
            assert(cs3 == chunks_within(cs2, pc, fd));

            // The monster chain: retag, activate, deactivate, evict.
            assert forall|c: ChunkPos| #[trigger] unload_transition_at(cs1, c, pc, ud)
                == unload_transition_at(cs0, c, pc, ud) by {
                lemma_unload_transition_translate(*self, cs0, cs1, c);
            }
            let streamed = streamed_all(ms0, cs0, pc, self.chunk_size_in_units as int, ud);
            assert forall|j: int| 0 <= j < ms0.len() implies ms3[j] == streamed[j] by {
                let t = retag(ms0[j], self.chunk_size_in_units as int);
                assert(ms1[j] == t);
                assert(ms2[j] == activate_upto(ms1, cs0, pc, ud, cs0.len() as int)[j]);
                assert(ms3[j] == deactivate_upto(ms2, cs1, pc, ud, cs1.len() as int)[j]);
                assert(loaded_transition_upto(cs0, t.chunk, pc, ud, cs0.len() as int)
                    == loaded_transition_at(cs0, t.chunk, pc, ud));
                assert(unload_transition_upto(cs1, t.chunk, pc, ud, cs1.len() as int)
                    == unload_transition_at(cs1, t.chunk, pc, ud));
                if loaded_transition_at(cs0, t.chunk, pc, ud) && unload_transition_at(
                    cs0,
                    t.chunk,
                    pc,
                    ud,
                ) {
                    let wl = choose|w: int|
                        0 <= w < cs0.len() && (#[trigger] cs0[w]).chunk.pos == t.chunk
                            && cs0[w].chunk.state == ChunkState::Unloaded && spec_dist2(
                            cs0[w].chunk.pos,
                            pc,
                        ) < ud;
                    let wu = choose|w: int|
                        0 <= w < cs0.len() && (#[trigger] cs0[w]).chunk.pos == t.chunk
                            && cs0[w].chunk.state == ChunkState::Loaded && spec_dist2(
                            cs0[w].chunk.pos,
                            pc,
                        ) >= ud;
                    assert(false);
                }
            }
            assert(ms3 =~= streamed);
            assert forall|c: ChunkPos| #[trigger] freed_at(cs2, c, pc, fd) == freed_at(
                cs0,
                c,
                pc,
                fd,
            ) by {
                lemma_freed_translate(cs2, cs0, c, pc, fd);
            }
            lemma_monsters_kept_congruent(ms3, cs2, cs0, pc, fd);
            assert(world.monsters@ == monsters_kept(streamed, cs0, pc, fd));

            // Survivors and newcomers make a consistent store.
            assert forall|i: int| 0 <= i < csf.len() implies self.wf_entity(
                #[trigger] csf[i],
            ) by {
                if i < cs3.len() {
                    assert(csf[i] == cs3[i]);
                    let w = choose|w: int|
                        0 <= w < cs2.len() && cs2[w] == #[trigger] cs3[i] && spec_dist2(
                            cs2[w].chunk.pos,
                            pc,
                        ) < fd;
                    assert(self.wf_entity(cs2[w]));
                } else {
                    assert(csf[i] == pend[i - cs3.len()]);
                }
            }
            assert forall|i: int, j: int| 0 <= i < j < csf.len() implies (
            #[trigger] csf[i]).chunk.pos != (#[trigger] csf[j]).chunk.pos by {
                if j < cs3.len() {
                    assert(cs3[i].chunk.pos != cs3[j].chunk.pos);
                } else if i >= cs3.len() {
                    assert(csf[i] == pend[i - cs3.len()]);
                    assert(csf[j] == pend[j - cs3.len()]);
                } else {
                    assert(csf[j] == pend[j - cs3.len()]);
                    assert(!has_chunk_at(cs0, pend[j - cs3.len()].chunk.pos));
                    let w = choose|w: int|
                        0 <= w < cs2.len() && cs2[w] == #[trigger] cs3[i] && spec_dist2(
                            cs2[w].chunk.pos,
                            pc,
                        ) < fd;
                    assert(cs3[i].chunk.pos == cs0[w].chunk.pos);
                    if csf[i].chunk.pos == csf[j].chunk.pos {
                        assert(has_chunk_at(cs0, pend[j - cs3.len()].chunk.pos));
                        assert(false);
                    }
                }
            }

            // Every coordinate inside the load band carries a loaded
            // chunk.
            assert forall|c: ChunkPos| #[trigger] spec_dist2(c, pc) < ud implies loaded_chunk_at(
                csf,
                c,
            ) by {
                if has_chunk_at(cs0, c) {
                    let w = choose|w: int|
                        0 <= w < cs0.len() && (#[trigger] cs0[w]).chunk.pos == c;
                    assert(self.load_step_rel(cs0[w], cs1[w]));
                    assert(self.unload_step_rel(cs1[w], cs2[w]));
                    assert(cs2[w].chunk.state == ChunkState::Loaded);
                    assert(spec_dist2(cs2[w].chunk.pos, pc) < fd);
                    let k = choose|k: int| 0 <= k < cs3.len() && cs3[k] == cs2[w];
                    assert(csf[k] == cs3[k]);
                    assert(csf[k].chunk.pos == c && csf[k].chunk.state == ChunkState::Loaded);
                } else {
                    assert(has_chunk_at(pend, c));
                    let k = choose|k: int|
                        0 <= k < pend.len() && (#[trigger] pend[k]).chunk.pos == c;
                    assert(csf[cs3.len() + k] == pend[k]);
                    assert(csf[cs3.len() + k].chunk.pos == c && csf[cs3.len() + k].chunk.state
                        == ChunkState::Loaded);
                }
            }

            // Surviving chunks at or beyond the load band are unloaded,
            // and all survivors are inside the freeing band.
            assert forall|i: int| 0 <= i < csf.len() implies (spec_dist2(
                (#[trigger] csf[i]).chunk.pos,
                pc,
            ) >= ud ==> csf[i].chunk.state == ChunkState::Unloaded) && spec_dist2(
                csf[i].chunk.pos,
                pc,
            ) < fd && (has_chunk_at(cs0, csf[i].chunk.pos) || spec_dist2(csf[i].chunk.pos, pc)
                < ud) by {
                if i < cs3.len() {
                    let w = choose|w: int|
                        0 <= w < cs2.len() && cs2[w] == #[trigger] cs3[i] && spec_dist2(
                            cs2[w].chunk.pos,
                            pc,
                        ) < fd;
                    assert(self.load_step_rel(cs0[w], cs1[w]));
                    assert(self.unload_step_rel(cs1[w], cs2[w]));
                    assert(cs0[w].chunk.pos == csf[i].chunk.pos);
                } else {
                    assert(csf[i] == pend[i - cs3.len()]);
                }
            }

            // Nothing inside the freeing band was destroyed.
            assert forall|i: int|
                0 <= i < cs0.len() && spec_dist2((#[trigger] cs0[i]).chunk.pos, pc)
                    < fd implies has_chunk_at(csf, cs0[i].chunk.pos) by {
                assert(self.load_step_rel(cs0[i], cs1[i]));
                assert(self.unload_step_rel(cs1[i], cs2[i]));
                assert(cs2[i].chunk.pos == cs0[i].chunk.pos);
                let k = choose|k: int| 0 <= k < cs3.len() && cs3[k] == cs2[i];
                assert(csf[k] == cs3[k]);
                assert(csf[k].chunk.pos == cs0[i].chunk.pos);
            }

            // The command log only grew.
            assert(log1.subrange(0, lo) == log0);
            assert(log2.subrange(0, lo) =~= log1.subrange(0, lo));
            assert(log3.subrange(0, lo) =~= log2.subrange(0, lo));
            assert(world.physics.log@ == log3);
        }
    }
}

/// Eviction leaves a store untouched when nothing in it lies at or
/// beyond the freeing band.
pub proof fn lemma_chunks_within_identity(s: Seq<ChunkEntity>, pc: ChunkPos, fd: u32)
    requires
        forall|i: int| 0 <= i < s.len() ==> spec_dist2((#[trigger] s[i]).chunk.pos, pc) < fd,
    ensures
        chunks_within(s, pc, fd) == s,
    decreases s.len(),
{
    if s.len() > 0 {
        lemma_chunks_within_identity(s.drop_last(), pc, fd);
        assert(chunks_within(s, pc, fd) =~= s);
    }
}

/// Eviction destroys no monster when nothing in the store lies at or
/// beyond the freeing band.
pub proof fn lemma_monsters_kept_identity(
    ms: Seq<Monster>,
    s: Seq<ChunkEntity>,
    pc: ChunkPos,
    fd: u32,
)
    requires
        forall|i: int| 0 <= i < s.len() ==> spec_dist2((#[trigger] s[i]).chunk.pos, pc) < fd,
    ensures
        monsters_kept(ms, s, pc, fd) == ms,
    decreases ms.len(),
{
    if ms.len() > 0 {
        lemma_monsters_kept_identity(ms.drop_last(), s, pc, fd);
        if freed_at(s, ms.last().chunk, pc, fd) {
            let w = choose|w: int|
                0 <= w < s.len() && (#[trigger] s[w]).chunk.pos == ms.last().chunk && spec_dist2(
                    s[w].chunk.pos,
                    pc,
                ) >= fd;
            assert(false);
        }
        assert(monsters_kept(ms, s, pc, fd) =~= ms);
    }
}

/// Evicting twice is the same as evicting once: the survivors of one
/// eviction all lie inside the freeing band, so a second pass changes
/// nothing.
pub proof fn lemma_free_idempotent(s: Seq<ChunkEntity>, pc: ChunkPos, fd: u32)
    ensures
        chunks_within(chunks_within(s, pc, fd), pc, fd) == chunks_within(s, pc, fd),
{
    lemma_chunks_within_membership(s, pc, fd);
    assert forall|i: int| 0 <= i < chunks_within(s, pc, fd).len() implies spec_dist2(
        (#[trigger] chunks_within(s, pc, fd)[i]).chunk.pos,
        pc,
    ) < fd by {
        let w = choose|w: int|
            0 <= w < s.len() && s[w] == #[trigger] chunks_within(s, pc, fd)[i] && spec_dist2(
                s[w].chunk.pos,
                pc,
            ) < fd;
    }
    lemma_chunks_within_identity(chunks_within(s, pc, fd), pc, fd);
}

/// Eviction keeps stored positions distinct.
proof fn lemma_chunks_within_distinct(s: Seq<ChunkEntity>, pc: ChunkPos, fd: u32)
    requires
        forall|i: int, j: int|
            0 <= i < j < s.len() ==> (#[trigger] s[i]).chunk.pos != (#[trigger] s[j]).chunk.pos,
    ensures
        forall|k1: int, k2: int|
            0 <= k1 < k2 < chunks_within(s, pc, fd).len() ==> (#[trigger] chunks_within(
                s,
                pc,
                fd,
            )[k1]).chunk.pos != (#[trigger] chunks_within(s, pc, fd)[k2]).chunk.pos,
    decreases s.len(),
{
    if s.len() > 0 {
        let d = s.drop_last();
        lemma_chunks_within_distinct(d, pc, fd);
        lemma_chunks_within_membership(d, pc, fd);
        let cw = chunks_within(s, pc, fd);
        let cwd = chunks_within(d, pc, fd);
        assert forall|k1: int, k2: int| 0 <= k1 < k2 < cw.len() implies (
        #[trigger] cw[k1]).chunk.pos != (#[trigger] cw[k2]).chunk.pos by {
            if k2 < cwd.len() {
                assert(cwd[k1].chunk.pos != cwd[k2].chunk.pos);
            } else {
                assert(cw[k2] == s.last());
                let i = choose|i: int|
                    0 <= i < d.len() && d[i] == #[trigger] cwd[k1] && spec_dist2(
                        d[i].chunk.pos,
                        pc,
                    ) < fd;
                assert(s[i].chunk.pos != s[s.len() - 1].chunk.pos);
            }
        }
    }
}

} // verus!

