//! Physics synchronization of a chunk: one fixed body and one collider
//! per solid tile, kept in lockstep with the chunk's residency state.

use vstd::multiset::Multiset;
use vstd::prelude::*;

use crate::chunk::{chunk_step, chunk_tiles, Chunk, ChunkState};
use crate::common::Matrix;
use crate::coords::{in_coord_range, spec_tile_position, ChunkPos};
use crate::physics::{BodyType, PhysicsCommand, PhysicsWorld};

verus! {

/// Synchronizing physics for a chunk whose tile grid is not materialized
/// yet is a logic error: tile generation must run first.
#[derive(Clone, Copy, Debug, PartialEq, Eq, Structural)]
pub enum SyncError {
    TilesNotMaterialized,
}

/// How many tiles of a row-major tile sequence are solid (non-zero).
pub open spec fn count_solid(s: Seq<u32>) -> int
    decreases s.len(),
{
    if s.len() == 0 {
        0
    } else {
        count_solid(s.drop_last()) + if s.last() != 0u32 {
            1int
        } else {
            0int
        }
    }
}

/// How many entries of a handle sequence are present.
pub open spec fn count_some(s: Seq<Option<u64>>) -> int
    decreases s.len(),
{
    if s.len() == 0 {
        0
    } else {
        count_some(s.drop_last()) + if s.last() is Some {
            1int
        } else {
            0int
        }
    }
}

proof fn lemma_count_solid_push(s: Seq<u32>, e: u32)
    ensures
        count_solid(s.push(e)) == count_solid(s) + (if e != 0u32 {
            1int
        } else {
            0int
        }),
{
    assert(s.push(e).drop_last() =~= s);
    assert(s.push(e).last() == e);
}

proof fn lemma_count_some_push(s: Seq<Option<u64>>, e: Option<u64>)
    ensures
        count_some(s.push(e)) == count_some(s) + (if e is Some {
            1int
        } else {
            0int
        }),
{
    assert(s.push(e).drop_last() =~= s);
    assert(s.push(e).last() == e);
}

/// A solid-tile count lies between zero and the sequence length.
pub proof fn lemma_count_solid_bounds(s: Seq<u32>)
    ensures
        0 <= count_solid(s) <= s.len(),
    decreases s.len(),
{
    if s.len() > 0 {
        lemma_count_solid_bounds(s.drop_last());
    }
}

/// A present-handle count lies between zero and the sequence length.
pub proof fn lemma_count_some_bounds(s: Seq<Option<u64>>)
    ensures
        0 <= count_some(s) <= s.len(),
    decreases s.len(),
{
    if s.len() > 0 {
        lemma_count_some_bounds(s.drop_last());
    }
}

/// The handles recorded in a grid, in cell order.
pub open spec fn recorded_handles(s: Seq<Option<u64>>) -> Seq<u64>
    decreases s.len(),
{
    if s.len() == 0 {
        Seq::empty()
    } else {
        let rest = recorded_handles(s.drop_last());
        match s.last() {
            Some(h) => rest.push(h),
            None => rest,
        }
    }
}

proof fn lemma_recorded_handles_push(s: Seq<Option<u64>>, e: Option<u64>)
    ensures
        recorded_handles(s.push(e)) == (match e {
            Some(h) => recorded_handles(s).push(h),
            None => recorded_handles(s),
        }),
{
    assert(s.push(e).drop_last() =~= s);
    assert(s.push(e).last() == e);
}

/// The live multiset after removing, cell by cell, one occurrence of
/// each recorded handle that is present; handles not recorded in the
/// grid keep their multiplicity.
pub open spec fn remove_recorded(m: Multiset<u64>, s: Seq<Option<u64>>) -> Multiset<u64>
    decreases s.len(),
{
    if s.len() == 0 {
        m
    } else {
        let m2 = remove_recorded(m, s.drop_last());
        match s.last() {
            Some(h) => if m2.count(h) > 0 {
                m2.remove(h)
            } else {
                m2
            },
            None => m2,
        }
    }
}

proof fn lemma_remove_recorded_push(m: Multiset<u64>, s: Seq<Option<u64>>, e: Option<u64>)
    ensures
        remove_recorded(m, s.push(e)) == (match e {
            Some(h) => if remove_recorded(m, s).count(h) > 0 {
                remove_recorded(m, s).remove(h)
            } else {
                remove_recorded(m, s)
            },
            None => remove_recorded(m, s),
        }),
{
    assert(s.push(e).drop_last() =~= s);
    assert(s.push(e).last() == e);
}

/// When handles are present exactly at the solid tiles, there are as
/// many handles as solid tiles.
pub proof fn lemma_paired_counts(handles: Seq<Option<u64>>, tiles: Seq<u32>)
    requires
        handles.len() == tiles.len(),
        forall|k: int| 0 <= k < tiles.len() ==> ((#[trigger] handles[k]) is Some <==> tiles[k]
            != 0u32),
    ensures
        count_some(handles) == count_solid(tiles),
    decreases tiles.len(),
{
    if tiles.len() > 0 {
        lemma_paired_counts(handles.drop_last(), tiles.drop_last());
    }
}

/// The logged command creates one fixed body of the given geometry under
/// exactly the handles recorded in the grids.
pub open spec fn matches_create(
    c: PhysicsCommand,
    x: int,
    y: int,
    size: u16,
    bh: Option<u64>,
    ch: Option<u64>,
) -> bool {
    match (c, bh, ch) {
        (
            PhysicsCommand::CreateBody { x: cx, y: cy, size: csize, shape, body, collider },
            Some(b),
            Some(cc),
        ) => {
            &&& cx == x
            &&& cy == y
            &&& csize == size
            &&& shape == BodyType::Rect
            &&& body == b
            &&& collider == cc
        },
        _ => false,
    }
}

/// Somewhere at or after position `lo`, the log creates the body of cell
/// `j` of the chunk at `pos`: a fixed body at the cell's world position,
/// under the handles recorded for that cell.
pub open spec fn create_cmd_logged(
    log: Seq<PhysicsCommand>,
    lo: int,
    pos: ChunkPos,
    cs: int,
    ts: u16,
    j: int,
    bh: Option<u64>,
    ch: Option<u64>,
) -> bool {
    exists|i: int|
        lo <= i < log.len() && matches_create(
            #[trigger] log[i],
            spec_tile_position(pos, j % (cs + 1), j / (cs + 1), cs, ts as int).0,
            spec_tile_position(pos, j % (cs + 1), j / (cs + 1), cs, ts as int).1,
            ts,
            bh,
            ch,
        )
}

/// A creation already present in the log stays present when the log
/// grows at the end.
proof fn lemma_create_cmd_logged_grows(
    log1: Seq<PhysicsCommand>,
    log2: Seq<PhysicsCommand>,
    lo: int,
    pos: ChunkPos,
    cs: int,
    ts: u16,
    j: int,
    bh: Option<u64>,
    ch: Option<u64>,
)
    requires
        0 <= lo,
        create_cmd_logged(log1, lo, pos, cs, ts, j, bh, ch),
        log1.len() <= log2.len(),
        forall|i: int| 0 <= i < log1.len() ==> (#[trigger] log2[i]) == log1[i],
    ensures
        create_cmd_logged(log2, lo, pos, cs, ts, j, bh, ch),
{
    let i = choose|i: int|
        lo <= i < log1.len() && matches_create(
            #[trigger] log1[i],
            spec_tile_position(pos, j % (cs + 1), j / (cs + 1), cs, ts as int).0,
            spec_tile_position(pos, j % (cs + 1), j / (cs + 1), cs, ts as int).1,
            ts,
            bh,
            ch,
        );
    assert(matches_create(
        log2[i],
        spec_tile_position(pos, j % (cs + 1), j / (cs + 1), cs, ts as int).0,
        spec_tile_position(pos, j % (cs + 1), j / (cs + 1), cs, ts as int).1,
        ts,
        bh,
        ch,
    ));
}

/// The removal command for a recorded body handle.
pub open spec fn remove_of(h: Option<u64>) -> PhysicsCommand {
    match h {
        Some(b) => PhysicsCommand::RemoveBody { body: b },
        None => PhysicsCommand::RemoveBody { body: 0 },
    }
}

/// Somewhere at or after position `lo`, the log removes the given body.
pub open spec fn remove_cmd_logged(log: Seq<PhysicsCommand>, lo: int, h: Option<u64>) -> bool {
    exists|i: int| lo <= i < log.len() && #[trigger] log[i] == remove_of(h)
}

/// A removal already present in the log stays present when the log
/// grows at the end.
proof fn lemma_remove_cmd_logged_grows(
    log1: Seq<PhysicsCommand>,
    log2: Seq<PhysicsCommand>,
    lo: int,
    h: Option<u64>,
)
    requires
        0 <= lo,
        remove_cmd_logged(log1, lo, h),
        log1.len() <= log2.len(),
        forall|i: int| 0 <= i < log1.len() ==> (#[trigger] log2[i]) == log1[i],
    ensures
        remove_cmd_logged(log2, lo, h),
{
    let i = choose|i: int| lo <= i < log1.len() && #[trigger] log1[i] == remove_of(h);
    assert(log2[i] == remove_of(h));
}

/// The entity-local mirror of a chunk's tile grid in the physics world:
/// per tile cell an optional rigid-body handle and an optional collider
/// handle, present only while the chunk is loaded.
#[derive(Clone, Debug, PartialEq)]
pub struct ChunkBody {
    pub pos: ChunkPos,
    pub state: ChunkState,
    pub body_handles: Matrix<Option<u64>>,
    pub collider_handles: Matrix<Option<u64>>,
}

impl ChunkBody {
    /// Both handle grids cover the chunk's extended tile extent.
    pub open spec fn grids_wf(&self, cs: int) -> bool {
        &&& self.body_handles.wf()
        &&& self.body_handles.width == cs + 1
        &&& self.body_handles.height == cs + 1
        &&& self.collider_handles.wf()
        &&& self.collider_handles.width == cs + 1
        &&& self.collider_handles.height == cs + 1
    }

    /// No handle is recorded anywhere.
    pub open spec fn all_clear(&self) -> bool {
        &&& forall|k: int|
            0 <= k < self.body_handles.data@.len() ==> (#[trigger] self.body_handles.data@[k])
                is None
        &&& forall|k: int|
            0 <= k < self.collider_handles.data@.len()
                ==> (#[trigger] self.collider_handles.data@[k]) is None
    }

    /// Handles are recorded exactly at the solid cells of `tiles`.
    pub open spec fn paired_with(&self, tiles: Seq<u32>) -> bool {
        &&& self.body_handles.data@.len() == tiles.len()
        &&& self.collider_handles.data@.len() == tiles.len()
        &&& forall|k: int|
            0 <= k < tiles.len() ==> ((#[trigger] self.body_handles.data@[k]) is Some <==> tiles[k]
                != 0u32)
        &&& forall|k: int|
            0 <= k < tiles.len() ==> ((#[trigger] self.collider_handles.data@[k]) is Some
                <==> tiles[k] != 0u32)
    }

    /// Body and collider handles are recorded at exactly the same
    /// cells: the grids hold one pair per solid tile.
    pub open spec fn handles_aligned(&self) -> bool {
        &&& self.collider_handles.data@.len() == self.body_handles.data@.len()
        &&& forall|k: int|
            0 <= k < self.body_handles.data@.len() ==> ((#[trigger] self.body_handles.data@[k])
                is Some <==> self.collider_handles.data@[k] is Some)
    }

    /// A fresh mirror with empty handle grids.
    pub fn new(cs: u8, pos: ChunkPos) -> (b: ChunkBody)
        ensures
            b.pos == pos,
            b.state == ChunkState::Freed,
            b.grids_wf(cs as int),
            b.all_clear(),
    {
        let w: usize = cs as usize + 1;
        proof {
            assert(w * w <= 0x1_0000) by (nonlinear_arith)
                requires
                    w <= 0x100,
            ;
        }
        ChunkBody {
            pos,
            state: ChunkState::Freed,
            body_handles: Matrix::new(w, w, None),
            collider_handles: Matrix::new(w, w, None),
        }
    }

    /// Materializes one fixed body and one collider per solid tile of
    /// the parent chunk, recording the returned handles cell by cell and
    /// logging every creation. Running before the chunk's tiles exist is
    /// reported as an error; loading an already loaded mirror changes
    /// nothing.
    pub fn load(
        &mut self,
        chunk: &Chunk,
        cs: u8,
        ts: u16,
        pw: &mut PhysicsWorld,
    ) -> (r: Result<(), SyncError>)
        requires
            old(self).grids_wf(cs as int),
            old(self).pos == chunk.pos,
            in_coord_range(chunk.pos),
            match chunk.matrix {
                Some(m) => m.wf() && m.width == cs + 1 && m.height == cs + 1,
                None => true,
            },
        ensures
            final(self).pos == old(self).pos,
            final(self).grids_wf(cs as int),
            chunk_step(old(self).state, final(self).state),
            old(self).state == ChunkState::Loaded ==> r is Ok && *final(self) == *old(self)
                && *final(pw) == *old(pw),
            old(self).state != ChunkState::Loaded && chunk.matrix is None ==> r == Err::<
                (),
                SyncError,
            >(SyncError::TilesNotMaterialized) && *final(self) == *old(self) && *final(pw) == *old(
                pw,
            ),
            old(self).state != ChunkState::Loaded && chunk.matrix is Some ==> {
                let tiles = chunk_tiles(*chunk);
                let applied = final(pw).log@;
                let lo = old(pw).log@.len() as int;
                &&& r is Ok
                &&& final(self).state == ChunkState::Loaded
                &&& final(self).paired_with(tiles)
                &&& count_some(final(self).body_handles.data@) == count_solid(tiles)
                &&& count_some(final(self).collider_handles.data@) == count_solid(tiles)
                &&& final(pw).bodies@ == old(pw).bodies@ + recorded_handles(
                    final(self).body_handles.data@,
                )
                &&& final(pw).colliders@ == old(pw).colliders@ + recorded_handles(
                    final(self).collider_handles.data@,
                )
                &&& final(pw).bodies@.len() == old(pw).bodies@.len() + count_solid(tiles)
                &&& final(pw).colliders@.len() == old(pw).colliders@.len() + count_solid(tiles)
                &&& applied.len() == lo + count_solid(tiles)
                &&& applied.subrange(0, lo) == old(pw).log@
                &&& forall|j: int|
                    lo <= j < applied.len() ==> (#[trigger] applied[j]) is CreateBody
                &&& forall|j: int|
                    0 <= j < tiles.len() && (#[trigger] tiles[j]) != 0u32 ==> create_cmd_logged(
                        applied,
                        lo,
                        chunk.pos,
                        cs as int,
                        ts,
                        j,
                        final(self).body_handles.data@[j],
                        final(self).collider_handles.data@[j],
                    )
            },
    {
        if self.state == ChunkState::Loaded {
            return Ok(());
        }
        let m = match &chunk.matrix {
            Some(m) => m,
            None => {
                return Err(SyncError::TilesNotMaterialized);
            },
        };
        let w: usize = cs as usize + 1;
        let n: usize = m.data.len();
        let ghost tiles = m.data@;
        let ghost pw0 = *pw;
        let ghost lo = pw0.log@.len() as int;
        let mut bodies_data: Vec<Option<u64>> = Vec::new();
        let mut colliders_data: Vec<Option<u64>> = Vec::new();
        proof {
            assert(pw.bodies@ =~= pw0.bodies@ + recorded_handles(bodies_data@));
            assert(pw.colliders@ =~= pw0.colliders@ + recorded_handles(colliders_data@));
        }
        let mut k: usize = 0;
        while k < n
            invariant
                w == cs + 1,
                n == tiles.len(),
                n == w * w,
                tiles == m.data@,
                in_coord_range(chunk.pos),
                self.pos == chunk.pos,
                lo == pw0.log@.len(),
                k <= n,
                bodies_data@.len() == k,
                colliders_data@.len() == k,
                forall|j: int|
                    0 <= j < k ==> ((#[trigger] bodies_data@[j]) is Some <==> tiles[j] != 0u32),
                forall|j: int|
                    0 <= j < k ==> ((#[trigger] colliders_data@[j]) is Some <==> tiles[j] != 0u32),
                pw.bodies@.len() == pw0.bodies@.len() + count_solid(tiles.take(k as int)),
                pw.colliders@.len() == pw0.colliders@.len() + count_solid(tiles.take(k as int)),
                pw.bodies@ == pw0.bodies@ + recorded_handles(bodies_data@),
                pw.colliders@ == pw0.colliders@ + recorded_handles(colliders_data@),
                pw.log@.len() == lo + count_solid(tiles.take(k as int)),
                lo <= pw.log@.len(),
                pw.log@.subrange(0, lo) == pw0.log@,
                forall|j: int| lo <= j < pw.log@.len() ==> (#[trigger] pw.log@[j]) is CreateBody,
                forall|j: int|
                    0 <= j < k && (#[trigger] tiles[j]) != 0u32 ==> create_cmd_logged(
                        pw.log@,
                        lo,
                        chunk.pos,
                        cs as int,
                        ts,
                        j,
                        bodies_data@[j],
                        colliders_data@[j],
                    ),
            decreases n - k,
        {
            let ghost log_pre = pw.log@;
            let ghost bodies_pre = bodies_data@;
            let ghost colliders_pre = colliders_data@;
            let x: usize = k % w;
            let y: usize = k / w;
            proof {
                vstd::arithmetic::div_mod::lemma_fundamental_div_mod(k as int, w as int);
                if k as int / w as int >= w as int {
                    assert((w as int) * (k as int / w as int) >= (w as int) * (w as int))
                        by (nonlinear_arith)
                        requires
                            w as int >= 1,
                            k as int / w as int >= w as int,
                    ;
                    assert(false);
                }
                lemma_count_solid_push(tiles.take(k as int), tiles[k as int]);
                assert(tiles.take(k as int).push(tiles[k as int]) =~= tiles.take(k as int + 1));
            }
            let tile: u32 = m.data[k];
            if tile != 0 {
                let (wx, wy) = crate::coords::calculate_tile_position(
                    &self.pos,
                    x as u16,
                    y as u16,
                    cs,
                    ts,
                );
                let h = pw.insert_fixed(wx, wy, ts, BodyType::Rect);
                bodies_data.push(Some(h.0));
                colliders_data.push(Some(h.1));
                proof {
                    lemma_recorded_handles_push(bodies_pre, Some(h.0));
                    lemma_recorded_handles_push(colliders_pre, Some(h.1));
                    assert(pw.bodies@ =~= pw0.bodies@ + recorded_handles(bodies_data@));
                    assert(pw.colliders@ =~= pw0.colliders@ + recorded_handles(colliders_data@));
                    assert(pw.log@.subrange(0, lo) =~= log_pre.subrange(0, lo));
                    assert(matches_create(
                        pw.log@[pw.log@.len() - 1],
                        spec_tile_position(
                            chunk.pos,
                            k as int % (cs + 1),
                            k as int / (cs + 1),
                            cs as int,
                            ts as int,
                        ).0,
                        spec_tile_position(
                            chunk.pos,
                            k as int % (cs + 1),
                            k as int / (cs + 1),
                            cs as int,
                            ts as int,
                        ).1,
                        ts,
                        bodies_data@[k as int],
                        colliders_data@[k as int],
                    ));
                }
            } else {
                bodies_data.push(None);
                colliders_data.push(None);
                proof {
                    lemma_recorded_handles_push(bodies_pre, None);
                    lemma_recorded_handles_push(colliders_pre, None);
                }
            }
            proof {
                assert forall|j: int|
                    0 <= j < k as int + 1 && (#[trigger] tiles[j]) != 0u32 implies create_cmd_logged(
                    pw.log@,
                    lo,
                    chunk.pos,
                    cs as int,
                    ts,
                    j,
                    bodies_data@[j],
                    colliders_data@[j],
                ) by {
                    if j < k as int {
                        lemma_create_cmd_logged_grows(
                            log_pre,
                            pw.log@,
                            lo,
                            chunk.pos,
                            cs as int,
                            ts,
                            j,
                            bodies_pre[j],
                            colliders_pre[j],
                        );
                    }
                }
            }
            k += 1;
        }
        proof {
            assert(tiles.take(n as int) =~= tiles);
            lemma_paired_counts(bodies_data@, tiles);
            lemma_paired_counts(colliders_data@, tiles);
        }
        self.body_handles = Matrix { data: bodies_data, height: w, width: w };
        self.collider_handles = Matrix { data: colliders_data, height: w, width: w };
        self.state = ChunkState::Loaded;
        Ok(())
    }

    /// Removes every recorded body and collider from the physics world,
    /// logging each removal, and resets both grids to all-`None`.
    /// Exactly the recorded handles leave the live sets — one occurrence
    /// each, where present — so every other body and collider keeps its
    /// multiplicity. Unloading a mirror that is not loaded changes
    /// nothing.
    pub fn unload(&mut self, cs: u8, pw: &mut PhysicsWorld)
        requires
            old(self).grids_wf(cs as int),
            old(self).state == ChunkState::Loaded ==> old(self).handles_aligned(),
        ensures
            final(self).pos == old(self).pos,
            final(self).grids_wf(cs as int),
            chunk_step(old(self).state, final(self).state),
            old(self).state != ChunkState::Loaded ==> *final(self) == *old(self) && *final(pw)
                == *old(pw),
            old(self).state == ChunkState::Loaded ==> {
                let handles = old(self).body_handles.data@;
                let chandles = old(self).collider_handles.data@;
                let applied = final(pw).log@;
                let lo = old(pw).log@.len() as int;
                &&& final(self).state == ChunkState::Unloaded
                &&& final(self).all_clear()
                &&& final(pw).bodies@.to_multiset() == remove_recorded(
                    old(pw).bodies@.to_multiset(),
                    handles,
                )
                &&& final(pw).colliders@.to_multiset() == remove_recorded(
                    old(pw).colliders@.to_multiset(),
                    chandles,
                )
                &&& final(pw).bodies@.len() <= old(pw).bodies@.len()
                &&& final(pw).colliders@.len() <= old(pw).colliders@.len()
                &&& applied.len() == lo + count_some(handles)
                &&& applied.subrange(0, lo) == old(pw).log@
                &&& forall|j: int|
                    lo <= j < applied.len() ==> (#[trigger] applied[j]) is RemoveBody
                &&& forall|k: int|
                    0 <= k < handles.len() && (#[trigger] handles[k]) is Some ==> remove_cmd_logged(
                        applied,
                        lo,
                        handles[k],
                    )
            },
    {
        if self.state != ChunkState::Loaded {
            return ;
        }
        let ghost handles = self.body_handles.data@;
        let ghost chandles = self.collider_handles.data@;
        let ghost pw0 = *pw;
        let ghost lo = pw0.log@.len() as int;
        let n: usize = self.body_handles.data.len();
        let mut k: usize = 0;
        while k < n
            invariant
                n == handles.len(),
                handles == self.body_handles.data@,
                chandles == self.collider_handles.data@,
                chandles.len() == handles.len(),
                forall|j: int|
                    0 <= j < n ==> ((#[trigger] handles[j]) is Some <==> chandles[j] is Some),
                lo == pw0.log@.len(),
                k <= n,
                lo <= pw.log@.len(),
                pw.bodies@.len() <= pw0.bodies@.len(),
                pw.colliders@.len() <= pw0.colliders@.len(),
                pw.bodies@.to_multiset() == remove_recorded(
                    pw0.bodies@.to_multiset(),
                    handles.take(k as int),
                ),
                pw.colliders@.to_multiset() == remove_recorded(
                    pw0.colliders@.to_multiset(),
                    chandles.take(k as int),
                ),
                pw.log@.len() == lo + count_some(handles.take(k as int)),
                pw.log@.subrange(0, lo) == pw0.log@,
                forall|j: int| lo <= j < pw.log@.len() ==> (#[trigger] pw.log@[j]) is RemoveBody,
                forall|j: int|
                    0 <= j < k && (#[trigger] handles[j]) is Some ==> remove_cmd_logged(
                        pw.log@,
                        lo,
                        handles[j],
                    ),
            decreases n - k,
        {
            let ghost log_pre = pw.log@;
            let ghost bodies_pre_seq = pw.bodies@;
            let ghost colliders_pre_seq = pw.colliders@;
            proof {
                lemma_count_some_push(handles.take(k as int), handles[k as int]);
                assert(handles.take(k as int).push(handles[k as int]) =~= handles.take(
                    k as int + 1,
                ));
                assert(chandles.take(k as int).push(chandles[k as int]) =~= chandles.take(
                    k as int + 1,
                ));
                lemma_remove_recorded_push(
                    pw0.bodies@.to_multiset(),
                    handles.take(k as int),
                    handles[k as int],
                );
                lemma_remove_recorded_push(
                    pw0.colliders@.to_multiset(),
                    chandles.take(k as int),
                    chandles[k as int],
                );
                bodies_pre_seq.to_multiset_ensures();
                colliders_pre_seq.to_multiset_ensures();
            }
            let bh: Option<u64> = self.body_handles.data[k];
            let ch: Option<u64> = self.collider_handles.data[k];
            match (bh, ch) {
                (Some(b), Some(c)) => {
                    pw.remove_body(b, c);
                    proof {
                        assert(pw.log@.subrange(0, lo) =~= log_pre.subrange(0, lo));
                    }
                },
                (None, None) => {},
                _ => {
                    // The grids record one pair per solid tile, so a
                    // cell never holds only half a pair.
                    proof {
                        assert(false);
                    }
                },
            }
            proof {
                assert forall|j: int|
                    0 <= j < k as int + 1 && (#[trigger] handles[j]) is Some implies remove_cmd_logged(
                    pw.log@,
                    lo,
                    handles[j],
                ) by {
                    if j < k as int {
                        lemma_remove_cmd_logged_grows(log_pre, pw.log@, lo, handles[j]);
                    } else {
                        assert(pw.log@[pw.log@.len() - 1] == remove_of(handles[j]));
                    }
                }
            }
            k += 1;
        }
        proof {
            assert(handles.take(n as int) =~= handles);
            assert(chandles.take(n as int) =~= chandles);
        }
        let w: usize = cs as usize + 1;
        proof {
            assert(w * w <= 0x1_0000) by (nonlinear_arith)
                requires
                    w <= 0x100,
            ;
        }
        self.body_handles = Matrix::new(w, w, None);
        self.collider_handles = Matrix::new(w, w, None);
        self.state = ChunkState::Unloaded;
    }
}

} // verus!
