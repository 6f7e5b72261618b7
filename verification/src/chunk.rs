//! Chunks: residency state machine and deterministic tile materialization.

use vstd::prelude::*;

use crate::common::{lemma_cell_in_range, Matrix};
use crate::coords::{in_coord_range, ChunkPos, WorldRect};
use crate::field::{spec_tile, NoiseField};

verus! {

/// Residency of a chunk.
///
/// `Loaded`: tiles are materialized and dependent entities run.
/// `Unloaded`: the chunk entity exists without tiles; dependents are off.
/// `Freed`: the coordinate is not materialized at all; a stored chunk is
/// never in this state, it only appears between creation and first load.
#[derive(Clone, Copy, Debug, PartialEq, Eq, Structural)]
pub enum ChunkState {
    Loaded,
    Unloaded,
    Freed,
}

/// The transitions the chunk state machine allows in one step: staying
/// put, first load, reload, and unload. `Freed` is never re-entered.
pub open spec fn chunk_step(s1: ChunkState, s2: ChunkState) -> bool {
    ||| s1 == s2
    ||| (s1 == ChunkState::Freed && s2 == ChunkState::Loaded)
    ||| (s1 == ChunkState::Unloaded && s2 == ChunkState::Loaded)
    ||| (s1 == ChunkState::Loaded && s2 == ChunkState::Unloaded)
}

/// Once a chunk has left `Freed` it never shows that state again: a step
/// that ends in `Freed` must have started there.
pub proof fn lemma_chunk_step_never_refreed(s1: ChunkState, s2: ChunkState)
    requires
        chunk_step(s1, s2),
        s2 == ChunkState::Freed,
    ensures
        s1 == ChunkState::Freed,
{
}

/// Along any sequence of allowed steps, `Freed` never reappears once
/// left: the observable state history is a subsequence of
/// `Freed, Loaded, Unloaded, Loaded, ...` up to destruction.
pub proof fn lemma_state_sequence_never_refreed(states: Seq<ChunkState>)
    requires
        forall|i: int|
            0 <= i < states.len() - 1 ==> chunk_step(#[trigger] states[i], states[i + 1]),
    ensures
        forall|i: int, j: int|
            0 <= i <= j < states.len() && (#[trigger] states[i]) != ChunkState::Freed ==> (
            #[trigger] states[j]) != ChunkState::Freed,
    decreases states.len(),
{
    if states.len() > 1 {
        lemma_state_sequence_never_refreed(states.drop_last());
        assert forall|i: int, j: int|
            0 <= i <= j < states.len() && (#[trigger] states[i]) != ChunkState::Freed implies (
            #[trigger] states[j]) != ChunkState::Freed by {
            if j == states.len() - 1 && i < j {
                assert(states.drop_last()[i] == states[i]);
                assert(states.drop_last()[j - 1] == states[j - 1]);
                assert(states[j - 1] != ChunkState::Freed);
                assert(chunk_step(states[j - 1], states[j]));
                if states[j] == ChunkState::Freed {
                    lemma_chunk_step_never_refreed(states[j - 1], states[j]);
                }
            }
        }
    }
}

/// A cell of the infinite tile grid, one unit wider and taller per chunk
/// than the nominal chunk size so that neighboring chunks share an edge.
/// `tx`, `ty` index the chunk-local grid; the sample coordinate is the
/// global tile coordinate, so neighbors agree on shared cells.
pub open spec fn spec_chunk_tile(
    seed: u64,
    threshold: u32,
    pos: ChunkPos,
    cs: int,
    tx: int,
    ty: int,
) -> u32 {
    spec_tile(seed, threshold, (pos.x * cs + tx) as i64, (pos.y * cs + ty) as i64)
}

/// The full tile grid of a chunk, row-major, `(cs + 1)` cells per side.
pub open spec fn spec_tile_grid(seed: u64, threshold: u32, pos: ChunkPos, cs: int) -> Seq<u32> {
    Seq::new(
        ((cs + 1) * (cs + 1)) as nat,
        |i: int| spec_chunk_tile(seed, threshold, pos, cs, i % (cs + 1), i / (cs + 1)),
    )
}

/// The tile sequence a chunk currently materializes: its grid when
/// loaded, empty otherwise.
pub open spec fn chunk_tiles(c: Chunk) -> Seq<u32> {
    match c.matrix {
        Some(m) => m.data@,
        None => Seq::empty(),
    }
}

/// A fixed-size cell of the world, addressed by chunk coordinate.
#[derive(Clone, Debug, PartialEq)]
pub struct Chunk {
    pub pos: ChunkPos,
    pub matrix: Option<Matrix<u32>>,
    pub state: ChunkState,
    /// World-space footprint, derived once from `pos`.
    pub rect: WorldRect,
}

/// The chunk carries exactly the tile grid that sampling the field at its
/// coordinate produces, sized one cell wider and taller than the chunk.
pub open spec fn has_tile_grid(c: Chunk, seed: u64, threshold: u32, cs: int) -> bool {
    match c.matrix {
        Some(m) => {
            &&& m.wf()
            &&& m.width == cs + 1
            &&& m.height == cs + 1
            &&& m.data@ == spec_tile_grid(seed, threshold, c.pos, cs)
        },
        None => false,
    }
}

impl Chunk {
    /// A fresh, not yet materialized chunk at `pos`.
    pub fn new(pos: ChunkPos, rect: WorldRect) -> (c: Chunk)
        ensures
            c.pos == pos,
            c.rect == rect,
            c.state == ChunkState::Freed,
            c.matrix is None,
    {
        Chunk { pos, matrix: None, state: ChunkState::Freed, rect }
    }

    /// Materializes the tile grid by sampling the field once per cell of
    /// the extended `(cs + 1)` by `(cs + 1)` grid.
    pub fn gen_matrix(&self, field: &NoiseField, threshold: u32, cs: u8) -> (m: Matrix<u32>)
        requires
            in_coord_range(self.pos),
        ensures
            m.wf(),
            m.width == cs + 1,
            m.height == cs + 1,
            m.data@ == spec_tile_grid(field.seed, threshold, self.pos, cs as int),
    {
        let w: usize = cs as usize + 1;
        proof {
            assert(w * w <= 0x1_0000) by (nonlinear_arith)
                requires
                    w <= 0x100,
            ;
        }
        let n: usize = w * w;
        let ghost grid = spec_tile_grid(field.seed, threshold, self.pos, cs as int);
        assert(grid.len() == n);
        let mut data: Vec<u32> = Vec::new();
        while data.len() < n
            invariant
                in_coord_range(self.pos),
                w == cs + 1,
                n == w * w,
                grid == spec_tile_grid(field.seed, threshold, self.pos, cs as int),
                grid.len() == n,
                data@.len() <= n,
                forall|j: int| 0 <= j < data@.len() ==> data@[j] == grid[j],
            decreases n - data@.len(),
        {
            let k: usize = data.len();
            let x: usize = k % w;
            let y: usize = k / w;
            proof {
                vstd::arithmetic::div_mod::lemma_fundamental_div_mod(k as int, w as int);
                if k as int / w as int >= w as int {
                    assert((w as int) * (k as int / w as int) >= (w as int) * (w as int))
                        by (nonlinear_arith)
                        requires
                            w as int >= 1,
                            k as int / w as int >= w as int,
                    ;
                    assert(false);
                }
                lemma_cell_in_range(w as int, w as int, x as int, y as int);
                crate::coords::lemma_tile_position_bounded(
                    self.pos.x as int,
                    x as int,
                    cs as int,
                    1,
                );
                crate::coords::lemma_tile_position_bounded(
                    self.pos.y as int,
                    y as int,
                    cs as int,
                    1,
                );
            }
            let gx: i64 = self.pos.x * (cs as i64) + (x as i64);
            let gy: i64 = self.pos.y * (cs as i64) + (y as i64);
            let tile: u32 = field.tile_at(threshold, gx, gy);
            data.push(tile);
        }
        assert(data@ =~= grid);
        Matrix { data, height: w, width: w }
    }

    /// Drives the chunk to `Loaded`, regenerating its tile grid; loading
    /// an already loaded chunk changes nothing.
    pub fn load(&mut self, field: &NoiseField, threshold: u32, cs: u8)
        requires
            in_coord_range(old(self).pos),
        ensures
            final(self).pos == old(self).pos,
            final(self).rect == old(self).rect,
            chunk_step(old(self).state, final(self).state),
            old(self).state == ChunkState::Loaded ==> *final(self) == *old(self),
            old(self).state != ChunkState::Loaded ==> {
                &&& final(self).state == ChunkState::Loaded
                &&& has_tile_grid(*final(self), field.seed, threshold, cs as int)
            },
    {
        if self.state == ChunkState::Loaded {
            return ;
        }
        let matrix = self.gen_matrix(field, threshold, cs);
        self.matrix = Some(matrix);
        self.state = ChunkState::Loaded;
    }

    /// Drives the chunk to `Unloaded`, discarding its tile grid;
    /// unloading a chunk that is not loaded changes nothing.
    pub fn unload(&mut self)
        ensures
            final(self).pos == old(self).pos,
            final(self).rect == old(self).rect,
            chunk_step(old(self).state, final(self).state),
            old(self).state != ChunkState::Loaded ==> *final(self) == *old(self),
            old(self).state == ChunkState::Loaded ==> {
                &&& final(self).state == ChunkState::Unloaded
                &&& final(self).matrix is None
            },
    {
        if self.state != ChunkState::Loaded {
            return ;
        }
        self.matrix = None;
        self.state = ChunkState::Unloaded;
    }
}

/// Two chunks one step apart along the x axis compute identical tile
/// values along their shared vertical edge: the right-hand column of the
/// left chunk equals the left-hand column of the right chunk, row by row,
/// because both sample the field at the same global tile coordinate.
pub proof fn lemma_seam_consistency_x(
    seed: u64,
    threshold: u32,
    p: ChunkPos,
    q: ChunkPos,
    cs: int,
)
    requires
        cs >= 1,
        q.x == p.x + 1,
        q.y == p.y,
    ensures
        forall|ty: int|
            0 <= ty <= cs ==> #[trigger] spec_tile_grid(seed, threshold, p, cs)[ty * (cs + 1)
                + cs] == spec_tile_grid(seed, threshold, q, cs)[ty * (cs + 1)],
{
    assert forall|ty: int| 0 <= ty <= cs implies #[trigger] spec_tile_grid(
        seed,
        threshold,
        p,
        cs,
    )[ty * (cs + 1) + cs] == spec_tile_grid(seed, threshold, q, cs)[ty * (cs + 1)] by {
        lemma_seam_cell(seed, threshold, p, q, cs, ty);
    }
}

/// One cell of the shared vertical edge, spelled out.
proof fn lemma_seam_cell(seed: u64, threshold: u32, p: ChunkPos, q: ChunkPos, cs: int, ty: int)
    requires
        cs >= 1,
        q.x == p.x + 1,
        q.y == p.y,
        0 <= ty <= cs,
    ensures
        spec_tile_grid(seed, threshold, p, cs)[ty * (cs + 1) + cs] == spec_tile_grid(
            seed,
            threshold,
            q,
            cs,
        )[ty * (cs + 1)],
{
    let w = cs + 1;
    lemma_cell_in_range(w, w, cs, ty);
    lemma_cell_in_range(w, w, 0, ty);
    vstd::arithmetic::div_mod::lemma_fundamental_div_mod_converse(ty * w + cs, w, ty, cs);
    vstd::arithmetic::div_mod::lemma_fundamental_div_mod_converse(ty * w, w, ty, 0);
    assert(spec_tile_grid(seed, threshold, p, cs)[ty * w + cs] == spec_chunk_tile(
        seed,
        threshold,
        p,
        cs,
        cs,
        ty,
    ));
    assert(spec_tile_grid(seed, threshold, q, cs)[ty * w] == spec_chunk_tile(
        seed,
        threshold,
        q,
        cs,
        0,
        ty,
    ));
    assert(p.x * cs + cs == q.x * cs + 0) by (nonlinear_arith)
        requires
            q.x == p.x + 1,
    ;
}

/// The horizontal counterpart: the bottom row of the chunk at `p` equals
/// the top row of the chunk directly below it, column by column.
pub proof fn lemma_seam_consistency_y(
    seed: u64,
    threshold: u32,
    p: ChunkPos,
    q: ChunkPos,
    cs: int,
)
    requires
        cs >= 1,
        q.x == p.x,
        q.y == p.y + 1,
    ensures
        forall|tx: int|
            0 <= tx <= cs ==> #[trigger] spec_tile_grid(seed, threshold, p, cs)[cs * (cs + 1)
                + tx] == spec_tile_grid(seed, threshold, q, cs)[tx],
{
    assert forall|tx: int| 0 <= tx <= cs implies #[trigger] spec_tile_grid(
        seed,
        threshold,
        p,
        cs,
    )[cs * (cs + 1) + tx] == spec_tile_grid(seed, threshold, q, cs)[tx] by {
        let w = cs + 1;
        lemma_cell_in_range(w, w, tx, cs);
        lemma_cell_in_range(w, w, tx, 0);
        vstd::arithmetic::div_mod::lemma_fundamental_div_mod_converse(cs * w + tx, w, cs, tx);
        vstd::arithmetic::div_mod::lemma_fundamental_div_mod_converse(tx, w, 0, tx);
        assert(p.y * cs + cs == q.y * cs + 0) by (nonlinear_arith)
            requires
                q.y == p.y + 1,
        ;
    }
}

} // verus!
