//! Grid addressing: chunk coordinates, squared distances, and the mapping
//! between world positions (integer world units) and chunk coordinates.

use vstd::prelude::*;

verus! {

/// Chunk coordinates reachable from any `i32` world position, with head
/// room for the promotion scan around the observer.
pub const COORD_LIMIT: i64 = 0x1_0000_0000;

/// Coordinate of a cell in the infinite chunk grid.
#[derive(Clone, Copy, Debug, PartialEq, Eq, Hash, Structural)]
pub struct ChunkPos {
    pub x: i64,
    pub y: i64,
}

/// Axis-aligned rectangle in integer world units.
#[derive(Clone, Copy, Debug, PartialEq, Eq, Structural)]
pub struct WorldRect {
    pub x: i64,
    pub y: i64,
    pub w: i64,
    pub h: i64,
}

/// Every coordinate the streaming pass can produce stays well inside
/// `i64`, so later arithmetic on coordinates cannot overflow.
pub open spec fn in_coord_range(p: ChunkPos) -> bool {
    -COORD_LIMIT <= p.x <= COORD_LIMIT && -COORD_LIMIT <= p.y <= COORD_LIMIT
}

/// A coordinate computed from an `i32` world position: tight enough that
/// the promotion scan around it stays within `in_coord_range`.
pub open spec fn in_player_range(p: ChunkPos) -> bool {
    -0x8000_0000 <= p.x <= 0x8000_0000 && -0x8000_0000 <= p.y <= 0x8000_0000
}

/// Squared Euclidean distance between two chunk coordinates.
pub open spec fn spec_dist2(a: ChunkPos, b: ChunkPos) -> int {
    (a.x - b.x) * (a.x - b.x) + (a.y - b.y) * (a.y - b.y)
}

/// Squared distance as an exact machine integer.
pub fn distance_squared(a: &ChunkPos, b: &ChunkPos) -> (d: i128)
    requires
        in_coord_range(*a),
        in_coord_range(*b),
    ensures
        d == spec_dist2(*a, *b),
        d >= 0,
{
    let dx: i64 = a.x - b.x;
    let dy: i64 = a.y - b.y;
    proof {
        lemma_square_bounds(dx as int);
        lemma_square_bounds(dy as int);
    }
    let sx: i128 = (dx as i128) * (dx as i128);
    let sy: i128 = (dy as i128) * (dy as i128);
    sx + sy
}

/// A square is non-negative and, for the coordinate differences that can
/// occur here, small enough that two of them fit in `i128`.
proof fn lemma_square_bounds(d: int)
    requires
        -0x2_0000_0000 <= d <= 0x2_0000_0000,
    ensures
        0 <= d * d <= 0x4_0000_0000_0000_0000,
{
    assert(0 <= d * d <= 0x4_0000_0000_0000_0000) by (nonlinear_arith)
        requires
            -0x2_0000_0000 <= d <= 0x2_0000_0000,
    ;
}

/// The chunk coordinate covering world position `(px, py)`: floor of the
/// position divided by the chunk size in world units, per axis.
pub open spec fn spec_world_to_chunk(px: int, py: int, csu: int) -> ChunkPos {
    ChunkPos { x: (px / csu) as i64, y: (py / csu) as i64 }
}

/// Floor division of a world coordinate by the (positive) chunk size.
fn floor_div_units(p: i32, csu: u32) -> (q: i64)
    requires
        csu >= 1,
    ensures
        q == p as int / csu as int,
        -0x8000_0000 <= q <= 0x8000_0000,
{
    let r: Option<i64> = (p as i64).checked_div_euclid(csu as i64);
    proof {
        lemma_floor_div_bounded(p as int, csu as int);
    }
    r.unwrap()
}

/// For a divisor of at least one, the floored quotient of an `i32` stays
/// within `i32`-sized bounds.
proof fn lemma_floor_div_bounded(p: int, csu: int)
    requires
        csu >= 1,
        -0x8000_0000 <= p <= 0x7fff_ffff,
    ensures
        -0x8000_0000 <= p / csu <= 0x8000_0000,
{
    let q = p / csu;
    let r = p % csu;
    vstd::arithmetic::div_mod::lemma_fundamental_div_mod(p, csu);
    assert(0 <= r < csu);
    assert(p == csu * q + r);
    if q > 0x8000_0000 {
        assert(csu * q >= q) by (nonlinear_arith)
            requires
                csu >= 1,
                q > 0,
        ;
        assert(false);
    }
    if q < -0x8000_0000 {
        assert(csu * q + csu <= q + 1) by (nonlinear_arith)
            requires
                csu >= 1,
                q + 1 <= 0,
        ;
        assert(false);
    }
}

/// The chunk coordinate whose cell contains the world position.
pub fn world_to_chunk(px: i32, py: i32, csu: u32) -> (c: ChunkPos)
    requires
        csu >= 1,
    ensures
        c == spec_world_to_chunk(px as int, py as int, csu as int),
        in_player_range(c),
        in_coord_range(c),
    {
    ChunkPos { x: floor_div_units(px, csu), y: floor_div_units(py, csu) }
}

/// World position of tile `(tx, ty)` of the chunk at `pos`: the global
/// tile coordinate scaled by the tile size.
pub open spec fn spec_tile_position(
    pos: ChunkPos,
    tx: int,
    ty: int,
    cs: int,
    ts: int,
) -> (int, int) {
    ((pos.x * cs + tx) * ts, (pos.y * cs + ty) * ts)
}

/// World position of one tile of a chunk, exact in integer world units.
pub fn calculate_tile_position(
    pos: &ChunkPos,
    tx: u16,
    ty: u16,
    cs: u8,
    ts: u16,
) -> (w: (i64, i64))
    requires
        in_coord_range(*pos),
        tx <= cs as u16,
        ty <= cs as u16,
    ensures
        (w.0 as int, w.1 as int) == spec_tile_position(
            *pos,
            tx as int,
            ty as int,
            cs as int,
            ts as int,
        ),
        -0x4000_0000_0000_0000 < w.0 < 0x4000_0000_0000_0000,
        -0x4000_0000_0000_0000 < w.1 < 0x4000_0000_0000_0000,
{
    proof {
        lemma_tile_position_bounded(pos.x as int, tx as int, cs as int, ts as int);
        lemma_tile_position_bounded(pos.y as int, ty as int, cs as int, ts as int);
    }
    let gx: i64 = pos.x * (cs as i64) + (tx as i64);
    let gy: i64 = pos.y * (cs as i64) + (ty as i64);
    (gx * (ts as i64), gy * (ts as i64))
}

/// Global tile coordinates and tile world positions stay far from the
/// `i64` boundaries for in-range chunk coordinates.
pub proof fn lemma_tile_position_bounded(c: int, t: int, cs: int, ts: int)
    requires
        -COORD_LIMIT <= c <= COORD_LIMIT,
        0 <= t <= cs,
        0 <= cs < 0x100,
        0 <= ts < 0x1_0000,
    ensures
        -0x100_0000_0000 <= c * cs <= 0x100_0000_0000,
        -0x100_0000_0100 <= c * cs + t <= 0x100_0000_0100,
        -0x4000_0000_0000_0000 < (c * cs + t) * ts < 0x4000_0000_0000_0000,
{
    assert(-0x100_0000_0000 <= c * cs <= 0x100_0000_0000) by (nonlinear_arith)
        requires
            -0x1_0000_0000 <= c <= 0x1_0000_0000,
            0 <= cs < 0x100,
    ;
    assert(-0x100_0000_0100 <= c * cs + t <= 0x100_0000_0100) by (nonlinear_arith)
        requires
            -0x1_0000_0000 <= c <= 0x1_0000_0000,
            0 <= t <= cs,
            0 <= cs < 0x100,
    ;
    assert(-0x4000_0000_0000_0000 < (c * cs + t) * ts < 0x4000_0000_0000_0000)
        by (nonlinear_arith)
        requires
            -0x100_0000_0100 <= c * cs + t <= 0x100_0000_0100,
            0 <= ts < 0x1_0000,
    ;
}

/// The smallest radius whose square covers the given squared distance.
pub fn ceil_sqrt(d: u32) -> (r: u32)
    ensures
        r * r >= d,
        r > 0 ==> (r - 1) * (r - 1) < d,
        r <= 0x1_0000,
{
    let mut lo: u32 = 0;
    let mut hi: u32 = 0x1_0000;
    proof {
        assert((0x1_0000u32 as int) * (0x1_0000u32 as int) >= d as int);
    }
    while lo < hi
        invariant
            lo <= hi <= 0x1_0000,
            hi * hi >= d,
            lo > 0 ==> (lo - 1) * (lo - 1) < d,
        decreases hi - lo,
    {
        let mid: u32 = lo + (hi - lo) / 2;
        proof {
            assert((mid as int) * (mid as int) <= 0x1_0000_0000) by (nonlinear_arith)
                requires
                    mid <= 0x1_0000,
            ;
        }
        let sq: u64 = (mid as u64) * (mid as u64);
        if sq >= d as u64 {
            hi = mid;
        } else {
            lo = mid + 1;
        }
    }
    lo
}

} // verus!
