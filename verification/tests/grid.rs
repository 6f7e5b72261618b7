use chunkstream::common::Matrix;
use chunkstream::coords::{
    calculate_tile_position, ceil_sqrt, distance_squared, world_to_chunk, ChunkPos,
};
use chunkstream::field::NoiseField;
use chunkstream::physics::{surface_type_to_bit, SurfaceType};

#[test]
fn matrix_new_fills_default() {
    let m: Matrix<u32> = Matrix::new(3, 2, 7);
    assert_eq!(m.width, 3);
    assert_eq!(m.height, 2);
    assert_eq!(m.data.len(), 6);
    for x in 0..3 {
        for y in 0..2 {
            assert_eq!(m.get(x, y), Some(7));
        }
    }
}

#[test]
fn matrix_get_out_of_bounds_is_none() {
    let m: Matrix<u32> = Matrix::new(3, 2, 0);
    assert_eq!(m.get(3, 0), None);
    assert_eq!(m.get(0, 2), None);
    assert!(m.in_bounds(2, 1));
    assert!(!m.in_bounds(3, 1));
}

#[test]
fn matrix_set_writes_in_bounds_only() {
    let mut m: Matrix<u32> = Matrix::new(3, 2, 0);
    assert!(m.set(1, 1, 9));
    assert_eq!(m.get(1, 1), Some(9));
    assert_eq!(m.get(0, 1), Some(0));
    assert!(!m.set(5, 0, 9));
    assert_eq!(m.data, vec![0, 0, 0, 0, 9, 0]);
}

#[test]
fn matrix_get_mut_updates_one_cell() {
    let mut m: Matrix<u32> = Matrix::new(2, 2, 1);
    *m.get_mut(1, 0) = 42;
    assert_eq!(m.get(1, 0), Some(42));
    assert_eq!(m.get(0, 0), Some(1));
    assert_eq!(m.get(0, 1), Some(1));
    assert_eq!(m.get(1, 1), Some(1));
}

#[test]
fn distance_squared_is_exact() {
    let a = ChunkPos { x: 3, y: 4 };
    let o = ChunkPos { x: 0, y: 0 };
    assert_eq!(distance_squared(&a, &o), 25);
    let b = ChunkPos { x: -2, y: 1 };
    let c = ChunkPos { x: 1, y: -3 };
    assert_eq!(distance_squared(&b, &c), 9 + 16);
    assert_eq!(distance_squared(&b, &b), 0);
}

#[test]
fn world_to_chunk_floors_negative_positions() {
    assert_eq!(world_to_chunk(0, 0, 16), ChunkPos { x: 0, y: 0 });
    assert_eq!(world_to_chunk(15, 15, 16), ChunkPos { x: 0, y: 0 });
    assert_eq!(world_to_chunk(16, 31, 16), ChunkPos { x: 1, y: 1 });
    assert_eq!(world_to_chunk(-1, -16, 16), ChunkPos { x: -1, y: -1 });
    assert_eq!(world_to_chunk(-17, 0, 16), ChunkPos { x: -2, y: 0 });
}

#[test]
fn ceil_sqrt_covers_and_is_least() {
    assert_eq!(ceil_sqrt(0), 0);
    assert_eq!(ceil_sqrt(1), 1);
    assert_eq!(ceil_sqrt(2), 2);
    assert_eq!(ceil_sqrt(4), 2);
    assert_eq!(ceil_sqrt(5), 3);
    assert_eq!(ceil_sqrt(16), 4);
    assert_eq!(ceil_sqrt(17), 5);
    assert_eq!(ceil_sqrt(u32::MAX), 0x1_0000);
}

#[test]
fn tile_position_scales_global_tile_coordinates() {
    let pos = ChunkPos { x: 2, y: -1 };
    let w = calculate_tile_position(&pos, 3, 0, 4, 2);
    assert_eq!(w, (22, -8));
    let origin = calculate_tile_position(&ChunkPos { x: 0, y: 0 }, 0, 0, 16, 8);
    assert_eq!(origin, (0, 0));
}

#[test]
fn field_is_deterministic_and_bounded() {
    let f = NoiseField { seed: 0x1234_5678 };
    let v1 = f.value_at(-37, 91);
    let v2 = f.value_at(-37, 91);
    assert_eq!(v1, v2);
    assert!(v1 < 0x1_0000);
}

#[test]
fn tile_threshold_extremes() {
    let f = NoiseField { seed: 99 };
    for (x, y) in [(0i64, 0i64), (5, -3), (1000, 1000)] {
        assert_eq!(f.tile_at(0, x, y), 1);
        assert_eq!(f.tile_at(0x1_0000, x, y), 0);
    }
}

#[test]
fn surface_bits_are_stable() {
    assert_eq!(surface_type_to_bit(SurfaceType::Empty), 0);
    assert_eq!(surface_type_to_bit(SurfaceType::Wall), 1);
    assert_eq!(surface_type_to_bit(SurfaceType::Monster), 2);
    assert_eq!(surface_type_to_bit(SurfaceType::Item), 3);
}
