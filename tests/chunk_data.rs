use voxel_terrain::chunk::{ChunkCoords, ChunkData, CHUNK_DEPTH, CHUNK_HEIGHT, CHUNK_VOLUME, CHUNK_WIDTH};
use voxel_terrain::voxel::Voxel;

#[test]
fn new_chunk_is_all_air() {
    let c = ChunkData::new();
    assert_eq!(c.voxels.len(), CHUNK_VOLUME);
    assert!(c.voxels.iter().all(|v| *v == Voxel::Air));
}

#[test]
fn index_formula_values() {
    assert_eq!(ChunkData::index(0, 0, 0), 0);
    assert_eq!(ChunkData::index(1, 0, 0), 1);
    assert_eq!(ChunkData::index(0, 0, 1), 16);
    assert_eq!(ChunkData::index(0, 1, 0), 256);
    assert_eq!(ChunkData::index(1, 2, 3), 1 + 3 * 16 + 2 * 256);
    assert_eq!(ChunkData::index(15, 127, 15), CHUNK_VOLUME - 1);
}

#[test]
fn index_visits_every_slot_once() {
    let mut seen = vec![0u32; CHUNK_VOLUME];
    for y in 0..CHUNK_HEIGHT {
        for z in 0..CHUNK_DEPTH {
            for x in 0..CHUNK_WIDTH {
                seen[ChunkData::index(x, y, z)] += 1;
            }
        }
    }
    assert!(seen.iter().all(|n| *n == 1));
}

#[test]
fn in_bounds_edges() {
    assert!(ChunkData::in_bounds(0, 0, 0));
    assert!(ChunkData::in_bounds(15, 127, 15));
    assert!(!ChunkData::in_bounds(-1, 0, 0));
    assert!(!ChunkData::in_bounds(16, 0, 0));
    assert!(!ChunkData::in_bounds(0, 128, 0));
    assert!(!ChunkData::in_bounds(0, 0, -1));
    assert!(!ChunkData::in_bounds(0, 0, 16));
}

#[test]
fn get_out_of_bounds_is_air() {
    let mut c = ChunkData::new();
    c.fill(Voxel::Solid);
    assert_eq!(c.get(-1, 0, 0), Voxel::Air);
    assert_eq!(c.get(0, -1, 0), Voxel::Air);
    assert_eq!(c.get(0, 0, -1), Voxel::Air);
    assert_eq!(c.get(16, 0, 0), Voxel::Air);
    assert_eq!(c.get(0, 128, 0), Voxel::Air);
    assert_eq!(c.get(0, 0, 16), Voxel::Air);
    assert_eq!(c.get(i32::MIN, i32::MAX, 0), Voxel::Air);
    assert_eq!(c.get(3, 4, 5), Voxel::Solid);
}

#[test]
fn set_out_of_bounds_is_noop() {
    let mut c = ChunkData::new();
    c.set(-1, 0, 0, Voxel::Solid);
    c.set(16, 0, 0, Voxel::Solid);
    c.set(0, 128, 0, Voxel::Solid);
    c.set(0, 0, i32::MAX, Voxel::Solid);
    assert!(c.voxels.iter().all(|v| *v == Voxel::Air));
}

#[test]
fn set_then_get() {
    let mut c = ChunkData::new();
    c.set(2, 5, 7, Voxel::Solid);
    assert_eq!(c.get(2, 5, 7), Voxel::Solid);
    assert_eq!(c.voxels[2 + 7 * 16 + 5 * 256], Voxel::Solid);
    assert_eq!(c.voxels.iter().filter(|v| **v == Voxel::Solid).count(), 1);
}

#[test]
fn fill_and_clear_air() {
    let mut c = ChunkData::new();
    c.fill(Voxel::Solid);
    assert!(c.voxels.iter().all(|v| *v == Voxel::Solid));
    c.clear_air();
    assert!(c.voxels.iter().all(|v| *v == Voxel::Air));
}

fn check_layers(c: &ChunkData, h: i32, v: Voxel) {
    for y in 0..CHUNK_HEIGHT {
        for z in 0..CHUNK_DEPTH {
            for x in 0..CHUNK_WIDTH {
                let want = if y < h { v } else { Voxel::Air };
                assert_eq!(c.get(x, y, z), want);
            }
        }
    }
}

#[test]
fn fill_layer_below_reinitialises() {
    let mut c = ChunkData::new();
    c.set(1, 100, 1, Voxel::Solid);
    c.fill_layer_below(10, Voxel::Solid);
    check_layers(&c, 10, Voxel::Solid);
    c.fill(Voxel::Solid);
    c.fill_layer_below(3, Voxel::Solid);
    check_layers(&c, 3, Voxel::Solid);
}

#[test]
fn fill_layer_below_clamps_height() {
    let mut c = ChunkData::new();
    c.fill(Voxel::Solid);
    c.fill_layer_below(-5, Voxel::Solid);
    check_layers(&c, 0, Voxel::Solid);
    c.fill_layer_below(500, Voxel::Solid);
    check_layers(&c, 128, Voxel::Solid);
    c.fill_layer_below(0, Voxel::Solid);
    check_layers(&c, 0, Voxel::Solid);
}

#[test]
fn voxel_solidity() {
    assert!(!Voxel::Air.is_solid());
    assert!(Voxel::Solid.is_solid());
}

#[test]
fn world_column_positions() {
    let c = ChunkCoords { x: -1, z: 2 };
    assert_eq!(c.world_column(0, 0), (-16, 32));
    assert_eq!(c.world_column(15, 3), (-1, 35));
    let far = ChunkCoords { x: i32::MAX, z: i32::MIN };
    assert_eq!(far.world_column(1, 1), (i32::MAX as i64 * 16 + 1, i32::MIN as i64 * 16 + 1));
}
