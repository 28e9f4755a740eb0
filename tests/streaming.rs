use noise::{Fbm, MultiFractal, NoiseFn, Perlin};
use voxel_terrain::chunk::{ChunkCoords, ChunkData};
use voxel_terrain::generator::TerrainManager;
use voxel_terrain::greedy::greedy_mesh;
use voxel_terrain::mesh::MeshData;
use voxel_terrain::registry::VoxelRegistry;
use voxel_terrain::terrain_noise::TerrainNoise;
use voxel_terrain::voxel::Voxel;

fn ring(c: ChunkCoords) -> i32 {
    c.x.abs().max(c.z.abs())
}

fn sample_heights(n: &TerrainNoise, c: ChunkCoords) -> Vec<i32> {
    let fbm = Fbm::<Perlin>::new(n.seed)
        .set_frequency(0.1)
        .set_octaves(n.octaves)
        .set_persistence(0.5)
        .set_lacunarity(2.0);
    let mut heights = Vec::new();
    for lz in 0..16 {
        for lx in 0..16 {
            let (wx, wz) = c.world_column(lx, lz);
            let v = (fbm.get([wx as f64 * 0.5, wz as f64 * 0.5]) + 1.0) / 2.0;
            heights.push((v * 20.0 + 50.0) as i32);
        }
    }
    heights
}

#[test]
fn invalid_configuration_is_rejected() {
    assert!(TerrainManager::new(-1, 4, 42).is_none());
    assert!(TerrainManager::new(1, 0, 42).is_none());
    assert!(TerrainManager::new(i32::MAX, 4, 42).is_none());
    assert!(TerrainManager::new(0, 1, 42).is_some());
}

#[test]
fn noise_seed_is_reinterpreted() {
    assert_eq!(TerrainNoise::new(42).seed, 42);
    assert_eq!(TerrainNoise::new(-1).seed, u32::MAX);
    assert_eq!(TerrainNoise::new(i32::MIN).seed, 0x8000_0000);
    assert_eq!(TerrainNoise::new(7).octaves, 5);
}

#[test]
fn spiral_order_radius_one() {
    let mut m = TerrainManager::new(1, 4, 42).unwrap();
    let mut got = Vec::new();
    while let Some(c) = m.try_get_next_chunk() {
        got.push((c.x, c.z));
    }
    assert_eq!(
        got,
        vec![(0, 0), (1, 0), (1, 1), (0, 1), (-1, 1), (-1, 0), (-1, -1), (0, -1), (1, -1)]
    );
    assert!(m.try_get_next_chunk().is_none());
}

#[test]
fn spiral_covers_radius_once_nearest_first() {
    for radius in 0..6 {
        let mut m = TerrainManager::new(radius, 1, 0).unwrap();
        let mut got: Vec<ChunkCoords> = Vec::new();
        while let Some(c) = m.try_get_next_chunk() {
            got.push(c);
        }
        let side = (2 * radius + 1) as usize;
        assert_eq!(got.len(), side * side);
        for w in got.windows(2) {
            assert!(ring(w[0]) <= ring(w[1]));
        }
        for x in -radius..=radius {
            for z in -radius..=radius {
                assert_eq!(got.iter().filter(|c| c.x == x && c.z == z).count(), 1);
            }
        }
    }
}

#[test]
fn spiral_skips_requested_chunks() {
    let mut m = TerrainManager::new(1, 4, 42).unwrap();
    m.spawned_chunks.insert((1, 0));
    m.spawned_chunks.insert((1, 1));
    assert_eq!(m.try_get_next_chunk(), Some(ChunkCoords { x: 0, z: 0 }));
    assert_eq!(m.try_get_next_chunk(), Some(ChunkCoords { x: 0, z: 1 }));
}

#[test]
fn queue_respects_permits() {
    let mut m = TerrainManager::new(1, 2, 42).unwrap();
    assert_eq!(m.queue_next(), Some(ChunkCoords { x: 0, z: 0 }));
    assert_eq!(m.queue_next(), Some(ChunkCoords { x: 1, z: 0 }));
    assert_eq!(m.active_permits, 2);
    assert_eq!(m.queue_next(), None);
    assert_eq!(m.spawned_chunks.len(), 2);
    assert!(!m.finish_job(&MeshData::new()));
    assert_eq!(m.active_permits, 1);
    assert_eq!(m.queue_next(), Some(ChunkCoords { x: 1, z: 1 }));
    assert_eq!(m.active_permits, 2);
}

#[test]
fn finish_job_never_goes_negative() {
    let mut m = TerrainManager::new(1, 2, 42).unwrap();
    assert!(!m.finish_job(&MeshData::new()));
    assert_eq!(m.active_permits, 0);
    let mut c = ChunkData::new();
    c.set(0, 0, 0, Voxel::Solid);
    let mesh = greedy_mesh(&c, &VoxelRegistry::standard());
    assert!(m.finish_job(&mesh));
    assert_eq!(m.active_permits, 0);
}

#[test]
fn run_fills_columns_to_clamped_height() {
    let m = TerrainManager::new(1, 1, 42).unwrap();
    let mut heights = vec![10; 256];
    heights[0] = -4;
    heights[1 + 2 * 16] = 300;
    heights[5] = 0;
    let c = m.run(&heights);
    for y in 0..128 {
        assert_eq!(c.get(0, y, 0), Voxel::Air);
        assert_eq!(c.get(1, y, 2), Voxel::Solid);
        assert_eq!(c.get(5, y, 0), Voxel::Air);
        assert_eq!(c.get(7, y, 9), if y < 10 { Voxel::Solid } else { Voxel::Air });
    }
}

#[test]
fn generation_is_deterministic() {
    let m = TerrainManager::new(1, 1, 42).unwrap();
    let coords = ChunkCoords { x: -1, z: 0 };
    let a = m.run(&sample_heights(&m.noise_handle, coords));
    let b = m.run(&sample_heights(&m.noise_handle, coords));
    assert_eq!(a.voxels, b.voxels);
}

#[test]
fn end_to_end_radius_one() {
    let mut m = TerrainManager::new(1, 4, 42).unwrap();
    let registry = VoxelRegistry::standard();
    let mut requested: Vec<ChunkCoords> = Vec::new();
    let mut in_flight: Vec<(ChunkCoords, ChunkData, MeshData)> = Vec::new();
    let mut attached = 0;
    let mut discarded = 0;
    loop {
        while let Some(c) = m.queue_next() {
            assert!(m.active_permits <= 4);
            requested.push(c);
            let data = m.run(&sample_heights(&m.noise_handle, c));
            let mesh = greedy_mesh(&data, &registry);
            in_flight.push((c, data, mesh));
        }
        if in_flight.is_empty() {
            break;
        }
        // Complete the jobs out of order.
        let (_, _, mesh) = in_flight.remove(in_flight.len() - 1);
        if m.finish_job(&mesh) {
            attached += 1;
        } else {
            discarded += 1;
        }
    }
    assert_eq!(requested.len(), 9);
    for x in -1..=1 {
        for z in -1..=1 {
            assert_eq!(requested.iter().filter(|c| c.x == x && c.z == z).count(), 1);
        }
    }
    assert_eq!(attached + discarded, 9);
    assert_eq!(m.active_permits, 0);
    assert_eq!(m.spawned_chunks.len(), 9);
    for x in -1..=1 {
        for z in -1..=1 {
            assert!(m.spawned_chunks.contains(&(x, z)));
        }
    }
}
