use voxel_terrain::chunk::{ChunkData, CHUNK_DEPTH, CHUNK_HEIGHT, CHUNK_WIDTH};
use voxel_terrain::greedy::greedy_mesh;
use voxel_terrain::mesh::{emit_quad, MeshData};
use voxel_terrain::registry::VoxelRegistry;
use voxel_terrain::voxel::Voxel;

fn solid(c: &ChunkData, x: i32, y: i32, z: i32) -> bool {
    c.get(x, y, z).is_solid()
}

/// Unit faces counted voxel by voxel: a solid cell next to a non-solid one.
fn naive_faces(c: &ChunkData) -> usize {
    let mut n = 0;
    for y in 0..CHUNK_HEIGHT {
        for z in 0..CHUNK_DEPTH {
            for x in 0..CHUNK_WIDTH {
                if !solid(c, x, y, z) {
                    continue;
                }
                for (dx, dy, dz) in [(1, 0, 0), (-1, 0, 0), (0, 1, 0), (0, -1, 0), (0, 0, 1), (0, 0, -1)] {
                    if !solid(c, x + dx, y + dy, z + dz) {
                        n += 1;
                    }
                }
            }
        }
    }
    n
}

fn check_structure(m: &MeshData) {
    assert_eq!(m.positions.len() % 4, 0);
    assert_eq!(m.normals.len(), m.positions.len());
    assert_eq!(m.uvs.len(), m.positions.len());
    assert_eq!(m.indices.len(), m.positions.len() / 4 * 6);
    for (q, tri) in m.indices.chunks(6).enumerate() {
        let b = 4 * q as u32;
        assert_eq!(tri, &[b, b + 1, b + 2, b, b + 2, b + 3]);
    }
}

#[test]
fn all_air_chunk_has_no_quads() {
    let m = greedy_mesh(&ChunkData::new(), &VoxelRegistry::standard());
    assert_eq!(m.positions.len(), 0);
    assert_eq!(m.indices.len(), 0);
}

#[test]
fn full_chunk_gives_six_outward_quads() {
    let mut c = ChunkData::new();
    c.fill(Voxel::Solid);
    let m = greedy_mesh(&c, &VoxelRegistry::standard());
    check_structure(&m);
    assert_eq!(m.positions.len(), 24);
    let normals: Vec<(i32, i32, i32)> = (0..6).map(|q| m.normals[4 * q]).collect();
    assert_eq!(
        normals,
        vec![(-1, 0, 0), (1, 0, 0), (0, -1, 0), (0, 1, 0), (0, 0, -1), (0, 0, 1)]
    );
    for q in 0..6 {
        for k in 0..4 {
            assert_eq!(m.normals[4 * q + k], normals[q]);
        }
    }
    assert_eq!(&m.positions[0..4], &[(0, 0, 0), (0, 0, 16), (0, 128, 16), (0, 128, 0)]);
    assert_eq!(&m.positions[4..8], &[(16, 0, 0), (16, 128, 0), (16, 128, 16), (16, 0, 16)]);
    assert_eq!(&m.uvs[0..4], &[(0, 0), (0, 16), (128, 16), (128, 0)]);
    assert_eq!(&m.uvs[4..8], &[(0, 0), (128, 0), (128, 16), (0, 16)]);
    assert_eq!(&m.uvs[8..12], &[(0, 0), (0, 16), (16, 16), (16, 0)]);
}

#[test]
fn single_voxel_gives_six_unit_quads() {
    let mut c = ChunkData::new();
    c.set(3, 4, 5, Voxel::Solid);
    let m = greedy_mesh(&c, &VoxelRegistry::standard());
    check_structure(&m);
    assert_eq!(m.positions.len() / 4, 6);
    for q in 0..6 {
        assert_eq!(m.uvs[4 * q + 2], (1, 1));
    }
    assert_eq!(&m.positions[0..4], &[(3, 4, 5), (3, 4, 6), (3, 5, 6), (3, 5, 5)]);
}

#[test]
fn quads_never_exceed_unit_faces() {
    let mut c = ChunkData::new();
    for x in 0..CHUNK_WIDTH {
        for z in 0..CHUNK_DEPTH {
            let h = (x * 7 + z * 3) % 11 + (x ^ z) % 5;
            for y in 0..h {
                c.set(x, y, z, Voxel::Solid);
            }
        }
    }
    c.set(8, 60, 8, Voxel::Solid);
    c.set(2, 1, 2, Voxel::Air);
    let m = greedy_mesh(&c, &VoxelRegistry::standard());
    check_structure(&m);
    let quads = m.positions.len() / 4;
    let faces = naive_faces(&c);
    assert!(quads > 0);
    assert!(quads <= faces, "{} quads for {} faces", quads, faces);
    assert!(quads < faces);
}

#[test]
fn meshing_is_deterministic() {
    let mut c = ChunkData::new();
    c.fill_layer_below(7, Voxel::Solid);
    c.set(4, 7, 4, Voxel::Solid);
    c.set(0, 0, 0, Voxel::Air);
    let r = VoxelRegistry::standard();
    let a = greedy_mesh(&c, &r);
    let b = greedy_mesh(&c, &r);
    assert_eq!(a.positions, b.positions);
    assert_eq!(a.normals, b.normals);
    assert_eq!(a.uvs, b.uvs);
    assert_eq!(a.indices, b.indices);
}

#[test]
fn registry_decides_solidity() {
    let mut c = ChunkData::new();
    c.fill(Voxel::Solid);
    let defs = vec![
        (Voxel::Air, voxel_terrain::registry::VoxelDefinition { name: "Air", is_solid: false }),
        (Voxel::Solid, voxel_terrain::registry::VoxelDefinition { name: "Glass", is_solid: false }),
    ];
    let r = VoxelRegistry::new(defs).unwrap();
    let m = greedy_mesh(&c, &r);
    assert_eq!(m.positions.len(), 0);
}

#[test]
fn emit_quad_winds_by_normal() {
    let mut m = MeshData::new();
    emit_quad(&mut m, 1, 5, 2, 3, 4, 6, 1);
    emit_quad(&mut m, 1, 5, 2, 3, 4, 6, -1);
    check_structure(&m);
    assert_eq!(&m.positions[0..4], &[(3, 5, 2), (3, 5, 6), (9, 5, 6), (9, 5, 2)]);
    assert_eq!(&m.positions[4..8], &[(3, 5, 2), (9, 5, 2), (9, 5, 6), (3, 5, 6)]);
    assert_eq!(m.normals[0], (0, 1, 0));
    assert_eq!(m.normals[4], (0, -1, 0));
    assert_eq!(&m.uvs[0..4], &[(0, 0), (4, 0), (4, 6), (0, 6)]);
    assert_eq!(&m.uvs[4..8], &[(0, 0), (0, 6), (4, 6), (4, 0)]);
}

/// The unit faces a quad covers: (axis, plane, cell along u, cell along v, sign).
fn quad_cells(m: &MeshData, q: usize) -> Vec<(usize, i32, i32, i32, i32)> {
    let p = &m.positions[4 * q..4 * q + 4];
    let n = m.normals[4 * q];
    let (d, sign) = if n.0 != 0 { (0, n.0) } else if n.1 != 0 { (1, n.1) } else { (2, n.2) };
    let coord = |t: &(i32, i32, i32), a: usize| match a {
        0 => t.0,
        1 => t.1,
        _ => t.2,
    };
    let (u, v) = ((d + 1) % 3, (d + 2) % 3);
    let plane = coord(&p[0], d);
    let (u0, u1) = (p.iter().map(|t| coord(t, u)).min().unwrap(), p.iter().map(|t| coord(t, u)).max().unwrap());
    let (v0, v1) = (p.iter().map(|t| coord(t, v)).min().unwrap(), p.iter().map(|t| coord(t, v)).max().unwrap());
    let mut cells = Vec::new();
    for a in u0..u1 {
        for b in v0..v1 {
            cells.push((d, plane, a, b, sign));
        }
    }
    cells
}

#[test]
fn quads_cover_each_face_exactly_once() {
    let mut c = ChunkData::new();
    for x in 0..CHUNK_WIDTH {
        for z in 0..CHUNK_DEPTH {
            for y in 0..((x + 2 * z) % 9) {
                c.set(x, y, z, Voxel::Solid);
            }
        }
    }
    c.set(5, 20, 5, Voxel::Solid);
    let m = greedy_mesh(&c, &VoxelRegistry::standard());
    let mut covered: Vec<(usize, i32, i32, i32, i32)> = Vec::new();
    for q in 0..m.positions.len() / 4 {
        covered.extend(quad_cells(&m, q));
    }
    let mut expected = Vec::new();
    let dims = [CHUNK_WIDTH, CHUNK_HEIGHT, CHUNK_DEPTH];
    for d in 0..3 {
        let (u, v) = ((d + 1) % 3, (d + 2) % 3);
        for s in -1..dims[d] {
            for a in 0..dims[u] {
                for b in 0..dims[v] {
                    let mut p = [0i32; 3];
                    p[d] = s;
                    p[u] = a;
                    p[v] = b;
                    let neg = solid(&c, p[0], p[1], p[2]);
                    p[d] = s + 1;
                    let pos = solid(&c, p[0], p[1], p[2]);
                    if neg != pos {
                        expected.push((d, s + 1, a, b, if neg { 1 } else { -1 }));
                    }
                }
            }
        }
    }
    assert_eq!(covered.len(), expected.len());
    covered.sort();
    expected.sort();
    assert_eq!(covered, expected);
}

#[test]
fn one_layer_slab_gives_six_quads() {
    let mut c = ChunkData::new();
    c.fill_layer_below(1, Voxel::Solid);
    let m = greedy_mesh(&c, &VoxelRegistry::standard());
    check_structure(&m);
    assert_eq!(m.positions.len(), 24);
    assert_eq!(m.indices.len(), 36);
    let normals: Vec<(i32, i32, i32)> = (0..6).map(|q| m.normals[4 * q]).collect();
    assert_eq!(
        normals,
        vec![(-1, 0, 0), (1, 0, 0), (0, -1, 0), (0, 1, 0), (0, 0, -1), (0, 0, 1)]
    );
    // Bottom and top span the whole 16 x 16 layer.
    assert_eq!(m.uvs[4 * 2 + 2], (16, 16));
    assert_eq!(m.uvs[4 * 3 + 2], (16, 16));
    assert!(m.positions[8..16].iter().all(|p| p.1 == 0 || p.1 == 1));
}

#[test]
fn single_voxel_has_each_normal_once() {
    let mut c = ChunkData::new();
    c.set(0, 0, 0, Voxel::Solid);
    let m = greedy_mesh(&c, &VoxelRegistry::standard());
    assert_eq!(m.positions.len(), 24);
    assert_eq!(m.indices.len(), 36);
    let mut normals: Vec<(i32, i32, i32)> = (0..6).map(|q| m.normals[4 * q]).collect();
    normals.sort();
    assert_eq!(
        normals,
        vec![(-1, 0, 0), (0, -1, 0), (0, 0, -1), (0, 0, 1), (0, 1, 0), (1, 0, 0)]
    );
}

#[test]
fn texture_coordinates_are_offsets_in_the_plane() {
    let mut c = ChunkData::new();
    for x in 0..CHUNK_WIDTH {
        for z in 0..CHUNK_DEPTH {
            for y in 0..((3 * x + z) % 7 + 1) {
                c.set(x, y, z, Voxel::Solid);
            }
        }
    }
    let m = greedy_mesh(&c, &VoxelRegistry::standard());
    let coord = |t: &(i32, i32, i32), a: usize| match a {
        0 => t.0,
        1 => t.1,
        _ => t.2,
    };
    for q in 0..m.positions.len() / 4 {
        let n = m.normals[4 * q];
        let d = if n.0 != 0 { 0 } else if n.1 != 0 { 1 } else { 2 };
        let (u, v) = ((d + 1) % 3, (d + 2) % 3);
        let first = m.positions[4 * q];
        for k in 0..4 {
            let p = m.positions[4 * q + k];
            assert_eq!(m.normals[4 * q + k], n);
            assert_eq!(m.uvs[4 * q + k], (coord(&p, u) - coord(&first, u), coord(&p, v) - coord(&first, v)));
        }
    }
}
