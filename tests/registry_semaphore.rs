use voxel_terrain::registry::{VoxelDefinition, VoxelRegistry};
use voxel_terrain::semaphore::ChunkSemaphore;
use voxel_terrain::voxel::Voxel;

#[test]
fn standard_registry_lookups() {
    let r = VoxelRegistry::standard();
    assert!(!r.get(&Voxel::Air).is_solid);
    assert_eq!(r.get(&Voxel::Air).name, "Air");
    assert!(r.get(&Voxel::Solid).is_solid);
    assert_eq!(r.get(&Voxel::Solid).name, "Stone");
}

#[test]
fn registry_without_air_is_refused() {
    let defs = vec![(Voxel::Solid, VoxelDefinition { name: "Stone", is_solid: true })];
    assert!(VoxelRegistry::new(defs).is_none());
    assert!(VoxelRegistry::new(Vec::new()).is_none());
}

#[test]
fn unregistered_voxel_falls_back_to_air() {
    let defs = vec![(Voxel::Air, VoxelDefinition { name: "Void", is_solid: false })];
    let r = VoxelRegistry::new(defs).unwrap();
    assert_eq!(r.get(&Voxel::Solid).name, "Void");
    assert!(!r.get(&Voxel::Solid).is_solid);
}

#[test]
fn later_entry_overrides_earlier() {
    let defs = vec![
        (Voxel::Solid, VoxelDefinition { name: "Dirt", is_solid: true }),
        (Voxel::Air, VoxelDefinition { name: "Air", is_solid: false }),
        (Voxel::Solid, VoxelDefinition { name: "Glass", is_solid: false }),
    ];
    let r = VoxelRegistry::new(defs).unwrap();
    assert_eq!(r.get(&Voxel::Solid).name, "Glass");
    assert!(!r.get(&Voxel::Solid).is_solid);
}

#[test]
fn semaphore_acquire_and_release() {
    let mut s = ChunkSemaphore::new(2);
    assert!(s.try_acquire());
    assert!(s.try_acquire());
    assert!(!s.try_acquire());
    s.release();
    assert!(s.try_acquire());
    assert!(!s.try_acquire());
}

#[test]
fn semaphore_release_is_capped() {
    let mut s = ChunkSemaphore::new(1);
    s.release();
    s.release();
    assert!(s.try_acquire());
    assert!(!s.try_acquire());
}

#[test]
fn semaphore_of_zero_never_grants() {
    let mut s = ChunkSemaphore::new(0);
    assert!(!s.try_acquire());
    s.release();
    assert!(!s.try_acquire());
}
