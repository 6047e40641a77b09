use blockworld::chunk::{chunk_from_heights, BlockId, Chunk};

#[test]
fn test_chunk_new_is_empty() {
    let c = Chunk::new();
    assert_eq!(c.get((0, 0, 0)), BlockId::Empty);
    assert_eq!(c.get((15, 255, 15)), BlockId::Empty);
    assert_eq!(c.get((7, 100, 3)), BlockId::Empty);
}

#[test]
fn test_chunk_set_get() {
    let mut c = Chunk::new();
    c.set((3, 40, 9), BlockId::Grass);
    assert_eq!(c.get((3, 40, 9)), BlockId::Grass);
    assert_eq!(c.get((3, 41, 9)), BlockId::Empty);
    assert_eq!(c.get((4, 40, 9)), BlockId::Empty);
    assert_eq!(c.get((3, 40, 8)), BlockId::Empty);
    c.set((3, 40, 9), BlockId::Empty);
    assert_eq!(c.get((3, 40, 9)), BlockId::Empty);
}

#[test]
fn test_chunk_set_crosses_subchunks() {
    let mut c = Chunk::new();
    c.set((0, 15, 0), BlockId::Grass);
    c.set((0, 16, 0), BlockId::Grass);
    assert_eq!(c.get((0, 15, 0)), BlockId::Grass);
    assert_eq!(c.get((0, 16, 0)), BlockId::Grass);
    assert_eq!(c.get((0, 17, 0)), BlockId::Empty);
    assert_eq!(c.get((0, 14, 0)), BlockId::Empty);
}

#[test]
fn test_chunk_snapshot_equal() {
    let mut c = Chunk::new();
    c.set((1, 2, 3), BlockId::Grass);
    c.set((15, 255, 15), BlockId::Grass);
    let s = c.snapshot();
    assert!(s == c);
}

#[test]
fn test_chunk_from_heights_column() {
    let mut heights = Vec::new();
    for i in 0..256usize {
        heights.push(if i == 0 { 3usize } else { 0usize });
    }
    let c = chunk_from_heights(&heights);
    // column (x = 0, z = 0) has height 3
    assert_eq!(c.get((0, 0, 0)), BlockId::Grass);
    assert_eq!(c.get((0, 1, 0)), BlockId::Grass);
    assert_eq!(c.get((0, 2, 0)), BlockId::Grass);
    assert_eq!(c.get((0, 3, 0)), BlockId::Empty);
    // every other column is empty
    assert_eq!(c.get((0, 0, 1)), BlockId::Empty);
    assert_eq!(c.get((1, 0, 0)), BlockId::Empty);
}

#[test]
fn test_block_is_opaque() {
    assert!(!BlockId::Empty.is_opaque());
    assert!(BlockId::Grass.is_opaque());
}
