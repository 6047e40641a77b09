use blockworld::chunk::{BlockId, Chunk};
use blockworld::directory::{ChunkCollection, MaybeLoadedBlock};
use blockworld::mesh::re_render_chunks;

#[test]
fn test_chunk_collection_new() {
    ChunkCollection::new();
}

#[test]
fn chunk_test_chunk_collection_new() {
    ChunkCollection::new();
}

#[test]
fn test_get_block_vertical_out_of_range() {
    // Out-of-range y always reads Loaded(Empty), loaded or not.
    let mut cc = ChunkCollection::new();
    assert_eq!(cc.get_block((0, -1, 0)), MaybeLoadedBlock::Loaded(BlockId::Empty));
    assert_eq!(cc.get_block((0, 256, 0)), MaybeLoadedBlock::Loaded(BlockId::Empty));
    assert_eq!(cc.get_block((5, 1000, -9)), MaybeLoadedBlock::Loaded(BlockId::Empty));
    cc.load_chunk((0, 0), Chunk::new());
    assert_eq!(cc.get_block((0, -1, 0)), MaybeLoadedBlock::Loaded(BlockId::Empty));
    assert_eq!(cc.get_block((0, 256, 0)), MaybeLoadedBlock::Loaded(BlockId::Empty));
}

#[test]
fn test_get_block_unloaded() {
    let cc = ChunkCollection::new();
    assert_eq!(cc.get_block((0, 0, 0)), MaybeLoadedBlock::Unloaded);
    assert_eq!(cc.get_block((-1, 10, 300)), MaybeLoadedBlock::Unloaded);
}

#[test]
fn test_set_then_get_marks_owning_slab() {
    let mut cc = ChunkCollection::new();
    cc.load_chunk((0, 0), Chunk::new());
    // clear the load-time dirty flags first
    re_render_chunks(&mut cc);
    cc.set_block((1, 35, 3), BlockId::Grass);
    assert_eq!(cc.get_block((1, 35, 3)), MaybeLoadedBlock::Loaded(BlockId::Grass));
    // y = 35 lies in subchunk 2; exactly that flag is raised
    for s in 0..16usize {
        let dirty = cc.get_chunk((0, 0)).is_subchunk_dirty(s);
        assert_eq!(dirty, s == 2);
    }
}

#[test]
fn test_set_block_negative_coordinates() {
    let mut cc = ChunkCollection::new();
    cc.load_chunk((-1, -1), Chunk::new());
    cc.set_block((-1, 0, -16), BlockId::Grass);
    assert_eq!(cc.get_block((-1, 0, -16)), MaybeLoadedBlock::Loaded(BlockId::Grass));
    assert_eq!(cc.get_block((-2, 0, -16)), MaybeLoadedBlock::Loaded(BlockId::Empty));
}

#[test]
fn test_set_block_unloaded_noop() {
    let mut cc = ChunkCollection::new();
    cc.set_block((0, 5, 0), BlockId::Grass);
    assert_eq!(cc.get_block((0, 5, 0)), MaybeLoadedBlock::Unloaded);
    // a neighbouring loaded chunk does not change that
    cc.load_chunk((1, 0), Chunk::new());
    cc.set_block((0, 5, 0), BlockId::Grass);
    assert_eq!(cc.get_block((0, 5, 0)), MaybeLoadedBlock::Unloaded);
}

#[test]
fn test_unload_chunk() {
    let mut cc = ChunkCollection::new();
    cc.load_chunk((2, 3), Chunk::new());
    assert_eq!(cc.get_block((32, 0, 48)), MaybeLoadedBlock::Loaded(BlockId::Empty));
    cc.unload_chunk((2, 3));
    assert_eq!(cc.get_block((32, 0, 48)), MaybeLoadedBlock::Unloaded);
    // unloading an absent chunk is a no-op
    cc.unload_chunk((2, 3));
}

#[test]
fn test_loaded_chunk_coordinates() {
    let mut cc = ChunkCollection::new();
    assert_eq!(cc.loaded_chunk_coordinates().len(), 0);
    cc.load_chunk((0, 0), Chunk::new());
    cc.load_chunk((-2, 7), Chunk::new());
    let coords = cc.loaded_chunk_coordinates();
    assert_eq!(coords.len(), 2);
    assert!(coords.contains(&(0, 0)));
    assert!(coords.contains(&(-2, 7)));
    // re-loading does not duplicate the coordinate
    cc.load_chunk((0, 0), Chunk::new());
    assert_eq!(cc.loaded_chunk_coordinates().len(), 2);
}

#[test]
fn test_load_chunk_marks_all_slabs_dirty() {
    let mut cc = ChunkCollection::new();
    cc.load_chunk((0, 0), Chunk::new());
    for s in 0..16usize {
        assert!(cc.get_chunk((0, 0)).is_subchunk_dirty(s));
    }
}
