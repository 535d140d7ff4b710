use voxel_world::{Block, BlockType, Blocks};

#[test]
fn registry_ids_and_drops() {
    let blocks = Blocks::new();
    assert_eq!(blocks.get_block(0).id, 0);
    assert_eq!(blocks.get_block(1).id, 1);
    assert_eq!(blocks.get_block(1).drop_id, 2);
    assert_eq!(blocks.get_block(2).drop_id, 2);
    assert_eq!(blocks.get_block(3).drop_id, 3);
    assert_eq!(blocks.get_block(4).drop_id, 4);
    assert_eq!(blocks.block(BlockType::Grass).id, 4);
    assert_eq!(blocks.block(BlockType::Stone).drop_id, BlockType::Cobblestone.id());
    assert_eq!(blocks.placeable_type_count(), 4);
}

#[test]
fn block_constructors() {
    let b = Block::new(BlockType::Dirt);
    assert_eq!((b.id, b.drop_id), (3, 3));
    let s = Block::new_with_drop_type(BlockType::Stone, BlockType::Cobblestone);
    assert_eq!((s.id, s.drop_id), (1, 2));
    assert_eq!(BlockType::Air.id(), 0);
}

#[test]
fn cube_indices() {
    let idx = Block::get_block_indices();
    assert_eq!(&idx[0..6], &[0, 1, 2, 2, 1, 3]);
    assert_eq!(&idx[30..36], &[20, 21, 22, 22, 21, 23]);
}
