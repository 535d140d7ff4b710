use voxel_world::{create_world, create_world_with_edge_policy, Block, BlockType, Blocks, EdgePolicy, Game};

#[test]
fn new_world_is_all_air() {
    let world = create_world(0, 1);
    assert_eq!(world.render_distance(), 1);
    for &(x, y, z) in &[(0u32, 0u8, 0u32), (15, 255, 15), (5, 10, 5), (7, 128, 3)] {
        assert_eq!(world.get_block_id(x, y, z), 0);
        assert!(!world.is_visible(x, y, z));
    }
    assert!(world.enumerate_visible_instances().is_empty());
}

#[test]
fn end_to_end_enclosing_a_block() {
    let blocks = Blocks::new();
    let stone = blocks.block(BlockType::Stone);
    let mut world = create_world(0, 1);
    world.set_block(5, 10, 5, stone);
    assert_eq!(world.get_block_id(5, 10, 5), stone.id);
    assert!(world.is_visible(5, 10, 5));
    let around = [(5, 11, 5), (5, 9, 5), (6, 10, 5), (4, 10, 5), (5, 10, 6), (5, 10, 4)];
    for &(x, y, z) in &around {
        world.set_block(x, y, z, stone);
    }
    assert!(!world.is_visible(5, 10, 5));
    for &(x, y, z) in &around {
        assert!(world.is_visible(x, y, z));
    }
}

#[test]
fn writing_air_hides_the_cell() {
    let blocks = Blocks::new();
    let mut world = create_world(0, 1);
    world.set_block(3, 3, 3, blocks.block(BlockType::Dirt));
    assert!(world.is_visible(3, 3, 3));
    world.set_block(3, 3, 3, blocks.block(BlockType::Air));
    assert_eq!(world.get_block_id(3, 3, 3), 0);
    assert!(!world.is_visible(3, 3, 3));
}

#[test]
fn sealing_and_reopening_a_face() {
    let blocks = Blocks::new();
    let stone = blocks.block(BlockType::Stone);
    let mut world = create_world(0, 1);
    world.set_block(8, 20, 8, stone);
    for &(x, y, z) in &[(8, 21, 8), (8, 19, 8), (9, 20, 8), (7, 20, 8), (8, 20, 9)] {
        world.set_block(x, y, z, stone);
        assert!(world.is_visible(8, 20, 8));
    }
    world.set_block(8, 20, 7, stone);
    assert!(!world.is_visible(8, 20, 8));
    world.set_block(8, 20, 7, blocks.block(BlockType::Air));
    assert!(world.is_visible(8, 20, 8));
    world.set_block(8, 20, 7, blocks.block(BlockType::Grass));
    assert!(!world.is_visible(8, 20, 8));
    world.set_block(8, 21, 8, blocks.block(BlockType::Air));
    assert!(world.is_visible(8, 20, 8));
}

#[test]
fn round_trip_whatever_the_neighbors() {
    let blocks = Blocks::new();
    let mut world = create_world(0, 2);
    world.set_block(16, 0, 16, blocks.block(BlockType::Stone));
    world.set_block(17, 0, 16, blocks.block(BlockType::Dirt));
    world.set_block(16, 1, 16, blocks.block(BlockType::Grass));
    world.set_block(16, 0, 16, blocks.block(BlockType::Cobblestone));
    assert_eq!(world.get_block_id(16, 0, 16), 2);
    assert_eq!(world.get_block_id(17, 0, 16), 3);
    assert_eq!(world.get_block_id(16, 1, 16), 4);
    assert_eq!(world.get_block(&blocks, 16, 0, 16).drop_id, 2);
}

#[test]
fn border_blocks_are_exposed() {
    let blocks = Blocks::new();
    let stone = blocks.block(BlockType::Stone);
    let mut world = create_world(0, 1);
    // a corner cell surrounded by stone on every side that lies inside the region
    world.set_block(0, 0, 0, stone);
    world.set_block(1, 0, 0, stone);
    world.set_block(0, 1, 0, stone);
    world.set_block(0, 0, 1, stone);
    assert!(world.is_visible(0, 0, 0));
}

#[test]
fn opaque_border_hides_enclosed_edge_block() {
    let blocks = Blocks::new();
    let stone = blocks.block(BlockType::Stone);
    let mut world = create_world_with_edge_policy(0, 1, EdgePolicy::Opaque);
    assert_eq!(world.edge_policy(), EdgePolicy::Opaque);
    world.set_block(0, 0, 0, stone);
    assert!(world.is_visible(0, 0, 0));
    world.set_block(1, 0, 0, stone);
    world.set_block(0, 1, 0, stone);
    assert!(world.is_visible(0, 0, 0));
    world.set_block(0, 0, 1, stone);
    assert!(!world.is_visible(0, 0, 0));
}

#[test]
fn placing_next_to_a_block_hides_nothing_else() {
    let blocks = Blocks::new();
    let mut world = create_world(0, 1);
    world.set_block(4, 4, 4, blocks.block(BlockType::Stone));
    world.set_block(4, 5, 4, blocks.block(BlockType::Stone));
    assert!(world.is_visible(4, 4, 4));
    assert!(world.is_visible(4, 5, 4));
}

#[test]
fn bounds_predicates() {
    let world = create_world(0, 2);
    assert!(world.is_in_world_bounds(0, 0, 0));
    assert!(world.is_in_world_bounds(1000, 255, 1000));
    assert!(!world.is_in_world_bounds(-1, 0, 0));
    assert!(!world.is_in_world_bounds(0, 256, 0));
    assert!(!world.is_in_world_bounds(0, -1, 0));
    assert!(!world.is_in_world_bounds(0, 0, -1));
    assert!(world.is_in_rendered_world_bounds(31, 255, 31));
    assert!(!world.is_in_rendered_world_bounds(32, 0, 0));
    assert!(!world.is_in_rendered_world_bounds(0, 0, 32));
    assert!(!world.is_in_rendered_world_bounds(-1, 0, 0));
    assert!(!world.is_in_rendered_world_bounds(0, 256, 0));
}

#[test]
fn facial_neighbors_in_order_with_placeholders() {
    let blocks = Blocks::new();
    let mut world = create_world(0, 1);
    world.set_block(0, 1, 0, blocks.block(BlockType::Dirt));
    world.set_block(1, 0, 0, blocks.block(BlockType::Grass));
    let n = world.get_facial_neighbors(0, 0, 0);
    assert_eq!(n.len(), 6);
    let fields: Vec<(u32, u8, u32, u8)> = n.iter().map(|p| (p.x, p.y, p.z, p.block_id)).collect();
    assert_eq!(
        fields,
        vec![
            (0, 1, 0, 3),
            (0, 0, 0, 0),
            (1, 0, 0, 4),
            (0, 0, 0, 0),
            (0, 0, 1, 0),
            (0, 0, 0, 0),
        ]
    );
}

#[test]
fn enumeration_lists_each_visible_cell_once() {
    let blocks = Blocks::new();
    let stone = blocks.block(BlockType::Stone);
    let mut world = create_world(0, 2);
    world.set_block(20, 5, 3, stone);
    world.set_block(2, 5, 20, blocks.block(BlockType::Dirt));
    world.set_block(2, 6, 2, stone);
    let mut got: Vec<(u32, u8, u32, u8)> = world
        .enumerate_visible_instances()
        .iter()
        .map(|p| (p.x, p.y, p.z, p.block_id))
        .collect();
    // chunks come in row-major order
    assert_eq!(got.len(), 3);
    assert_eq!(got[2], (20, 5, 3, 1));
    got.sort();
    assert_eq!(got, vec![(2, 5, 20, 3), (2, 6, 2, 1), (20, 5, 3, 1)]);
}

#[test]
fn enumeration_reports_current_id_after_replacement() {
    let blocks = Blocks::new();
    let mut world = create_world(0, 1);
    world.set_block(1, 1, 1, blocks.block(BlockType::Stone));
    world.set_block(1, 1, 1, blocks.block(BlockType::Grass));
    let got = world.enumerate_visible_instances();
    assert_eq!(got.len(), 1);
    assert_eq!(got[0].block_id, 4);
}

#[test]
fn game_world_uses_given_air_block() {
    let game = Game::new(3, 1);
    assert_eq!(game.world.get_block_id(9, 9, 9), 3);
    assert!(!game.world.is_visible(9, 9, 9));
    assert_eq!(game.world.edge_policy(), EdgePolicy::Exposed);
}

#[test]
fn block_pos_equality_ignores_id() {
    let a = voxel_world::BlockPos::new(1, 2, 3, 4);
    let b = voxel_world::BlockPos::new(1, 2, 3, 0);
    let c = voxel_world::BlockPos::new(1, 2, 4, 4);
    assert!(a == b);
    assert!(a != c);
}

#[test]
fn set_block_accepts_any_registered_block() {
    let blocks = Blocks::new();
    let mut world = create_world(0, 1);
    let custom = Block { id: 2, drop_id: 2 };
    world.set_block(15, 255, 15, &custom);
    assert_eq!(world.get_block_id(15, 255, 15), 2);
    assert!(world.is_visible(15, 255, 15));
    let _ = blocks;
}
