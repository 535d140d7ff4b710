use voxel_world::{create_world, AxisMotion, BlockType, Blocks, CornerCells};

fn corner(old: (i64, i64, i64), new: (i64, i64, i64)) -> CornerCells {
    CornerCells { old_x: old.0, old_y: old.1, old_z: old.2, new_x: new.0, new_y: new.1, new_z: new.2 }
}

#[test]
fn landing_on_a_block_grounds_the_body() {
    let blocks = Blocks::new();
    let mut world = create_world(0, 1);
    world.set_block(5, 9, 5, blocks.block(BlockType::Stone));
    // lower corners at height 10 moving down to 9.4 (cell 9), upper corners at 11.5
    let mut corners = Vec::new();
    for _ in 0..4 {
        corners.push(corner((5, 10, 5), (5, 9, 5)));
    }
    for _ in 0..4 {
        corners.push(corner((5, 12, 5), (5, 11, 5)));
    }
    let out = world.resolve_motion(5, 11, 5, &corners).unwrap();
    assert!(!out.motion.y);
    assert!(out.motion.x && out.motion.z);
    assert!(out.grounded);
    assert!(out.vertical_hit);
}

#[test]
fn falling_through_air_is_free() {
    let world = create_world(0, 1);
    let corners = vec![corner((5, 10, 5), (5, 9, 5)); 8];
    let out = world.resolve_motion(5, 11, 5, &corners).unwrap();
    assert_eq!(out.motion, AxisMotion { x: true, y: true, z: true });
    assert!(!out.grounded);
    assert!(!out.vertical_hit);
}

#[test]
fn sliding_along_a_wall() {
    let blocks = Blocks::new();
    let mut world = create_world(0, 1);
    world.set_block(6, 10, 5, blocks.block(BlockType::Stone));
    let (m, hit) = world.resolve_corner(
        corner((5, 10, 5), (6, 10, 6)),
        AxisMotion { x: true, y: true, z: true },
    );
    assert!(!m.x);
    assert!(m.z);
    assert!(m.y);
    assert!(!hit);
}

#[test]
fn rejected_axis_stays_rejected_for_later_corners() {
    let blocks = Blocks::new();
    let mut world = create_world(0, 1);
    world.set_block(6, 10, 5, blocks.block(BlockType::Stone));
    let corners = vec![corner((5, 10, 5), (6, 10, 5)), corner((5, 10, 8), (6, 10, 8))];
    let out = world.resolve_motion(5, 10, 5, &corners).unwrap();
    assert!(!out.motion.x);
    assert!(out.motion.y && out.motion.z);
}

#[test]
fn upper_corner_hit_is_not_grounding() {
    let blocks = Blocks::new();
    let mut world = create_world(0, 1);
    world.set_block(5, 13, 5, blocks.block(BlockType::Stone));
    let mut corners = vec![corner((5, 10, 5), (5, 11, 5)); 4];
    corners.extend(vec![corner((5, 12, 5), (5, 13, 5)); 4]);
    let out = world.resolve_motion(5, 11, 5, &corners).unwrap();
    assert!(!out.motion.y);
    assert!(out.vertical_hit);
    assert!(!out.grounded);
}

#[test]
fn outside_the_region_motion_is_unconstrained() {
    let world = create_world(0, 1);
    let corners = vec![corner((20, 10, 5), (21, 9, 5)); 8];
    assert!(world.resolve_motion(20, 11, 5, &corners).is_none());
    assert!(world.resolve_motion(5, -1, 5, &corners).is_none());
}

#[test]
fn solid_cells() {
    let blocks = Blocks::new();
    let mut world = create_world(0, 1);
    world.set_block(0, 0, 0, blocks.block(BlockType::Dirt));
    assert!(world.is_solid_cell(0, 0, 0));
    assert!(!world.is_solid_cell(1, 0, 0));
    assert!(!world.is_solid_cell(-1, 0, 0));
    assert!(!world.is_solid_cell(0, 300, 0));
    assert!(!world.is_solid_cell(16, 0, 0));
}
