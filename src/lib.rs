//! A finite voxel world: chunked block storage with incrementally maintained
//! face visibility, an axis-separated collision resolver over the block grid,
//! and a slot inventory with stack merging.

pub mod blocks;
pub mod collision;
pub mod inventory;
pub mod world;

pub use blocks::{Block, BlockType, Blocks};
pub use collision::{AxisMotion, CornerCells, MotionOutcome};
pub use inventory::{Inventory, ItemStack, Player};
pub use world::{
    create_world, create_world_with_edge_policy, BlockPos, Chunk, EdgePolicy, Game, World,
};
