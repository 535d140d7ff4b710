use vstd::prelude::*;

verus! {

/// The kinds of block, in registration order. The position of a kind in this
/// list is its block id; `Air` (id 0) is the empty cell.
#[derive(Clone, Copy, PartialEq, Eq, Structural, Debug)]
pub enum BlockType {
    Air,
    Stone,
    Cobblestone,
    Dirt,
    Grass,
}

/// Number of registered block kinds, air included.
pub const BLOCK_TYPE_COUNT: usize = 5;

impl BlockType {
    pub open spec fn spec_id(self) -> u8 {
        match self {
            BlockType::Air => 0,
            BlockType::Stone => 1,
            BlockType::Cobblestone => 2,
            BlockType::Dirt => 3,
            BlockType::Grass => 4,
        }
    }

    /// The block id of this kind.
    #[verifier::when_used_as_spec(spec_id)]
    pub fn id(self) -> (r: u8)
        ensures
            r == self.spec_id(),
    {
        match self {
            BlockType::Air => 0,
            BlockType::Stone => 1,
            BlockType::Cobblestone => 2,
            BlockType::Dirt => 3,
            BlockType::Grass => 4,
        }
    }
}

/// A registered block: its id and the id of the item it drops when destroyed.
#[derive(Clone, Copy, PartialEq, Eq, Structural, Debug)]
pub struct Block {
    pub id: u8,
    pub drop_id: u8,
}

impl Block {
    /// A block that drops itself.
    pub fn new(id: BlockType) -> (r: Block)
        ensures
            r.id == id.id(),
            r.drop_id == id.id(),
    {
        let block_id: u8 = id.id();
        Block { id: block_id, drop_id: block_id }
    }

    /// A block that drops an item of another kind.
    pub fn new_with_drop_type(id: BlockType, drop_id: BlockType) -> (r: Block)
        ensures
            r.id == id.id(),
            r.drop_id == drop_id.id(),
    {
        Block { id: id.id(), drop_id: drop_id.id() }
    }

    /// Triangle indices of the unit cube mesh: two triangles per face, four
    /// vertices per face, faces in the order back, top, front, bottom, right, left.
    pub fn get_block_indices() -> (r: [u16; 36])
        ensures
            forall|f: int, k: int|
                0 <= f < 6 && 0 <= k < 6 ==> #[trigger] r@[6 * f + k] == 4 * f + face_corner(k),
    {
        let r: [u16; 36] = [
            0, 1, 2, 2, 1, 3, 4, 5, 6, 6, 5, 7, 8, 9, 10, 10, 9, 11, 12, 13, 14, 14, 13, 15, 16,
            17, 18, 18, 17, 19, 20, 21, 22, 22, 21, 23,
        ];
        assert forall|f: int, k: int| 0 <= f < 6 && 0 <= k < 6 implies #[trigger] r@[6 * f + k]
            == 4 * f + face_corner(k) by {
            assert(0 <= 6 * f + k < 36) by (nonlinear_arith)
                requires
                    0 <= f < 6,
                    0 <= k < 6,
            ;
        }
        r
    }
}

/// Which of a face's four vertices the k-th index of its two triangles names.
pub open spec fn face_corner(k: int) -> int {
    if k == 0 {
        0
    } else if k == 1 || k == 4 {
        1
    } else if k == 2 || k == 3 {
        2
    } else {
        3
    }
}

/// The block registry: one entry per block kind, indexed by block id.
pub struct Blocks {
    block_map: Vec<Block>,
}

impl Blocks {
    pub open spec fn spec_def(id: int) -> Block {
        if id == 1 {
            Block { id: 1, drop_id: 2 }
        } else {
            Block { id: id as u8, drop_id: id as u8 }
        }
    }

    /// The registry holds every kind, in id order; stone drops cobblestone,
    /// every other kind drops itself.
    pub closed spec fn wf(&self) -> bool {
        &&& self.block_map@.len() == BLOCK_TYPE_COUNT
        &&& forall|i: int|
            0 <= i < BLOCK_TYPE_COUNT ==> #[trigger] self.block_map@[i] == Self::spec_def(i)
    }

    pub fn new() -> (r: Blocks)
        ensures
            r.wf(),
    {
        let mut block_map: Vec<Block> = Vec::new();
        block_map.push(Block::new(BlockType::Air));
        block_map.push(Block::new_with_drop_type(BlockType::Stone, BlockType::Cobblestone));
        block_map.push(Block::new(BlockType::Cobblestone));
        block_map.push(Block::new(BlockType::Dirt));
        block_map.push(Block::new(BlockType::Grass));
        Blocks { block_map }
    }

    /// The definition registered under `id`. Ids come from the registry
    /// itself, so an unknown id is a caller error.
    pub fn get_block(&self, id: u8) -> (r: &Block)
        requires
            self.wf(),
            (id as usize) < BLOCK_TYPE_COUNT,
        ensures
            *r == Self::spec_def(id as int),
            r.id == id,
    {
        &self.block_map[id as usize]
    }

    /// The definition of a block kind.
    pub fn block(&self, id: BlockType) -> (r: &Block)
        requires
            self.wf(),
        ensures
            *r == Self::spec_def(id.id() as int),
            r.id == id.id(),
    {
        &self.block_map[id.id() as usize]
    }

    /// The number of kinds other than air.
    pub fn placeable_type_count(&self) -> (r: usize)
        requires
            self.wf(),
        ensures
            r == BLOCK_TYPE_COUNT - 1,
    {
        self.block_map.len() - 1
    }
}

} // verus!
