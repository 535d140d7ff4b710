use vstd::prelude::*;
use std::collections::HashSet;
use crate::blocks::{Block, Blocks, BLOCK_TYPE_COUNT};

verus! {

broadcast use vstd::std_specs::hash::group_hash_axioms;

/// Number of cells in a chunk: 16 (x) by 16 (z) by 256 (y).
pub const CHUNK_CELLS: usize = 65536;

/// A cell of the world as mathematical coordinates (x, y, z).
pub type Cell = (int, int, int);

/// The slot of a cell inside its chunk's storage; also its key in the
/// chunk's visible set.
pub open spec fn cell_key(p: Cell) -> int {
    (p.0 % 16) * 4096 + (p.2 % 16) * 256 + p.1
}

/// The cell next to `p` across face `j`, faces in the order +y, -y, +x, -x, +z, -z.
pub open spec fn neighbor(p: Cell, j: int) -> Cell {
    if j == 0 {
        (p.0, p.1 + 1, p.2)
    } else if j == 1 {
        (p.0, p.1 - 1, p.2)
    } else if j == 2 {
        (p.0 + 1, p.1, p.2)
    } else if j == 3 {
        (p.0 - 1, p.1, p.2)
    } else if j == 4 {
        (p.0, p.1, p.2 + 1)
    } else {
        (p.0, p.1, p.2 - 1)
    }
}

/// `p` and `q` share a face.
pub open spec fn adjacent(p: Cell, q: Cell) -> bool {
    ||| p == neighbor(q, 0)
    ||| p == neighbor(q, 1)
    ||| p == neighbor(q, 2)
    ||| p == neighbor(q, 3)
    ||| p == neighbor(q, 4)
    ||| p == neighbor(q, 5)
}

/// `p` is adjacent to `q` exactly when it is one of the six neighbors of `q`.
pub proof fn lemma_adjacent_is_neighbor(p: Cell, q: Cell)
    ensures
        adjacent(p, q) <==> exists|j: int| 0 <= j < 6 && #[trigger] neighbor(q, j) == p,
{
    if adjacent(p, q) {
        let j = if p == neighbor(q, 0) {
            0
        } else if p == neighbor(q, 1) {
            1
        } else if p == neighbor(q, 2) {
            2
        } else if p == neighbor(q, 3) {
            3
        } else if p == neighbor(q, 4) {
            4
        } else {
            5int
        };
        assert(neighbor(q, j) == p);
    }
}

/// The position of a cell's chunk in row-major order (x, then z).
pub open spec fn chunk_rank(p: Cell) -> int {
    (p.0 / 16) * 256 + p.2 / 16
}

/// The unbounded logical world: x and z not negative, y within 0..=255.
pub open spec fn in_world(p: Cell) -> bool {
    p.0 >= 0 && p.2 >= 0 && 0 <= p.1 <= 255
}

/// A cell position with the id of the block stored there.
#[derive(Clone, Copy, Debug)]
pub struct BlockPos {
    pub x: u32,
    pub y: u8,
    pub z: u32,
    pub block_id: u8,
}

impl BlockPos {
    pub open spec fn cell(self) -> Cell {
        (self.x as int, self.y as int, self.z as int)
    }

    pub fn new(x: u32, y: u8, z: u32, block_id: u8) -> (r: BlockPos)
        ensures
            r == (BlockPos { x, y, z, block_id }),
    {
        BlockPos { x: x, y: y, z: z, block_id: block_id }
    }
}

/// Two positions are equal when they name the same cell, whatever ids they carry.
impl PartialEq for BlockPos {
    fn eq(&self, other: &BlockPos) -> (r: bool)
        ensures
            r == (self.cell() == other.cell()),
    {
        self.x == other.x && self.y == other.y && self.z == other.z
    }
}

impl vstd::std_specs::cmp::PartialEqSpecImpl for BlockPos {
    open spec fn obeys_eq_spec() -> bool {
        true
    }

    open spec fn eq_spec(&self, other: &BlockPos) -> bool {
        self.cell() == other.cell()
    }
}

impl Eq for BlockPos {

}

/// What a cell outside the allocated region counts as when deciding whether
/// a block next to it is exposed.
#[derive(Clone, Copy, PartialEq, Eq, Structural, Debug)]
pub enum EdgePolicy {
    /// Outside cells count as air: blocks on the region's border are visible.
    Exposed,
    /// Outside cells count as solid: the border hides nothing.
    Opaque,
}

/// A 16 x 16 x 256 column of block ids and the set of its cells that are
/// currently visible, keyed by `cell_key`.
pub struct Chunk {
    blocks: Vec<u8>,
    visible_blocks: HashSet<u16>,
}

impl Chunk {
    pub closed spec fn ids(&self) -> Seq<u8> {
        self.blocks@
    }

    pub closed spec fn visible(&self) -> Set<u16> {
        self.visible_blocks@
    }

    /// Storage has one id per cell, and no air cell is marked visible.
    pub open spec fn wf(&self) -> bool {
        &&& self.ids().len() == CHUNK_CELLS
        &&& forall|k: u16| #[trigger] self.visible().contains(k) ==> self.ids()[k as int] != 0
    }

    /// Stores `id` at slot `key` and marks the slot visible or not.
    fn write(&mut self, key: usize, id: u8, visible: bool)
        requires
            old(self).wf(),
            key < CHUNK_CELLS,
            visible ==> id != 0,
        ensures
            final(self).wf(),
            final(self).ids() == old(self).ids().update(key as int, id),
            final(self).visible() == (if visible {
                old(self).visible().insert(key as u16)
            } else {
                old(self).visible().remove(key as u16)
            }),
    {
        self.blocks.set(key, id);
        if visible {
            self.visible_blocks.insert(key as u16);
        } else {
            self.visible_blocks.remove(&(key as u16));
        }
        assert forall|k: u16| #[trigger] self.visible().contains(k) implies self.ids()[k as int]
            != 0 by {
            if k as int != key as int {
                assert(k != key as u16);
                assert(old(self).visible().contains(k));
            }
        }
    }

    fn get(&self, key: usize) -> (r: u8)
        requires
            self.wf(),
            key < CHUNK_CELLS,
        ensures
            r == self.ids()[key as int],
    {
        self.blocks[key]
    }

    fn contains(&self, key: usize) -> (r: bool)
        requires
            key < CHUNK_CELLS,
        ensures
            r == self.visible().contains(key as u16),
    {
        self.visible_blocks.contains(&(key as u16))
    }
}

/// A chunk whose every cell holds `air_block`, with nothing visible.
fn create_chunk(air_block: u8) -> (r: Chunk)
    ensures
        r.wf(),
        r.ids() == Seq::new(CHUNK_CELLS as nat, |i: int| air_block),
        r.visible() == Set::<u16>::empty(),
{
    let mut blocks: Vec<u8> = Vec::with_capacity(CHUNK_CELLS);
    let mut i: usize = 0;
    while i < CHUNK_CELLS
        invariant
            i <= CHUNK_CELLS,
            blocks@ == Seq::new(i as nat, |k: int| air_block),
        decreases CHUNK_CELLS - i,
    {
        blocks.push(air_block);
        i = i + 1;
    }
    Chunk { blocks, visible_blocks: HashSet::new() }
}

/// Splits a world coordinate into its chunk index and its offset in the chunk.
fn split_coordinate(v: u32) -> (r: (usize, usize))
    ensures
        r.0 == v / 16,
        r.1 == v % 16,
{
    assert(v >> 4u32 == v / 16) by (bit_vector);
    assert(v & 15u32 == v % 16) by (bit_vector);
    ((v >> 4) as usize, (v & 15) as usize)
}

/// The world: a square of `render_distance` x `render_distance` chunks, the
/// region that is allocated (rendered), with the policy that decides how
/// its border counts for visibility.
pub struct World {
    chunks: Vec<Vec<Chunk>>,
    render_distance: u8,
    edge_policy: EdgePolicy,
}

impl World {
    pub closed spec fn spec_render_distance(&self) -> u8 {
        self.render_distance
    }

    pub closed spec fn spec_edge_policy(&self) -> EdgePolicy {
        self.edge_policy
    }

    pub closed spec fn chunk_at(&self, p: Cell) -> Chunk {
        self.chunks@[p.0 / 16]@[p.2 / 16]
    }

    /// Between 1 and 255 chunks per axis, all present and well formed.
    pub closed spec fn wf(&self) -> bool {
        &&& 1 <= self.render_distance
        &&& self.chunks@.len() == self.render_distance
        &&& forall|i: int|
            0 <= i < self.render_distance ==> (#[trigger] self.chunks@[i])@.len()
                == self.render_distance
        &&& forall|i: int, j: int|
            0 <= i < self.render_distance && 0 <= j < self.render_distance
                ==> (#[trigger] self.chunks@[i]@[j]).wf()
    }

    /// The allocated region.
    pub open spec fn in_rendered(&self, p: Cell) -> bool {
        &&& in_world(p)
        &&& p.0 < self.spec_render_distance() * 16
        &&& p.2 < self.spec_render_distance() * 16
    }

    /// The id stored at a cell of the allocated region.
    pub closed spec fn id_at(&self, p: Cell) -> u8 {
        self.chunk_at(p).ids()[cell_key(p)]
    }

    /// Whether a cell of the allocated region is in its chunk's visible set.
    pub closed spec fn visible_at(&self, p: Cell) -> bool {
        self.chunk_at(p).visible().contains(cell_key(p) as u16)
    }

    /// A neighbor that leaves a face open: air inside the region, and
    /// outside it whatever the edge policy says.
    pub open spec fn open_at(&self, p: Cell) -> bool {
        if self.in_rendered(p) {
            self.id_at(p) == 0
        } else {
            self.spec_edge_policy() == EdgePolicy::Exposed
        }
    }

    /// At least one of the six faces of `p` is open.
    pub open spec fn exposed(&self, p: Cell) -> bool {
        ||| self.open_at(neighbor(p, 0))
        ||| self.open_at(neighbor(p, 1))
        ||| self.open_at(neighbor(p, 2))
        ||| self.open_at(neighbor(p, 3))
        ||| self.open_at(neighbor(p, 4))
        ||| self.open_at(neighbor(p, 5))
    }

    /// Each cell of the region is visible exactly when it holds a block
    /// other than air and has an open face.
    pub open spec fn visibility_consistent(&self) -> bool {
        forall|p: Cell|
            self.in_rendered(p) ==> (#[trigger] self.visible_at(p) <==> (self.id_at(p) != 0
                && self.exposed(p)))
    }

    /// What the neighbor list reports for a cell: its position and id inside
    /// the region, and an air-like placeholder at the origin outside it.
    pub open spec fn neighbor_entry(&self, p: Cell) -> BlockPos {
        if self.in_rendered(p) {
            BlockPos { x: p.0 as u32, y: p.1 as u8, z: p.2 as u32, block_id: self.id_at(p) }
        } else {
            BlockPos { x: 0, y: 0, z: 0, block_id: 0 }
        }
    }

    /// `after` is this world once `id` has been written at `c` and the
    /// visibility of `c` and of its non-air neighbors has been re-derived;
    /// every other cell keeps its visibility.
    pub open spec fn block_written(&self, after: World, c: Cell, id: u8) -> bool {
        &&& after.wf()
        &&& after.spec_render_distance() == self.spec_render_distance()
        &&& after.spec_edge_policy() == self.spec_edge_policy()
        &&& forall|p: Cell|
            after.in_rendered(p) ==> #[trigger] after.id_at(p) == if p == c {
                id
            } else {
                self.id_at(p)
            }
        &&& forall|p: Cell|
            after.in_rendered(p) ==> #[trigger] after.visible_at(p) == if p == c || (adjacent(p, c)
                && after.id_at(p) != 0) {
                after.id_at(p) != 0 && after.exposed(p)
            } else {
                self.visible_at(p)
            }
    }

    /// The cell of chunk (`cx`, `cz`) stored at slot `k`.
    pub open spec fn slot_cell(cx: int, cz: int, k: int) -> Cell {
        (cx * 16 + k / 4096, k % 256, cz * 16 + (k / 256) % 16)
    }

    /// What the enumeration reports for slot `k` of chunk (`cx`, `cz`).
    pub closed spec fn slot_entry(&self, cx: int, cz: int, k: int) -> BlockPos {
        let p = Self::slot_cell(cx, cz, k);
        BlockPos { x: p.0 as u32, y: p.1 as u8, z: p.2 as u32, block_id: self.chunks@[cx]@[cz].ids()[k] }
    }

    proof fn lemma_slot_cell(&self, cx: int, cz: int, k: int)
        requires
            self.wf(),
            0 <= cx < self.render_distance,
            0 <= cz < self.render_distance,
            0 <= k < CHUNK_CELLS,
        ensures
            self.in_rendered(Self::slot_cell(cx, cz, k)),
            Self::slot_cell(cx, cz, k).0 / 16 == cx,
            Self::slot_cell(cx, cz, k).2 / 16 == cz,
            cell_key(Self::slot_cell(cx, cz, k)) == k,
            self.slot_entry(cx, cz, k).cell() == Self::slot_cell(cx, cz, k),
            self.slot_entry(cx, cz, k).block_id == self.id_at(Self::slot_cell(cx, cz, k)),
            self.visible_at(Self::slot_cell(cx, cz, k)) == self.chunks@[cx]@[cz].visible().contains(
                k as u16,
            ),
    {
        let p = Self::slot_cell(cx, cz, k);
        assert((k / 4096) * 4096 + ((k / 256) % 16) * 256 + k % 256 == k) by (nonlinear_arith)
            requires
                0 <= k < 65536,
        ;
        assert(p.0 < self.render_distance * 16) by (nonlinear_arith)
            requires
                p.0 == cx * 16 + k / 4096,
                0 <= k < 65536,
                cx < self.render_distance,
        ;
        assert(p.2 < self.render_distance * 16) by (nonlinear_arith)
            requires
                p.2 == cz * 16 + (k / 256) % 16,
                0 <= k < 65536,
                cz < self.render_distance,
        ;
        assert((k as u16) as int == k);
    }

    /// Appends one entry per visible cell of chunk (`cx`, `cz`), in the order
    /// in which its visible set is walked.
    fn push_chunk_instances(&self, cx: usize, cz: usize, out: &mut Vec<BlockPos>)
        requires
            self.wf(),
            cx < self.render_distance,
            cz < self.render_distance,
        ensures
            final(out)@.len() >= old(out)@.len(),
            final(out)@.subrange(0, old(out)@.len() as int) == old(out)@,
            forall|i: int|
                old(out)@.len() <= i < final(out)@.len() ==> {
                    let p = #[trigger] final(out)@[i].cell();
                    &&& self.in_rendered(p)
                    &&& self.visible_at(p)
                    &&& final(out)@[i].block_id == self.id_at(p)
                    &&& p.0 / 16 == cx
                    &&& p.2 / 16 == cz
                },
            forall|i: int, j: int|
                old(out)@.len() <= i < j < final(out)@.len() ==> #[trigger] final(out)@[i].cell()
                    != #[trigger] final(out)@[j].cell(),
            forall|p: Cell|
                self.in_rendered(p) && p.0 / 16 == cx && p.2 / 16 == cz && #[trigger] self.visible_at(p)
                    ==> exists|i: int|
                    old(out)@.len() <= i < final(out)@.len() && #[trigger] final(out)@[i].cell() == p,
    {
        let chunk = &self.chunks[cx][cz];
        let ghost start = out@.len() as int;
        let ghost pre = out@;
        let ghost s = vstd::std_specs::iter::IteratorSpec::remaining(&vstd::std_specs::hash::spec_hash_keys_iter(&chunk.visible_blocks));
        proof {
            assert(chunk.wf());
        }
        for key in it: chunk.visible_blocks.iter()
            invariant
                it.seq() == s,
                self.wf(),
                cx < self.render_distance,
                cz < self.render_distance,
                *chunk == self.chunks@[cx as int]@[cz as int],
                chunk.wf(),
                it.seq().unref().to_set() == chunk.visible(),
                it.seq().no_duplicates(),
                out@.len() == start + it.index(),
                pre.len() == start,
                forall|i: int| 0 <= i < start ==> out@[i] == pre[i],
                forall|i: int|
                    0 <= i < it.index() ==> out@[start + i] == self.slot_entry(
                        cx as int,
                        cz as int,
                        *it.seq()[i] as int,
                    ),
        {
            let ghost before = out@;
            let ghost idx = it.index();
            assert(*key == *s[idx]);
            let k = *key as usize;
            let lx = (k / 4096) as u32;
            let lz = ((k / 256) % 16) as u32;
            let y = (k % 256) as u8;
            let id = chunk.get(k);
            out.push(BlockPos::new(cx as u32 * 16 + lx, y, cz as u32 * 16 + lz, id));
            proof {
                assert(before.len() >= start);
                assert(out@ == before.push(self.slot_entry(cx as int, cz as int, k as int)));
                assert(before.len() == start + idx);
                assert forall|i: int| 0 <= i < idx + 1 implies out@[start + i] == self.slot_entry(
                    cx as int,
                    cz as int,
                    *s[i] as int,
                ) by {
                    if i < idx {
                        assert(before[start + i] == self.slot_entry(cx as int, cz as int, *s[i] as int));
                    }
                }
            }
        }
        proof {
            assert(out@.len() == start + s.len());
            assert(out@.subrange(0, start) =~= pre);
            assert forall|i: int|
                start <= i < out@.len() implies {
                    let p = #[trigger] out@[i].cell();
                    &&& self.in_rendered(p)
                    &&& self.visible_at(p)
                    &&& out@[i].block_id == self.id_at(p)
                    &&& p.0 / 16 == cx
                    &&& p.2 / 16 == cz
                } by {
                let j = i - start;
                assert(s.unref()[j] == *s[j]);
                assert(s.unref().to_set().contains(*s[j]));
                self.lemma_slot_cell(cx as int, cz as int, *s[j] as int);
            }
            assert forall|i: int, j: int|
                start <= i < j < out@.len() implies #[trigger] out@[i].cell()
                    != #[trigger] out@[j].cell() by {
                self.lemma_slot_cell(cx as int, cz as int, *s[i - start] as int);
                self.lemma_slot_cell(cx as int, cz as int, *s[j - start] as int);
                assert(s[i - start] != s[j - start]);
            }
            assert forall|p: Cell|
                self.in_rendered(p) && p.0 / 16 == cx && p.2 / 16 == cz && #[trigger] self.visible_at(p)
                    implies exists|i: int|
                    start <= i < out@.len() && #[trigger] out@[i].cell() == p by {
                let k = cell_key(p);
                self.lemma_wf_chunk(p);
                assert((k as u16) as int == k);
                assert(s.unref().to_set().contains(k as u16));
                let j = choose|j: int| 0 <= j < s.unref().len() && s.unref()[j] == k as u16;
                self.lemma_slot_cell(cx as int, cz as int, k);
                assert(*s[j] == k as u16);
                assert(p == Self::slot_cell(cx as int, cz as int, k));
                assert(out@[start + j].cell() == p);
            }
        }
    }

    /// Every visible cell of the region, each once, with the id stored there.
    /// Chunks come in row-major order (x, then z); the order inside a chunk
    /// is the order in which its visible set is walked.
    pub fn enumerate_visible_instances(&self) -> (r: Vec<BlockPos>)
        requires
            self.wf(),
        ensures
            forall|i: int|
                0 <= i < r@.len() ==> {
                    let p = #[trigger] r@[i].cell();
                    &&& self.in_rendered(p)
                    &&& self.visible_at(p)
                    &&& r@[i].block_id == self.id_at(p)
                },
            forall|i: int, j: int|
                0 <= i < j < r@.len() ==> #[trigger] r@[i].cell() != #[trigger] r@[j].cell(),
            forall|i: int, j: int|
                0 <= i < j < r@.len() ==> chunk_rank(#[trigger] r@[i].cell()) <= chunk_rank(
                    #[trigger] r@[j].cell(),
                ),
            forall|p: Cell|
                self.in_rendered(p) && #[trigger] self.visible_at(p) ==> exists|i: int|
                    0 <= i < r@.len() && #[trigger] r@[i].cell() == p,
    {
        let mut out: Vec<BlockPos> = Vec::new();
        let rd = self.render_distance as usize;
        let mut cx: usize = 0;
        while cx < rd
            invariant
                self.wf(),
                rd == self.render_distance,
                cx <= rd,
                forall|i: int|
                    0 <= i < out@.len() ==> {
                        let p = #[trigger] out@[i].cell();
                        &&& self.in_rendered(p)
                        &&& self.visible_at(p)
                        &&& out@[i].block_id == self.id_at(p)
                        &&& p.0 / 16 < cx
                    },
                forall|i: int, j: int|
                    0 <= i < j < out@.len() ==> #[trigger] out@[i].cell() != #[trigger] out@[j].cell(),
                forall|i: int, j: int|
                    0 <= i < j < out@.len() ==> chunk_rank(#[trigger] out@[i].cell()) <= chunk_rank(
                        #[trigger] out@[j].cell(),
                    ),
                forall|p: Cell|
                    self.in_rendered(p) && p.0 / 16 < cx && #[trigger] self.visible_at(p)
                        ==> exists|i: int| 0 <= i < out@.len() && #[trigger] out@[i].cell() == p,
            decreases rd - cx,
        {
            let mut cz: usize = 0;
            while cz < rd
                invariant
                    self.wf(),
                    rd == self.render_distance,
                    cx < rd,
                    cz <= rd,
                    forall|i: int|
                        0 <= i < out@.len() ==> {
                            let p = #[trigger] out@[i].cell();
                            &&& self.in_rendered(p)
                            &&& self.visible_at(p)
                            &&& out@[i].block_id == self.id_at(p)
                            &&& (p.0 / 16 < cx || (p.0 / 16 == cx && p.2 / 16 < cz))
                        },
                    forall|i: int, j: int|
                        0 <= i < j < out@.len() ==> #[trigger] out@[i].cell()
                            != #[trigger] out@[j].cell(),
                    forall|i: int, j: int|
                        0 <= i < j < out@.len() ==> chunk_rank(#[trigger] out@[i].cell())
                            <= chunk_rank(#[trigger] out@[j].cell()),
                    forall|p: Cell|
                        self.in_rendered(p) && (p.0 / 16 < cx || (p.0 / 16 == cx && p.2 / 16 < cz))
                            && #[trigger] self.visible_at(p) ==> exists|i: int|
                            0 <= i < out@.len() && #[trigger] out@[i].cell() == p,
                decreases rd - cz,
            {
                let ghost before = out@;
                self.push_chunk_instances(cx, cz, &mut out);
                proof {
                    let n = before.len() as int;
                    assert forall|i: int| 0 <= i < n implies out@[i] == before[i] by {
                        assert(out@.subrange(0, n)[i] == out@[i]);
                    }
                    assert forall|i: int, j: int|
                        0 <= i < j < out@.len() implies #[trigger] out@[i].cell()
                            != #[trigger] out@[j].cell() && chunk_rank(out@[i].cell()) <= chunk_rank(
                            out@[j].cell(),
                        ) by {
                        if j < n {
                            assert(before[i].cell() != before[j].cell());
                            assert(chunk_rank(before[i].cell()) <= chunk_rank(before[j].cell()));
                        } else if i < n {
                            let p = before[i].cell();
                            let q = out@[j].cell();
                            assert(self.in_rendered(p));
                            assert(q.0 / 16 == cx && q.2 / 16 == cz);
                            assert(p.0 / 16 < cx || (p.0 / 16 == cx && p.2 / 16 < cz));
                            assert(p.2 / 16 < 256);
                        } else {
                            let p = out@[i].cell();
                            let q = out@[j].cell();
                            assert(p.0 / 16 == cx && p.2 / 16 == cz);
                            assert(q.0 / 16 == cx && q.2 / 16 == cz);
                        }
                    }
                    assert forall|i: int| 0 <= i < out@.len() implies {
                        let p = #[trigger] out@[i].cell();
                        &&& self.in_rendered(p)
                        &&& self.visible_at(p)
                        &&& out@[i].block_id == self.id_at(p)
                        &&& (p.0 / 16 < cx || (p.0 / 16 == cx && p.2 / 16 < cz + 1))
                    } by {
                        if i < n {
                            assert(out@[i] == before[i]);
                        } else {
                            let p = out@[i].cell();
                            assert(p.0 / 16 == cx && p.2 / 16 == cz);
                        }
                    }
                    assert forall|p: Cell|
                        self.in_rendered(p) && (p.0 / 16 < cx || (p.0 / 16 == cx && p.2 / 16 < cz
                            + 1)) && #[trigger] self.visible_at(p) implies exists|i: int|
                        0 <= i < out@.len() && #[trigger] out@[i].cell() == p by {
                        if p.0 / 16 < cx || (p.0 / 16 == cx && p.2 / 16 < cz) {
                            let i = choose|i: int| 0 <= i < before.len() && #[trigger] before[i].cell() == p;
                            assert(out@[i].cell() == p);
                        }
                    }
                }
                cz = cz + 1;
            }
            cx = cx + 1;
        }
        out
    }

    proof fn lemma_wf_chunk(&self, p: Cell)
        requires
            self.wf(),
            self.in_rendered(p),
        ensures
            self.chunk_at(p).wf(),
            0 <= cell_key(p) < CHUNK_CELLS,
    {
        assert(self.chunks@[p.0 / 16]@[p.2 / 16].wf());
    }

    /// Two different cells of the region differ in their chunk or in their
    /// slot inside it.
    proof fn lemma_distinct_slots(&self, p: Cell, q: Cell)
        requires
            self.in_rendered(p),
            self.in_rendered(q),
            p != q,
        ensures
            p.0 / 16 != q.0 / 16 || p.2 / 16 != q.2 / 16 || cell_key(p) != cell_key(q),
    {
    }

    pub fn render_distance(&self) -> (r: u8)
        ensures
            r == self.spec_render_distance(),
    {
        self.render_distance
    }

    pub fn edge_policy(&self) -> (r: EdgePolicy)
        ensures
            r == self.spec_edge_policy(),
    {
        self.edge_policy
    }

    /// The id stored at a cell. The cell must lie in the allocated region;
    /// this read does no checking of its own.
    pub fn get_block_id(&self, x: u32, y: u8, z: u32) -> (r: u8)
        requires
            self.wf(),
            self.in_rendered((x as int, y as int, z as int)),
        ensures
            r == self.id_at((x as int, y as int, z as int)),
    {
        let (cx, lx) = split_coordinate(x);
        let (cz, lz) = split_coordinate(z);
        proof {
            self.lemma_wf_chunk((x as int, y as int, z as int));
        }
        self.chunks[cx][cz].get(lx * 4096 + lz * 256 + y as usize)
    }

    /// The registry entry of the block stored at a cell.
    pub fn get_block<'a>(&self, blocks: &'a Blocks, x: u32, y: u8, z: u32) -> (r: &'a Block)
        requires
            self.wf(),
            blocks.wf(),
            self.in_rendered((x as int, y as int, z as int)),
            (self.id_at((x as int, y as int, z as int)) as usize) < BLOCK_TYPE_COUNT,
        ensures
            *r == Blocks::spec_def(self.id_at((x as int, y as int, z as int)) as int),
    {
        blocks.get_block(self.get_block_id(x, y, z))
    }

    /// Whether a cell lies in the logical world: x and z not negative, y in 0..=255.
    pub fn is_in_world_bounds(&self, x: i64, y: i16, z: i64) -> (r: bool)
        ensures
            r == in_world((x as int, y as int, z as int)),
    {
        x >= 0 && z >= 0 && y >= 0 && y <= 255
    }

    /// Whether a cell lies in the allocated region.
    pub fn is_in_rendered_world_bounds(&self, x: i64, y: i16, z: i64) -> (r: bool)
        ensures
            r == self.in_rendered((x as int, y as int, z as int)),
    {
        x >= 0 && z >= 0 && y >= 0 && y <= 255 && x < self.render_distance as i64 * 16 && z
            < self.render_distance as i64 * 16
    }

    /// Whether a cell is in the visible set.
    pub fn is_visible(&self, x: u32, y: u8, z: u32) -> (r: bool)
        requires
            self.wf(),
            self.in_rendered((x as int, y as int, z as int)),
        ensures
            r == self.visible_at((x as int, y as int, z as int)),
    {
        let (cx, lx) = split_coordinate(x);
        let (cz, lz) = split_coordinate(z);
        proof {
            self.lemma_wf_chunk((x as int, y as int, z as int));
        }
        self.chunks[cx][cz].contains(lx * 4096 + lz * 256 + y as usize)
    }

    /// Whether a neighboring cell leaves a face open.
    fn is_open(&self, x: i64, y: i16, z: i64) -> (r: bool)
        requires
            self.wf(),
        ensures
            r == self.open_at((x as int, y as int, z as int)),
    {
        if self.is_in_rendered_world_bounds(x, y, z) {
            self.get_block_id(x as u32, y as u8, z as u32) == 0
        } else {
            self.edge_policy == EdgePolicy::Exposed
        }
    }

    /// Whether a cell of the region has an open face.
    fn is_exposed(&self, x: u32, y: u8, z: u32) -> (r: bool)
        requires
            self.wf(),
        ensures
            r == self.exposed((x as int, y as int, z as int)),
    {
        let (x, y, z) = (x as i64, y as i16, z as i64);
        self.is_open(x, y + 1, z) || self.is_open(x, y - 1, z) || self.is_open(x + 1, y, z)
            || self.is_open(x - 1, y, z) || self.is_open(x, y, z + 1) || self.is_open(x, y, z - 1)
    }

    /// Appends what the neighbor list reports for one cell.
    fn add_if_in_bounds(&self, vec: &mut Vec<BlockPos>, x: i64, y: i16, z: i64)
        requires
            self.wf(),
        ensures
            final(vec)@ == old(vec)@.push(self.neighbor_entry((x as int, y as int, z as int))),
    {
        if self.is_in_rendered_world_bounds(x, y, z) {
            vec.push(BlockPos::new(x as u32, y as u8, z as u32, self.get_block_id(x as u32, y as u8, z as u32)));
        } else {
            vec.push(BlockPos::new(0, 0, 0, 0));
        }
    }

    /// The six face neighbors of a cell, in the order +y, -y, +x, -x, +z, -z.
    /// A neighbor outside the region is reported as air at the origin.
    pub fn get_facial_neighbors(&self, x: i64, y: i16, z: i64) -> (r: Vec<BlockPos>)
        requires
            self.wf(),
            i64::MIN < x < i64::MAX,
            i16::MIN < y < i16::MAX,
            i64::MIN < z < i64::MAX,
        ensures
            r@.len() == 6,
            forall|j: int|
                0 <= j < 6 ==> r@[j] == self.neighbor_entry(
                    #[trigger] neighbor((x as int, y as int, z as int), j),
                ),
    {
        let mut neighbors: Vec<BlockPos> = Vec::new();
        self.add_if_in_bounds(&mut neighbors, x, y + 1, z);
        self.add_if_in_bounds(&mut neighbors, x, y - 1, z);
        self.add_if_in_bounds(&mut neighbors, x + 1, y, z);
        self.add_if_in_bounds(&mut neighbors, x - 1, y, z);
        self.add_if_in_bounds(&mut neighbors, x, y, z + 1);
        self.add_if_in_bounds(&mut neighbors, x, y, z - 1);
        neighbors
    }

    /// Writes a block at a cell of the region, then re-derives the visibility
    /// of that cell and of each of its neighbors that holds a block other
    /// than air: a write can expose a neighbor or enclose it.
    pub fn set_block(&mut self, x: u32, y: u8, z: u32, block: &Block)
        requires
            old(self).wf(),
            old(self).in_rendered((x as int, y as int, z as int)),
        ensures
            old(self).block_written(*final(self), (x as int, y as int, z as int), block.id),
            final(self).id_at((x as int, y as int, z as int)) == block.id,
            block.id == 0 ==> !final(self).visible_at((x as int, y as int, z as int)),
            block.id != 0 && final(self).exposed((x as int, y as int, z as int))
                ==> final(self).visible_at((x as int, y as int, z as int)),
            old(self).visibility_consistent() ==> final(self).visibility_consistent(),
    {
        let ghost c: Cell = (x as int, y as int, z as int);
        self.set_block_ignore_neighbors(x, y, z, block.id);
        let ghost mid = *self;
        let neighbors = self.get_facial_neighbors(x as i64, y as i16, z as i64);
        let mut i: usize = 0;
        while i < 6
            invariant
                0 <= i <= 6,
                old(self).wf(),
                old(self).in_rendered(c),
                mid.wf(),
                self.wf(),
                self.spec_render_distance() == mid.spec_render_distance(),
                self.spec_edge_policy() == mid.spec_edge_policy(),
                mid.spec_render_distance() == old(self).spec_render_distance(),
                mid.spec_edge_policy() == old(self).spec_edge_policy(),
                neighbors@.len() == 6,
                forall|j: int| 0 <= j < 6 ==> neighbors@[j] == mid.neighbor_entry(#[trigger] neighbor(c, j)),
                forall|p: Cell|
                    mid.in_rendered(p) ==> #[trigger] mid.id_at(p) == if p == c {
                        block.id
                    } else {
                        old(self).id_at(p)
                    },
                forall|p: Cell|
                    mid.in_rendered(p) ==> #[trigger] mid.visible_at(p) == if p == c {
                        block.id != 0 && mid.exposed(p)
                    } else {
                        old(self).visible_at(p)
                    },
                forall|p: Cell| self.in_rendered(p) ==> #[trigger] self.id_at(p) == mid.id_at(p),
                forall|p: Cell|
                    self.in_rendered(p) ==> #[trigger] self.visible_at(p) == if (exists|j: int|
                        0 <= j < i && #[trigger] neighbor(c, j) == p) && mid.id_at(p) != 0 {
                        mid.exposed(p)
                    } else {
                        mid.visible_at(p)
                    },
            decreases 6 - i,
        {
            let pos = neighbors[i];
            let ghost n = neighbor(c, i as int);
            let ghost pre = *self;
            if pos.block_id != 0 {
                assert(pos.cell() == n);
                self.set_block_ignore_neighbors(pos.x, pos.y, pos.z, pos.block_id);
                assert forall|p: Cell| self.in_rendered(p) implies #[trigger] self.visible_at(p)
                    == if (exists|j: int| 0 <= j < i + 1 && #[trigger] neighbor(c, j) == p)
                    && mid.id_at(p) != 0 {
                    mid.exposed(p)
                } else {
                    mid.visible_at(p)
                } by {
                    if p == n {
                        assert(self.exposed(p) == mid.exposed(p));
                    } else if exists|j: int| 0 <= j < i + 1 && #[trigger] neighbor(c, j) == p {
                        let j = choose|j: int| 0 <= j < i + 1 && #[trigger] neighbor(c, j) == p;
                        assert(j != i);
                        assert(pre.visible_at(p) == self.visible_at(p));
                    } else {
                        assert(pre.visible_at(p) == self.visible_at(p));
                    }
                }
            } else {
                assert forall|p: Cell| self.in_rendered(p) implies #[trigger] self.visible_at(p)
                    == if (exists|j: int| 0 <= j < i + 1 && #[trigger] neighbor(c, j) == p)
                    && mid.id_at(p) != 0 {
                    mid.exposed(p)
                } else {
                    mid.visible_at(p)
                } by {
                    if p == n {
                        assert(mid.id_at(p) == 0);
                    } else if exists|j: int| 0 <= j < i + 1 && #[trigger] neighbor(c, j) == p {
                        let j = choose|j: int| 0 <= j < i + 1 && #[trigger] neighbor(c, j) == p;
                        assert(j != i);
                    }
                }
            }
            i = i + 1;
        }
        proof {
            assert forall|p: Cell| self.in_rendered(p) implies #[trigger] self.visible_at(p) == if p
                == c || (adjacent(p, c) && self.id_at(p) != 0) {
                self.id_at(p) != 0 && self.exposed(p)
            } else {
                old(self).visible_at(p)
            } by {
                assert(self.exposed(p) == mid.exposed(p));
                lemma_adjacent_is_neighbor(p, c);
            }
            if old(self).visibility_consistent() {
                lemma_write_keeps_consistency(*old(self), *self, c, block.id);
            }
        }
    }

    /// Writes one cell and re-derives the visibility of that cell alone:
    /// a block other than air is visible when a face is open, air never is.
    fn set_block_ignore_neighbors(&mut self, raw_x: u32, raw_y: u8, raw_z: u32, block: u8)
        requires
            old(self).wf(),
            old(self).in_rendered((raw_x as int, raw_y as int, raw_z as int)),
        ensures
            final(self).wf(),
            final(self).spec_render_distance() == old(self).spec_render_distance(),
            final(self).spec_edge_policy() == old(self).spec_edge_policy(),
            forall|p: Cell|
                final(self).in_rendered(p) ==> #[trigger] final(self).id_at(p) == if p == (
                    raw_x as int,
                    raw_y as int,
                    raw_z as int,
                ) {
                    block
                } else {
                    old(self).id_at(p)
                },
            forall|p: Cell|
                final(self).in_rendered(p) ==> #[trigger] final(self).visible_at(p) == if p == (
                    raw_x as int,
                    raw_y as int,
                    raw_z as int,
                ) {
                    block != 0 && final(self).exposed(p)
                } else {
                    old(self).visible_at(p)
                },
    {
        let ghost c: Cell = (raw_x as int, raw_y as int, raw_z as int);
        let visible = block != 0 && self.is_exposed(raw_x, raw_y, raw_z);
        let (cx, lx) = split_coordinate(raw_x);
        let (cz, lz) = split_coordinate(raw_z);
        proof {
            self.lemma_wf_chunk(c);
        }
        let key = lx * 4096 + lz * 256 + raw_y as usize;
        self.chunks[cx][cz].write(key, block, visible);
        proof {
            let pre = *old(self);
            assert(self.wf()) by {
                assert forall|i: int, j: int|
                    0 <= i < self.render_distance && 0 <= j < self.render_distance implies (
                    #[trigger] self.chunks@[i]@[j]).wf() by {
                    assert(pre.chunks@[i]@[j].wf());
                }
                assert forall|i: int| 0 <= i < self.render_distance implies (
                #[trigger] self.chunks@[i])@.len() == self.render_distance by {
                    assert(pre.chunks@[i]@.len() == self.render_distance);
                }
            }
            assert forall|p: Cell| #[trigger] self.in_rendered(p) && p != c implies self.id_at(p)
                == pre.id_at(p) && self.visible_at(p) == pre.visible_at(p) by {
                pre.lemma_distinct_slots(p, c);
                pre.lemma_wf_chunk(p);
                if p.0 / 16 == c.0 / 16 && p.2 / 16 == c.2 / 16 {
                    assert(cell_key(p) as u16 != key as u16);
                }
            }
            assert forall|j: int| 0 <= j < 6 implies self.open_at(#[trigger] neighbor(c, j))
                == pre.open_at(neighbor(c, j)) by {
                assert(neighbor(c, j) != c);
            }
        }
    }
}

/// A world of `render_distance` x `render_distance` chunks whose every cell
/// holds `air_block`, with nothing visible, and whose border is treated as
/// the given policy says.
pub fn create_world_with_edge_policy(air_block: u8, render_distance: usize, edge_policy: EdgePolicy) -> (r: World)
    requires
        1 <= render_distance <= 255,
    ensures
        r.wf(),
        r.spec_render_distance() == render_distance,
        r.spec_edge_policy() == edge_policy,
        forall|p: Cell| r.in_rendered(p) ==> #[trigger] r.id_at(p) == air_block,
        forall|p: Cell| r.in_rendered(p) ==> !#[trigger] r.visible_at(p),
        air_block == 0 ==> r.visibility_consistent(),
{
    let mut chunk_array: Vec<Vec<Chunk>> = Vec::with_capacity(render_distance);
    let mut x: usize = 0;
    while x < render_distance
        invariant
            x <= render_distance,
            chunk_array@.len() == x,
            forall|i: int, j: int|
                0 <= i < x && 0 <= j < render_distance ==> {
                    let ch = #[trigger] chunk_array@[i]@[j];
                    &&& ch.wf()
                    &&& ch.ids() == Seq::new(CHUNK_CELLS as nat, |k: int| air_block)
                    &&& ch.visible() == Set::<u16>::empty()
                },
            forall|i: int| 0 <= i < x ==> (#[trigger] chunk_array@[i])@.len() == render_distance,
        decreases render_distance - x,
    {
        let mut row: Vec<Chunk> = Vec::with_capacity(render_distance);
        let mut z: usize = 0;
        while z < render_distance
            invariant
                z <= render_distance,
                row@.len() == z,
                forall|j: int|
                    0 <= j < z ==> {
                        let ch = #[trigger] row@[j];
                        &&& ch.wf()
                        &&& ch.ids() == Seq::new(CHUNK_CELLS as nat, |k: int| air_block)
                        &&& ch.visible() == Set::<u16>::empty()
                    },
            decreases render_distance - z,
        {
            row.push(create_chunk(air_block));
            z = z + 1;
        }
        chunk_array.push(row);
        x = x + 1;
    }
    let world = World { chunks: chunk_array, render_distance: render_distance as u8, edge_policy };
    proof {
        assert forall|p: Cell| world.in_rendered(p) implies #[trigger] world.id_at(p) == air_block
            && !world.visible_at(p) by {
            world.lemma_wf_chunk(p);
        }
        if air_block == 0 {
            assert forall|p: Cell| world.in_rendered(p) implies (#[trigger] world.visible_at(p) <==> (
            world.id_at(p) != 0 && world.exposed(p))) by {
                world.lemma_wf_chunk(p);
            }
        }
    }
    world
}

/// A world of `render_distance` x `render_distance` chunks whose every cell
/// holds `air_block`, with nothing visible. Cells outside the region count
/// as air, so blocks on its border are visible.
pub fn create_world(air_block: u8, render_distance: usize) -> (r: World)
    requires
        1 <= render_distance <= 255,
    ensures
        r.wf(),
        r.spec_render_distance() == render_distance,
        r.spec_edge_policy() == EdgePolicy::Exposed,
        forall|p: Cell| r.in_rendered(p) ==> #[trigger] r.id_at(p) == air_block,
        forall|p: Cell| r.in_rendered(p) ==> !#[trigger] r.visible_at(p),
        air_block == 0 ==> r.visibility_consistent(),
{
    create_world_with_edge_policy(air_block, render_distance, EdgePolicy::Exposed)
}

/// The game state that the world belongs to.
pub struct Game {
    pub world: World,
}

impl Game {
    pub fn new(air_block: u8, render_distance: u8) -> (r: Game)
        requires
            render_distance >= 1,
        ensures
            r.world.wf(),
            r.world.spec_render_distance() == render_distance,
            r.world.spec_edge_policy() == EdgePolicy::Exposed,
            forall|p: Cell| r.world.in_rendered(p) ==> #[trigger] r.world.id_at(p) == air_block,
            forall|p: Cell| r.world.in_rendered(p) ==> !#[trigger] r.world.visible_at(p),
            air_block == 0 ==> r.world.visibility_consistent(),
    {
        Game { world: create_world(air_block, render_distance as usize) }
    }
}

/// A write keeps every cell's visibility in step with its exposure: if each
/// cell of the region was visible exactly when it held a block other than
/// air with an open face, that still holds after the write.
pub proof fn lemma_write_keeps_consistency(before: World, after: World, c: Cell, id: u8)
    requires
        before.wf(),
        before.in_rendered(c),
        before.visibility_consistent(),
        before.block_written(after, c, id),
    ensures
        after.visibility_consistent(),
{
    assert forall|p: Cell| after.in_rendered(p) implies (#[trigger] after.visible_at(p) <==> (
    after.id_at(p) != 0 && after.exposed(p))) by {
        if p == c || adjacent(p, c) {
            assert(before.visible_at(p) == (before.id_at(p) != 0 && before.exposed(p)));
        } else {
            assert(before.visible_at(p) == (before.id_at(p) != 0 && before.exposed(p)));
            assert forall|j: int| 0 <= j < 6 implies #[trigger] neighbor(p, j) != c by {
                if neighbor(p, j) == c {
                    assert(adjacent(p, c));
                }
            }
            assert(after.exposed(p) == before.exposed(p));
        }
    }
}

/// Sealing and reopening a face. Let `c` hold a block other than air and
/// let `n` be one of its neighbors. Writing a block other than air at `n`
/// when `n` was the last open face of `c` removes `c` from the visible set;
/// writing air at `n` puts `c` back.
pub proof fn lemma_seal_and_reopen(before: World, after: World, n: Cell, id: u8, c: Cell)
    requires
        before.wf(),
        before.in_rendered(n),
        before.in_rendered(c),
        adjacent(c, n),
        before.id_at(c) != 0,
        before.block_written(after, n, id),
    ensures
        id != 0 && (forall|j: int|
            0 <= j < 6 && #[trigger] neighbor(c, j) != n ==> !before.open_at(neighbor(c, j)))
            ==> !after.visible_at(c),
        id == 0 ==> after.visible_at(c),
{
    assert(c != n);
    assert(after.visible_at(c) == (after.id_at(c) != 0 && after.exposed(c)));
    assert forall|j: int| 0 <= j < 6 && #[trigger] neighbor(c, j) != n implies after.open_at(
        neighbor(c, j),
    ) == before.open_at(neighbor(c, j)) by {}
    if id == 0 {
        if c == neighbor(n, 0) {
            assert(neighbor(c, 1) == n);
        } else if c == neighbor(n, 1) {
            assert(neighbor(c, 0) == n);
        } else if c == neighbor(n, 2) {
            assert(neighbor(c, 3) == n);
        } else if c == neighbor(n, 3) {
            assert(neighbor(c, 2) == n);
        } else if c == neighbor(n, 4) {
            assert(neighbor(c, 5) == n);
        } else {
            assert(neighbor(c, 4) == n);
        }
    } else if forall|j: int|
        0 <= j < 6 && #[trigger] neighbor(c, j) != n ==> !before.open_at(neighbor(c, j)) {
        assert(!after.open_at(n));
        assert(neighbor(c, 0) != n ==> !before.open_at(neighbor(c, 0)));
        assert(neighbor(c, 1) != n ==> !before.open_at(neighbor(c, 1)));
        assert(neighbor(c, 2) != n ==> !before.open_at(neighbor(c, 2)));
        assert(neighbor(c, 3) != n ==> !before.open_at(neighbor(c, 3)));
        assert(neighbor(c, 4) != n ==> !before.open_at(neighbor(c, 4)));
        assert(neighbor(c, 5) != n ==> !before.open_at(neighbor(c, 5)));
    }
}

} // verus!
