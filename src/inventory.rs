use vstd::prelude::*;
use crate::blocks::BlockType;

verus! {

/// Slots per row.
pub const ROW_SLOTS: usize = 9;

/// Rows: the hotbar (row 0) and three storage rows.
pub const ROWS: usize = 4;

/// All slots, row-major.
pub const SLOT_COUNT: usize = 36;

/// Default stack size of a block item.
pub const BLOCK_STACK_MAX: u8 = 64;

/// A stack of items. A count of 0 is an empty slot, whatever the id.
#[derive(Clone, Copy, PartialEq, Eq, Structural, Debug)]
pub struct ItemStack {
    pub id: u8,
    pub count: u8,
    pub max: u8,
}

impl ItemStack {
    /// A stack of block items, at most 64 to a stack.
    pub fn new_block(id: BlockType, count: u8) -> (r: ItemStack)
        ensures
            r == (ItemStack { id: id.id(), count, max: BLOCK_STACK_MAX }),
    {
        ItemStack { id: id.id(), count: count, max: BLOCK_STACK_MAX }
    }

    pub fn new(id: u8, count: u8, max: u8) -> (r: ItemStack)
        ensures
            r == (ItemStack { id, count, max }),
    {
        ItemStack { id: id, count: count, max: max }
    }

    pub fn is_empty(&self) -> (r: bool)
        ensures
            r == (self.count == 0),
    {
        self.count == 0
    }
}

/// The content of a slot in a new inventory.
pub open spec fn empty_slot() -> ItemStack {
    ItemStack { id: 0, count: 0, max: BLOCK_STACK_MAX }
}

/// First slot that `push_item` may use: the hotbar's first, or the first
/// storage slot.
pub open spec fn first_slot(hotbar: bool) -> int {
    if hotbar {
        0
    } else {
        ROW_SLOTS as int
    }
}

/// Free room in a stack.
pub open spec fn room(s: ItemStack) -> int {
    if s.count >= s.max {
        0
    } else {
        s.max - s.count
    }
}

/// The merge pass from slot `i` on: each slot with the item's id takes as
/// many of the `left` units as it has room for.
pub open spec fn merge_from(s: Seq<ItemStack>, i: int, id: u8, left: int) -> (Seq<ItemStack>, int)
    decreases SLOT_COUNT - i,
{
    if i >= SLOT_COUNT || i < 0 || i >= s.len() || left <= 0 {
        (s, left)
    } else if s[i].id == id {
        let add = if left < room(s[i]) {
            left
        } else {
            room(s[i])
        };
        merge_from(
            s.update(i, ItemStack { count: (s[i].count + add) as u8, ..s[i] }),
            i + 1,
            id,
            left - add,
        )
    } else {
        merge_from(s, i + 1, id, left)
    }
}

/// The placement pass from slot `i` on: each empty slot receives a stack
/// of the item holding as much of the remainder as one stack holds.
pub open spec fn place_from(s: Seq<ItemStack>, i: int, item: ItemStack, left: int) -> (Seq<ItemStack>, int)
    decreases SLOT_COUNT - i,
{
    if i >= SLOT_COUNT || i < 0 || i >= s.len() || left <= 0 {
        (s, left)
    } else if s[i].count == 0 {
        let put = if left < item.max {
            left
        } else {
            item.max as int
        };
        place_from(s.update(i, ItemStack { count: put as u8, ..item }), i + 1, item, left - put)
    } else {
        place_from(s, i + 1, item, left)
    }
}

/// The slots after pushing `item`, and the units that found no place.
pub open spec fn push_result(s: Seq<ItemStack>, item: ItemStack, hotbar: bool) -> (Seq<ItemStack>, int) {
    if item.count == 0 {
        (s, 0)
    } else {
        let merged = merge_from(s, first_slot(hotbar), item.id, item.count as int);
        place_from(merged.0, first_slot(hotbar), item, merged.1)
    }
}

/// Four rows of nine slots, row-major; row 0 is the hotbar, rows 1 to 3
/// are storage.
pub struct Inventory {
    slots: Vec<ItemStack>,
}

impl Inventory {
    pub closed spec fn view(&self) -> Seq<ItemStack> {
        self.slots@
    }

    /// 36 slots, none holding more than its stack size.
    pub open spec fn wf(&self) -> bool {
        &&& self@.len() == SLOT_COUNT
        &&& forall|i: int| 0 <= i < SLOT_COUNT ==> #[trigger] self@[i].count <= self@[i].max
    }

    /// Every slot empty, with block stack size.
    pub fn new() -> (r: Inventory)
        ensures
            r.wf(),
            forall|i: int| 0 <= i < SLOT_COUNT ==> #[trigger] r@[i] == empty_slot(),
    {
        let mut slots: Vec<ItemStack> = Vec::with_capacity(SLOT_COUNT);
        let mut i: usize = 0;
        while i < SLOT_COUNT
            invariant
                i <= SLOT_COUNT,
                slots@.len() == i,
                forall|k: int| 0 <= k < i ==> #[trigger] slots@[k] == empty_slot(),
            decreases SLOT_COUNT - i,
        {
            slots.push(ItemStack::new(0, 0, BLOCK_STACK_MAX));
            i = i + 1;
        }
        Inventory { slots }
    }

    /// The stack in a slot.
    pub fn get_slot(&self, row: usize, col: usize) -> (r: ItemStack)
        requires
            self.wf(),
            row < ROWS,
            col < ROW_SLOTS,
        ensures
            r == self@[row * ROW_SLOTS + col],
    {
        self.slots[row * ROW_SLOTS + col]
    }

    /// Takes one unit from a slot, as when a held block is placed. An empty
    /// slot is left as it is; the result says whether a unit was taken.
    pub fn decrement_slot(&mut self, row: usize, col: usize) -> (r: bool)
        requires
            old(self).wf(),
            row < ROWS,
            col < ROW_SLOTS,
        ensures
            final(self).wf(),
            r == (old(self)@[row * ROW_SLOTS + col].count > 0),
            final(self)@ == (if r {
                old(self)@.update(
                    row * ROW_SLOTS + col,
                    ItemStack {
                        count: (old(self)@[row * ROW_SLOTS + col].count - 1) as u8,
                        ..old(self)@[row * ROW_SLOTS + col]
                    },
                )
            } else {
                old(self)@
            }),
    {
        let k = row * ROW_SLOTS + col;
        let stack = self.slots[k];
        if stack.count > 0 {
            self.slots.set(k, ItemStack { count: stack.count - 1, ..stack });
            true
        } else {
            false
        }
    }

    /// Copies of the slots `from..to`.
    fn copy_slots(&self, from: usize, to: usize) -> (r: Vec<ItemStack>)
        requires
            self.wf(),
            from <= to <= SLOT_COUNT,
        ensures
            r@ == self@.subrange(from as int, to as int),
    {
        let mut out: Vec<ItemStack> = Vec::with_capacity(to - from);
        let mut i: usize = from;
        while i < to
            invariant
                from <= i <= to <= SLOT_COUNT,
                self.wf(),
                out@ == self@.subrange(from as int, i as int),
            decreases to - i,
        {
            out.push(self.slots[i]);
            i = i + 1;
            proof {
                assert(out@ =~= self@.subrange(from as int, i as int));
            }
        }
        out
    }

    /// The hotbar row.
    pub fn hotbar(&self) -> (r: Vec<ItemStack>)
        requires
            self.wf(),
        ensures
            r@ == self@.subrange(0, ROW_SLOTS as int),
    {
        self.copy_slots(0, ROW_SLOTS)
    }

    /// The three storage rows, row-major.
    pub fn storage(&self) -> (r: Vec<ItemStack>)
        requires
            self.wf(),
        ensures
            r@ == self@.subrange(ROW_SLOTS as int, SLOT_COUNT as int),
    {
        self.copy_slots(ROW_SLOTS, SLOT_COUNT)
    }

    /// All slots, row-major.
    pub fn contents(&self) -> (r: Vec<ItemStack>)
        requires
            self.wf(),
        ensures
            r@ == self@,
    {
        proof {
            assert(self@.subrange(0, SLOT_COUNT as int) =~= self@);
        }
        self.copy_slots(0, SLOT_COUNT)
    }

    /// Adds a stack to the inventory and returns how many units found no
    /// place. Storage rows are always used, the hotbar only when `hotbar`
    /// holds. First every stack with the same id, in slot order, is topped up;
    /// then what remains goes into empty slots, as much as one stack holds
    /// per slot. An empty stack changes nothing.
    pub fn push_item(&mut self, item: ItemStack, hotbar: bool) -> (r: u8)
        requires
            old(self).wf(),
        ensures
            final(self).wf(),
            (final(self)@, r as int) == push_result(old(self)@, item, hotbar),
    {
        if item.is_empty() {
            return 0;
        }
        let mut left: u8 = item.count;
        let start: usize = if hotbar {
            0
        } else {
            ROW_SLOTS
        };
        let mut i: usize = start;
        while i < SLOT_COUNT
            invariant
                self.wf(),
                start == first_slot(hotbar),
                start <= i <= SLOT_COUNT,
                left > 0,
                item.count > 0,
                merge_from(self@, i as int, item.id, left as int) == merge_from(
                    old(self)@,
                    start as int,
                    item.id,
                    item.count as int,
                ),
            decreases SLOT_COUNT - i,
        {
            let stack = self.slots[i];
            if stack.id == item.id {
                let room: u8 = if stack.count >= stack.max {
                    0
                } else {
                    stack.max - stack.count
                };
                let to_add: u8 = if left < room {
                    left
                } else {
                    room
                };
                let ghost pre = self@;
                self.slots.set(i, ItemStack { count: stack.count + to_add, ..stack });
                left = left - to_add;
                proof {
                    assert(self@ == pre.update(i as int, ItemStack { count: (pre[i as int].count + to_add) as u8, ..pre[i as int] }));
                }
                if left == 0 {
                    proof {
                        assert(merge_from(self@, i + 1, item.id, 0) == (self@, 0int));
                        assert(place_from(self@, start as int, item, 0) == (self@, 0int));
                    }
                    return 0;
                }
            }
            i = i + 1;
        }
        i = start;
        while i < SLOT_COUNT
            invariant
                self.wf(),
                start == first_slot(hotbar),
                start <= i <= SLOT_COUNT,
                left > 0,
                item.count > 0,
                place_from(self@, i as int, item, left as int) == place_from(
                    merge_from(old(self)@, start as int, item.id, item.count as int).0,
                    start as int,
                    item,
                    merge_from(old(self)@, start as int, item.id, item.count as int).1,
                ),
            decreases SLOT_COUNT - i,
        {
            if self.slots[i].is_empty() {
                let put: u8 = if left < item.max {
                    left
                } else {
                    item.max
                };
                self.slots.set(i, ItemStack { count: put, ..item });
                left = left - put;
                if left == 0 {
                    proof {
                        assert(place_from(self@, i + 1, item, 0) == (self@, 0int));
                    }
                    return 0;
                }
            }
            i = i + 1;
        }
        left
    }
}

/// A player: inventory and game flags.
pub struct Player {
    pub inventory: Inventory,
    pub selected_index: u8,
    pub health: u8,
    pub noclip: bool,
    pub creative: bool,
    pub inventory_open: bool,
    pub grounded: bool,
}

impl Player {
    pub fn new() -> (r: Player)
        ensures
            r.inventory.wf(),
            forall|i: int| 0 <= i < SLOT_COUNT ==> #[trigger] r.inventory@[i] == empty_slot(),
            r.selected_index == 0,
            r.health == 100,
            !r.noclip,
            !r.creative,
            !r.inventory_open,
            !r.grounded,
    {
        Player {
            inventory: Inventory::new(),
            selected_index: 0,
            health: 100,
            noclip: false,
            creative: false,
            inventory_open: false,
            grounded: false,
        }
    }

    /// The storage rows, row-major.
    pub fn get_inventory(&self) -> (r: Vec<ItemStack>)
        requires
            self.inventory.wf(),
        ensures
            r@ == self.inventory@.subrange(ROW_SLOTS as int, SLOT_COUNT as int),
    {
        self.inventory.storage()
    }

    /// The hotbar row.
    pub fn get_hotbar(&self) -> (r: Vec<ItemStack>)
        requires
            self.inventory.wf(),
        ensures
            r@ == self.inventory@.subrange(0, ROW_SLOTS as int),
    {
        self.inventory.hotbar()
    }

    /// All slots, row-major.
    pub fn get_inventory_contents(&self) -> (r: Vec<ItemStack>)
        requires
            self.inventory.wf(),
        ensures
            r@ == self.inventory@,
    {
        self.inventory.contents()
    }

    /// Adds a stack to the player's inventory; see `Inventory::push_item`.
    pub fn push_item(&mut self, item: ItemStack, hotbar: bool) -> (r: u8)
        requires
            old(self).inventory.wf(),
        ensures
            final(self).inventory.wf(),
            (final(self).inventory@, r as int) == push_result(old(self).inventory@, item, hotbar),
            final(self).selected_index == old(self).selected_index,
            final(self).health == old(self).health,
            final(self).noclip == old(self).noclip,
            final(self).creative == old(self).creative,
            final(self).inventory_open == old(self).inventory_open,
            final(self).grounded == old(self).grounded,
    {
        self.inventory.push_item(item, hotbar)
    }
}

/// Pushing a stack when no slot in reach holds the same id and none is
/// empty leaves the slots as they were and hands back every unit.
pub proof fn lemma_push_without_room(s: Seq<ItemStack>, item: ItemStack, hotbar: bool)
    requires
        s.len() == SLOT_COUNT,
        forall|i: int|
            first_slot(hotbar) <= i < SLOT_COUNT ==> #[trigger] s[i].id != item.id && s[i].count != 0,
    ensures
        push_result(s, item, hotbar) == (s, item.count as int),
{
    if item.count > 0 {
        lemma_merge_skips(s, first_slot(hotbar), item.id, item.count as int);
        assert forall|k: int| first_slot(hotbar) <= k < SLOT_COUNT implies #[trigger] s[k].count
            != 0 by {
            assert(s[k].id != item.id);
        }
        lemma_place_skips(s, first_slot(hotbar), item, item.count as int);
    }
}

proof fn lemma_merge_skips(s: Seq<ItemStack>, i: int, id: u8, left: int)
    requires
        s.len() == SLOT_COUNT,
        0 <= i,
        forall|k: int| i <= k < SLOT_COUNT ==> #[trigger] s[k].id != id,
    ensures
        merge_from(s, i, id, left) == (s, left),
    decreases SLOT_COUNT - i,
{
    if i < SLOT_COUNT && left > 0 {
        lemma_merge_skips(s, i + 1, id, left);
    }
}

proof fn lemma_place_skips(s: Seq<ItemStack>, i: int, item: ItemStack, left: int)
    requires
        s.len() == SLOT_COUNT,
        0 <= i,
        forall|k: int| i <= k < SLOT_COUNT ==> #[trigger] s[k].count != 0,
    ensures
        place_from(s, i, item, left) == (s, left),
    decreases SLOT_COUNT - i,
{
    if i < SLOT_COUNT && left > 0 {
        lemma_place_skips(s, i + 1, item, left);
    }
}

/// Units of item `id` held in the first `n` slots.
pub open spec fn units_of(s: Seq<ItemStack>, id: u8, n: int) -> int
    decreases n,
{
    if n <= 0 || n > s.len() {
        0
    } else {
        units_of(s, id, n - 1) + if s[n - 1].id == id {
            s[n - 1].count as int
        } else {
            0
        }
    }
}

proof fn lemma_units_update(s: Seq<ItemStack>, id: u8, n: int, i: int, x: ItemStack)
    requires
        0 <= i < n <= s.len(),
    ensures
        units_of(s.update(i, x), id, n) == units_of(s, id, n) - (if s[i].id == id {
            s[i].count as int
        } else {
            0
        }) + (if x.id == id {
            x.count as int
        } else {
            0
        }),
    decreases n,
{
    if n - 1 > i {
        lemma_units_update(s, id, n - 1, i, x);
    } else {
        lemma_units_unchanged(s, s.update(i, x), id, n - 1);
    }
}

proof fn lemma_units_unchanged(s: Seq<ItemStack>, t: Seq<ItemStack>, id: u8, n: int)
    requires
        0 <= n <= s.len(),
        n <= t.len(),
        forall|k: int| 0 <= k < n ==> #[trigger] s[k] == t[k],
    ensures
        units_of(s, id, n) == units_of(t, id, n),
    decreases n,
{
    if n > 0 {
        lemma_units_unchanged(s, t, id, n - 1);
    }
}

proof fn lemma_merge_conserves(s: Seq<ItemStack>, i: int, id: u8, left: int)
    requires
        s.len() == SLOT_COUNT,
        0 <= i,
        left >= 0,
    ensures
        units_of(merge_from(s, i, id, left).0, id, SLOT_COUNT as int) + merge_from(s, i, id, left).1
            == units_of(s, id, SLOT_COUNT as int) + left,
        merge_from(s, i, id, left).0.len() == SLOT_COUNT,
        merge_from(s, i, id, left).1 >= 0,
    decreases SLOT_COUNT - i,
{
    if i < SLOT_COUNT && left > 0 {
        if s[i].id == id {
            let add = if left < room(s[i]) {
                left
            } else {
                room(s[i])
            };
            let x = ItemStack { count: (s[i].count + add) as u8, ..s[i] };
            lemma_units_update(s, id, SLOT_COUNT as int, i, x);
            lemma_merge_conserves(s.update(i, x), i + 1, id, left - add);
        } else {
            lemma_merge_conserves(s, i + 1, id, left);
        }
    }
}

proof fn lemma_place_conserves(s: Seq<ItemStack>, i: int, item: ItemStack, left: int)
    requires
        s.len() == SLOT_COUNT,
        0 <= i,
        left >= 0,
    ensures
        units_of(place_from(s, i, item, left).0, item.id, SLOT_COUNT as int) + place_from(
            s,
            i,
            item,
            left,
        ).1 == units_of(s, item.id, SLOT_COUNT as int) + left,
    decreases SLOT_COUNT - i,
{
    if i < SLOT_COUNT && left > 0 {
        if s[i].count == 0 {
            let put = if left < item.max {
                left
            } else {
                item.max as int
            };
            let x = ItemStack { count: put as u8, ..item };
            lemma_units_update(s, item.id, SLOT_COUNT as int, i, x);
            lemma_place_conserves(s.update(i, x), i + 1, item, left - put);
        } else {
            lemma_place_conserves(s, i + 1, item, left);
        }
    }
}

/// Pushing loses and creates nothing: the units of the item's id held in
/// the slots grow by exactly the units pushed minus those handed back.
pub proof fn lemma_push_conserves_units(s: Seq<ItemStack>, item: ItemStack, hotbar: bool)
    requires
        s.len() == SLOT_COUNT,
    ensures
        units_of(push_result(s, item, hotbar).0, item.id, SLOT_COUNT as int) + push_result(
            s,
            item,
            hotbar,
        ).1 == units_of(s, item.id, SLOT_COUNT as int) + item.count,
{
    if item.count > 0 {
        let start = first_slot(hotbar);
        lemma_merge_conserves(s, start, item.id, item.count as int);
        let merged = merge_from(s, start, item.id, item.count as int);
        lemma_place_conserves(merged.0, start, item, merged.1);
    }
}

} // verus!
