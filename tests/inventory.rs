use voxel_world::{BlockType, Inventory, ItemStack, Player};

fn counts(inv: &Inventory) -> Vec<(u8, u8)> {
    inv.contents().iter().map(|s| (s.id, s.count)).collect()
}

#[test]
fn overflowing_push_fills_two_slots() {
    let mut player = Player::new();
    let left = player.push_item(ItemStack::new(1, 70, 64), false);
    assert_eq!(left, 0);
    let storage = player.get_inventory();
    assert_eq!((storage[0].id, storage[0].count, storage[0].max), (1, 64, 64));
    assert_eq!((storage[1].id, storage[1].count, storage[1].max), (1, 6, 64));
    assert!(storage[2..].iter().all(|s| s.is_empty()));
    assert!(player.get_hotbar().iter().all(|s| s.is_empty()));
}

#[test]
fn full_inventory_returns_everything() {
    let mut inv = Inventory::new();
    for _ in 0..36 {
        assert_eq!(inv.push_item(ItemStack::new(2, 64, 64), true), 0);
    }
    let before = counts(&inv);
    assert_eq!(inv.push_item(ItemStack::new(3, 10, 64), true), 10);
    assert_eq!(counts(&inv), before);
}

#[test]
fn full_stacks_of_same_id_and_no_empty_slot_return_everything() {
    let mut inv = Inventory::new();
    for _ in 0..36 {
        inv.push_item(ItemStack::new(2, 64, 64), true);
    }
    assert_eq!(inv.push_item(ItemStack::new(2, 5, 64), true), 5);
}

#[test]
fn merge_tops_up_existing_stacks_first() {
    let mut inv = Inventory::new();
    assert_eq!(inv.push_item(ItemStack::new(1, 60, 64), false), 0);
    assert_eq!(inv.push_item(ItemStack::new(4, 1, 64), false), 0);
    assert_eq!(inv.push_item(ItemStack::new(1, 10, 64), false), 0);
    assert_eq!(inv.get_slot(1, 0).count, 64);
    assert_eq!(inv.get_slot(1, 1).id, 4);
    assert_eq!((inv.get_slot(1, 2).id, inv.get_slot(1, 2).count), (1, 6));
}

#[test]
fn empty_push_is_a_no_op() {
    let mut inv = Inventory::new();
    let before = counts(&inv);
    assert_eq!(inv.push_item(ItemStack::new(1, 0, 64), true), 0);
    assert_eq!(counts(&inv), before);
}

#[test]
fn hotbar_only_when_allowed() {
    let mut inv = Inventory::new();
    inv.push_item(ItemStack::new_block(BlockType::Stone, 3), true);
    assert_eq!(inv.get_slot(0, 0).count, 3);
    let mut other = Inventory::new();
    other.push_item(ItemStack::new_block(BlockType::Stone, 3), false);
    assert!(other.get_slot(0, 0).is_empty());
    assert_eq!(other.get_slot(1, 0).count, 3);
}

#[test]
fn storage_full_leaves_hotbar_untouched_without_permission() {
    let mut inv = Inventory::new();
    for _ in 0..27 {
        inv.push_item(ItemStack::new(2, 64, 64), false);
    }
    assert_eq!(inv.push_item(ItemStack::new(3, 7, 64), false), 7);
    assert!(inv.hotbar().iter().all(|s| s.is_empty()));
    assert_eq!(inv.push_item(ItemStack::new(3, 7, 64), true), 0);
    assert_eq!(inv.get_slot(0, 0).count, 7);
}

#[test]
fn very_large_push_spreads_over_slots() {
    let mut inv = Inventory::new();
    assert_eq!(inv.push_item(ItemStack::new(5, 255, 16), true), 0);
    let c = counts(&inv);
    assert_eq!(&c[0..16], &vec![(5, 16); 15].into_iter().chain(vec![(5, 15)]).collect::<Vec<_>>()[..]);
    assert_eq!(c[16], (0, 0));
}

#[test]
fn decrement_takes_one_unit() {
    let mut inv = Inventory::new();
    inv.push_item(ItemStack::new(1, 2, 64), true);
    assert!(inv.decrement_slot(0, 0));
    assert_eq!(inv.get_slot(0, 0).count, 1);
    assert!(inv.decrement_slot(0, 0));
    assert!(inv.get_slot(0, 0).is_empty());
    assert!(!inv.decrement_slot(0, 0));
    assert_eq!(inv.get_slot(0, 0).count, 0);
}

#[test]
fn new_player_defaults() {
    let p = Player::new();
    assert_eq!(p.selected_index, 0);
    assert_eq!(p.health, 100);
    assert!(!p.noclip && !p.creative && !p.inventory_open && !p.grounded);
    assert_eq!(p.get_inventory_contents().len(), 36);
    assert_eq!(p.get_inventory().len(), 27);
    assert_eq!(p.get_hotbar().len(), 9);
    assert!(p.get_inventory_contents().iter().all(|s| s.max == 64 && s.count == 0));
}

#[test]
fn item_stack_constructors() {
    let s = ItemStack::new_block(BlockType::Grass, 5);
    assert_eq!((s.id, s.count, s.max), (4, 5, 64));
    assert!(!s.is_empty());
    assert!(ItemStack::new(1, 0, 8).is_empty());
}

#[test]
fn push_conserves_units() {
    let mut inv = Inventory::new();
    inv.push_item(ItemStack::new(7, 50, 64), true);
    inv.push_item(ItemStack::new(8, 64, 64), true);
    let held = |inv: &Inventory| -> u32 {
        inv.contents().iter().filter(|s| s.id == 7).map(|s| s.count as u32).sum()
    };
    let before = held(&inv);
    let left = inv.push_item(ItemStack::new(7, 200, 64), true);
    assert_eq!(left, 0);
    assert_eq!(held(&inv), before + 200);
    assert_eq!(inv.get_slot(0, 0).count, 64);
    assert_eq!(inv.get_slot(0, 1).id, 8);
    assert_eq!((inv.get_slot(0, 2).count, inv.get_slot(0, 3).count, inv.get_slot(0, 4).count), (64, 64, 58));
}
