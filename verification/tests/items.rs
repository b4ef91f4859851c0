use woodland::items::inventory::{Inventory, PickupCandidate};
use woodland::items::{apply_stack_merges, plan_fits, plan_stack_merges, ItemStack, ItemType, StackMerge};

fn all_near(n: usize) -> Vec<Vec<bool>> {
    vec![vec![true; n]; n]
}

fn counts(stacks: &[ItemStack]) -> Vec<u8> {
    stacks.iter().map(|s| s.count).collect()
}

#[test]
fn item_kinds() {
    assert_eq!(ItemType::Apple.max(), 16);
    assert_eq!(ItemType::BasicSword.max(), 1);
    assert_eq!(ItemType::Apple.asset_key(), "items/apple.png");
    assert_eq!(ItemType::BasicSword.asset_key(), "items/basic_sword.png");
}

#[test]
fn stack_capacity() {
    let s = ItemStack::new(ItemType::Apple, 10);
    assert_eq!(s.kind, ItemType::Apple);
    assert_eq!(s.count, 10);
    assert_eq!(s.available_item_capacity(), 6);
    assert_eq!(ItemStack::new(ItemType::BasicSword, 1).available_item_capacity(), 0);
    assert_eq!(ItemStack::new(ItemType::Apple, 0).available_item_capacity(), 16);
}

#[test]
fn matching_stacks_fill_up() {
    let mut stacks = vec![
        ItemStack::new(ItemType::Apple, 10),
        ItemStack::new(ItemType::Apple, 10),
        ItemStack::new(ItemType::BasicSword, 1),
    ];
    let plan = plan_stack_merges(&stacks, &all_near(3));
    assert_eq!(plan, vec![StackMerge { into: 0, from: 1, amount: 6 }]);
    assert!(plan_fits(&stacks, &plan));
    let emptied = apply_stack_merges(&mut stacks, &plan);
    assert_eq!(counts(&stacks), vec![16, 4, 1]);
    assert!(emptied.is_empty());
    assert_eq!(stacks[2].kind, ItemType::BasicSword);
}

#[test]
fn a_stack_that_fits_is_emptied() {
    let mut stacks = vec![ItemStack::new(ItemType::Apple, 3), ItemStack::new(ItemType::Apple, 5)];
    let plan = plan_stack_merges(&stacks, &all_near(2));
    assert_eq!(plan, vec![StackMerge { into: 0, from: 1, amount: 5 }]);
    let emptied = apply_stack_merges(&mut stacks, &plan);
    assert_eq!(counts(&stacks), vec![8, 0]);
    assert_eq!(emptied, vec![1]);
}

#[test]
fn stacks_far_apart_do_not_merge() {
    let stacks = vec![ItemStack::new(ItemType::Apple, 3), ItemStack::new(ItemType::Apple, 5)];
    let near = vec![vec![true, false], vec![false, true]];
    assert!(plan_stack_merges(&stacks, &near).is_empty());
}

#[test]
fn single_or_no_stack_plans_nothing() {
    assert!(plan_stack_merges(&vec![], &vec![]).is_empty());
    assert!(plan_stack_merges(&vec![ItemStack::new(ItemType::Apple, 1)], &all_near(1)).is_empty());
}

#[test]
fn full_swords_merge_nothing() {
    let mut stacks = vec![ItemStack::new(ItemType::BasicSword, 1), ItemStack::new(ItemType::BasicSword, 1)];
    let plan = plan_stack_merges(&stacks, &all_near(2));
    assert_eq!(plan, vec![StackMerge { into: 0, from: 1, amount: 0 }]);
    let emptied = apply_stack_merges(&mut stacks, &plan);
    assert_eq!(counts(&stacks), vec![1, 1]);
    assert!(emptied.is_empty());
}

#[test]
fn plans_use_counts_from_before_any_merge() {
    let stacks = vec![
        ItemStack::new(ItemType::Apple, 3),
        ItemStack::new(ItemType::Apple, 5),
        ItemStack::new(ItemType::Apple, 2),
    ];
    let plan = plan_stack_merges(&stacks, &all_near(3));
    assert_eq!(
        plan,
        vec![
            StackMerge { into: 0, from: 1, amount: 5 },
            StackMerge { into: 0, from: 2, amount: 2 },
            StackMerge { into: 1, from: 2, amount: 2 },
        ]
    );
    // The last merge would take two items from a stack already emptied.
    assert!(!plan_fits(&stacks, &plan));
}

#[test]
fn merging_conserves_items() {
    let mut stacks = vec![
        ItemStack::new(ItemType::Apple, 3),
        ItemStack::new(ItemType::Apple, 5),
        ItemStack::new(ItemType::Apple, 2),
    ];
    let near = vec![vec![true, true, true], vec![true, true, false], vec![true, false, true]];
    let before: u32 = stacks.iter().map(|s| s.count as u32).sum();
    let plan = plan_stack_merges(&stacks, &near);
    assert_eq!(plan, vec![StackMerge { into: 0, from: 1, amount: 5 }, StackMerge { into: 0, from: 2, amount: 2 }]);
    assert!(plan_fits(&stacks, &plan));
    let emptied = apply_stack_merges(&mut stacks, &plan);
    let after: u32 = stacks.iter().map(|s| s.count as u32).sum();
    assert_eq!(before, after);
    assert_eq!(counts(&stacks), vec![10, 0, 0]);
    assert_eq!(emptied, vec![1, 2]);
}

#[test]
fn plans_naming_missing_stacks_do_not_fit() {
    let stacks = vec![ItemStack::new(ItemType::Apple, 3)];
    assert!(!plan_fits(&stacks, &vec![StackMerge { into: 0, from: 1, amount: 1 }]));
    let full = vec![ItemStack { kind: ItemType::Apple, count: 250 }, ItemStack::new(ItemType::Apple, 10)];
    assert!(!plan_fits(&full, &vec![StackMerge { into: 0, from: 1, amount: 10 }]));
    assert!(plan_fits(&full, &vec![StackMerge { into: 0, from: 1, amount: 5 }]));
}

fn candidate(item: u64, cooldown_owner: Option<u64>, in_range: bool) -> PickupCandidate {
    PickupCandidate { item, cooldown_owner, in_range }
}

#[test]
fn new_inventory_is_empty() {
    let inv = Inventory::new(3);
    assert!(inv.is_empty());
    assert!(!inv.is_full());
    assert_eq!(inv.slot_count(), 3);
    assert_eq!(inv.selected_item, None);
    assert!(!inv.selecting_valid_item());
}

#[test]
fn pickup_fills_until_full() {
    let mut inv = Inventory::new(3);
    let mut claimed = Vec::new();
    let cands = vec![
        candidate(10, None, true),
        candidate(11, Some(1), true),
        candidate(12, None, false),
        candidate(13, Some(2), true),
        candidate(14, None, true),
        candidate(15, None, true),
    ];
    inv.pickup_nearby(1, &cands, &mut claimed);
    assert_eq!(inv.items, vec![10, 13, 14]);
    assert_eq!(inv.selected_item, Some(0));
    assert_eq!(claimed, vec![10, 13, 14]);
    assert!(inv.is_full());
    assert!(inv.selecting_valid_item());
}

#[test]
fn claimed_items_are_not_taken_twice() {
    let mut first = Inventory::new(5);
    let mut second = Inventory::new(5);
    let mut claimed = Vec::new();
    let cands = vec![candidate(1, None, true), candidate(2, None, true)];
    first.pickup_nearby(7, &cands, &mut claimed);
    second.pickup_nearby(8, &cands, &mut claimed);
    assert_eq!(first.items, vec![1, 2]);
    assert!(second.items.is_empty());
    assert_eq!(second.selected_item, None);
    assert_eq!(claimed, vec![1, 2]);
}

#[test]
fn full_inventory_picks_up_nothing() {
    let mut inv = Inventory { items: vec![1, 2], slot_count: 2, selected_item: Some(1) };
    let mut claimed = Vec::new();
    inv.pickup_nearby(9, &vec![candidate(3, None, true)], &mut claimed);
    assert_eq!(inv.items, vec![1, 2]);
    assert_eq!(inv.selected_item, Some(1));
    assert!(claimed.is_empty());
}

#[test]
fn dropping_keeps_a_valid_selection() {
    let mut inv = Inventory { items: vec![10, 13, 14], slot_count: 3, selected_item: Some(0) };
    assert_eq!(inv.drop_selected(), Some(10));
    assert_eq!(inv.items, vec![13, 14]);
    assert_eq!(inv.selected_item, Some(0));

    let mut inv = Inventory { items: vec![10, 13, 14], slot_count: 3, selected_item: Some(2) };
    assert_eq!(inv.drop_selected(), Some(14));
    assert_eq!(inv.items, vec![10, 13]);
    assert_eq!(inv.selected_item, Some(1));

    let mut inv = Inventory { items: vec![10], slot_count: 3, selected_item: Some(0) };
    assert_eq!(inv.drop_selected(), Some(10));
    assert!(inv.is_empty());
    assert_eq!(inv.selected_item, None);
}

#[test]
fn dropping_without_selection_does_nothing() {
    let mut inv = Inventory { items: vec![4, 5], slot_count: 3, selected_item: None };
    assert_eq!(inv.drop_selected(), None);
    assert_eq!(inv.items, vec![4, 5]);
    assert_eq!(inv.selected_item, None);
}

#[test]
fn selection_is_repaired() {
    let mut inv = Inventory { items: vec![4, 5], slot_count: 3, selected_item: Some(5) };
    assert!(!inv.selecting_valid_item());
    inv.select_valid_item();
    assert_eq!(inv.selected_item, Some(1));
    inv.select_valid_item();
    assert_eq!(inv.selected_item, Some(1));

    let mut empty = Inventory { items: vec![], slot_count: 3, selected_item: Some(0) };
    empty.select_valid_item();
    assert_eq!(empty.selected_item, None);

    let mut unselected = Inventory { items: vec![4, 5, 6], slot_count: 3, selected_item: None };
    unselected.select_valid_item();
    assert_eq!(unselected.selected_item, Some(2));
}

#[test]
fn despawned_items_are_removed() {
    let mut inv = Inventory { items: vec![4, 5, 6], slot_count: 3, selected_item: Some(2) };
    inv.retain_items(&vec![true, false, true]);
    assert_eq!(inv.items, vec![4, 6]);
    assert_eq!(inv.selected_item, Some(2));
    assert_eq!(inv.slot_count(), 3);
}

#[test]
fn merging_conserves_each_kind() {
    let mut stacks = vec![
        ItemStack::new(ItemType::Apple, 3),
        ItemStack::new(ItemType::BasicSword, 1),
        ItemStack::new(ItemType::Apple, 5),
        ItemStack::new(ItemType::BasicSword, 0),
    ];
    let plan = plan_stack_merges(&stacks, &all_near(4));
    assert_eq!(plan, vec![StackMerge { into: 0, from: 2, amount: 5 }, StackMerge { into: 1, from: 3, amount: 0 }]);
    assert!(plan_fits(&stacks, &plan));
    let emptied = apply_stack_merges(&mut stacks, &plan);
    let apples: u32 = stacks.iter().filter(|s| s.kind == ItemType::Apple).map(|s| s.count as u32).sum();
    let swords: u32 = stacks.iter().filter(|s| s.kind == ItemType::BasicSword).map(|s| s.count as u32).sum();
    assert_eq!((apples, swords), (8, 1));
    assert_eq!(counts(&stacks), vec![8, 1, 0, 0]);
    assert_eq!(emptied, vec![2, 3]);
}

#[test]
fn picked_items_come_from_eligible_unclaimed_candidates() {
    let mut inv = Inventory::new(4);
    let mut claimed = vec![20];
    let cands = vec![
        candidate(20, None, true),
        candidate(21, Some(3), true),
        candidate(22, None, false),
        candidate(23, Some(4), true),
        candidate(23, None, true),
    ];
    inv.pickup_nearby(3, &cands, &mut claimed);
    assert_eq!(inv.items, vec![23]);
    assert_eq!(claimed, vec![20, 23]);
}
