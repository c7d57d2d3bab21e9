use dungeon_feature::combat::Health;
use dungeon_feature::ending::{ending_candidates, ending_item_at, CandidateSource};
use dungeon_feature::inventory::{
    action_label, apply_pickup, build_actions, cursor_after_keys, execute_item_action, format_equip_slot_text,
    format_slot, format_slot_text, refresh_inventory_capacity, ItemAction, PickupOutcome,
};
use dungeon_feature::item::{EquipSlot, ItemConfig, ItemKind, ItemSpec, Rarity};
use dungeon_feature::player_state::{Equipment, Inventory, PlayerState};
use dungeon_feature::text::push_decimal;
use dungeon_feature::transfer::TransferState;
use rand::rngs::StdRng;
use rand::SeedableRng;

fn spec(kind: ItemKind, rarity: Rarity, level: u32, value: u32) -> ItemSpec {
    ItemSpec { kind, rarity, level, value }
}

fn config() -> ItemConfig {
    ItemConfig {
        weapon_base_stat: 5,
        armor_base_stat: 3,
        potion_base_heal: 20,
        backpack_base_capacity: 2,
        backpack_capacity_per_rarity: 1,
    }
}

fn fresh_player() -> PlayerState {
    PlayerState { current_hp: 100, equipment: Equipment::default(), inventory: Inventory::default() }
}

#[test]
fn menu_actions_by_kind() {
    let (actions, n) = build_actions(&spec(ItemKind::HealthPotion, Rarity::Common, 1, 20));
    assert_eq!(n, 5);
    assert_eq!(
        &actions[..n],
        &[ItemAction::Use, ItemAction::SendFuture, ItemAction::SendPast, ItemAction::Discard, ItemAction::Close]
    );
    assert_eq!(actions[5], ItemAction::Close);
    let (actions, n) = build_actions(&spec(ItemKind::Torso, Rarity::Rare, 3, 6));
    assert_eq!(n, 5);
    assert_eq!(actions[0], ItemAction::Equip);
}

#[test]
fn action_labels_show_charges() {
    assert_eq!(action_label(ItemAction::SendFuture, 3), "未来に送る (残:3)");
    assert_eq!(action_label(ItemAction::SendPast, 12), "過去に送る (残:12)");
    assert_eq!(action_label(ItemAction::SendFuture, 0), "未来に送る (不可)");
    assert_eq!(action_label(ItemAction::Equip, 0), "装備する");
    assert_eq!(action_label(ItemAction::Close, 9), "閉じる");
}

#[test]
fn slot_texts() {
    let s = spec(ItemKind::Weapon, Rarity::Rare, 3, 12);
    assert_eq!(format_slot_text(0, &Some(s), true), "> [1] [R]武器 Lv3 (+12)");
    assert_eq!(format_slot_text(1, &None, false), "  [2] ---");
    assert_eq!(format_equip_slot_text(EquipSlot::Head, None), "頭: ---");
    assert_eq!(format_equip_slot_text(EquipSlot::Weapon, Some(&s)), "武器: [R]武器 Lv3 (+12)");
    assert_eq!(format_slot("ATK", Some(&s)), "ATK:[R](+12)");
    assert_eq!(format_slot("DEF", None), "DEF:-");
}

#[test]
fn decimal_text() {
    let mut t = String::from("x");
    push_decimal(&mut t, 1234);
    assert_eq!(t, "x1234");
    let mut z = String::new();
    push_decimal(&mut z, 0);
    assert_eq!(z, "0");
}

#[test]
fn cursor_moves_inside_the_list() {
    assert_eq!(cursor_after_keys(0, true, false, 5), 0);
    assert_eq!(cursor_after_keys(4, false, true, 5), 4);
    assert_eq!(cursor_after_keys(2, false, true, 5), 3);
    assert_eq!(cursor_after_keys(2, true, false, 5), 1);
    assert_eq!(cursor_after_keys(2, true, true, 5), 2);
}

#[test]
fn pickup_heals_equips_stores_or_discards() {
    let mut player = fresh_player();
    let mut health = Health { current: 50, max: 100 };
    assert_eq!(apply_pickup(&mut player, &mut health, spec(ItemKind::HealthPotion, Rarity::Common, 1, 30)), PickupOutcome::Healed);
    assert_eq!(health.current, 80);
    apply_pickup(&mut player, &mut health, spec(ItemKind::HealthPotion, Rarity::Common, 1, 30));
    assert_eq!(health.current, 100);

    let sword = spec(ItemKind::Weapon, Rarity::Common, 1, 10);
    assert_eq!(apply_pickup(&mut player, &mut health, sword), PickupOutcome::Equipped { dropped: None });
    assert_eq!(player.equipment.weapon, Some(sword));

    let stick = spec(ItemKind::Weapon, Rarity::Common, 1, 2);
    assert_eq!(apply_pickup(&mut player, &mut health, stick), PickupOutcome::Stored);
    assert_eq!(player.inventory.slots[0], Some(stick));

    let axe = spec(ItemKind::Weapon, Rarity::Epic, 4, 25);
    assert_eq!(apply_pickup(&mut player, &mut health, axe), PickupOutcome::Equipped { dropped: None });
    assert_eq!(player.equipment.weapon, Some(axe));
    assert_eq!(player.inventory.slots[1], Some(sword));

    for i in 0..6 {
        apply_pickup(&mut player, &mut health, spec(ItemKind::Weapon, Rarity::Common, 1, i));
    }
    assert_eq!(apply_pickup(&mut player, &mut health, stick), PickupOutcome::Discarded);
}

#[test]
fn discard_and_equip_actions() {
    let mut player = fresh_player();
    let mut transfer = TransferState::new(3);
    let mut health = Some(Health { current: 40, max: 100 });
    let mut selected = 0usize;
    let mut rng = StdRng::seed_from_u64(5);
    let helm = spec(ItemKind::Head, Rarity::Common, 2, 4);
    let bag = spec(ItemKind::Backpack, Rarity::Legendary, 1, 1);
    player.inventory.slots[0] = Some(helm);
    player.inventory.slots[1] = Some(bag);

    execute_item_action(ItemAction::Equip, 0, &mut selected, &mut player, &mut transfer, &mut health, 3, 50, &config(), &mut rng);
    assert_eq!(player.equipment.head, Some(helm));
    assert!(player.inventory.slots[0].is_none());

    execute_item_action(ItemAction::Equip, 1, &mut selected, &mut player, &mut transfer, &mut health, 3, 50, &config(), &mut rng);
    assert_eq!(player.equipment.backpack, Some(bag));
    assert_eq!(player.inventory.capacity, 14);

    player.inventory.slots[2] = Some(helm);
    execute_item_action(ItemAction::Discard, 2, &mut selected, &mut player, &mut transfer, &mut health, 3, 50, &config(), &mut rng);
    assert!(player.inventory.slots[2].is_none());
    assert_eq!(transfer.charges, 3);
}

#[test]
fn use_and_send_actions() {
    let mut player = fresh_player();
    let mut transfer = TransferState::new(1);
    let mut health = Some(Health { current: 40, max: 100 });
    let mut selected = 0usize;
    let mut rng = StdRng::seed_from_u64(9);
    player.inventory.slots[0] = Some(spec(ItemKind::HealthPotion, Rarity::Common, 1, 25));
    execute_item_action(ItemAction::Use, 0, &mut selected, &mut player, &mut transfer, &mut health, 3, 50, &config(), &mut rng);
    assert_eq!(health, Some(Health { current: 65, max: 100 }));
    assert!(player.inventory.slots[0].is_none());

    let ring = spec(ItemKind::Charm, Rarity::Rare, 6, 3);
    player.inventory.slots[1] = Some(ring);
    execute_item_action(ItemAction::SendFuture, 1, &mut selected, &mut player, &mut transfer, &mut health, 3, 50, &config(), &mut rng);
    assert!(player.inventory.slots[1].is_none());
    assert_eq!(transfer.charges, 0);
    let sent = transfer.future_items[0].unwrap();
    assert_eq!(sent.spec, ring);
    assert_eq!(sent.source_floor, 3);
    assert!(sent.target_floor >= 7 && sent.target_floor <= 50);

    player.inventory.slots[2] = Some(ring);
    execute_item_action(ItemAction::SendPast, 2, &mut selected, &mut player, &mut transfer, &mut health, 3, 50, &config(), &mut rng);
    assert_eq!(player.inventory.slots[2], Some(ring));
    assert!(transfer.past_items[0].is_none());
}

#[test]
fn ending_lists_worn_then_carried_items() {
    let mut player = fresh_player();
    let sword = spec(ItemKind::Weapon, Rarity::Common, 1, 10);
    let boots = spec(ItemKind::Legs, Rarity::Uncommon, 2, 4);
    let potion = spec(ItemKind::HealthPotion, Rarity::Common, 1, 20);
    player.equipment.weapon = Some(sword);
    player.equipment.legs = Some(boots);
    player.inventory.slots[2] = Some(potion);
    let list = ending_candidates(&player);
    assert_eq!(list.len(), 3);
    assert_eq!(list[0].source, CandidateSource::Equipped(EquipSlot::Weapon));
    assert_eq!(list[1].source, CandidateSource::Equipped(EquipSlot::Legs));
    assert_eq!(list[2].source, CandidateSource::Carried(2));
    assert_eq!(ending_item_at(&player, 2), Some(potion));
    assert_eq!(ending_item_at(&player, 3), None);
}

#[test]
fn capacity_follows_the_worn_backpack() {
    let mut p = fresh_player();
    p.inventory.capacity = 3;
    refresh_inventory_capacity(&mut p, &config());
    assert_eq!(p.inventory.capacity, 8);
    p.equipment.backpack = Some(spec(ItemKind::Backpack, Rarity::Rare, 1, 0));
    refresh_inventory_capacity(&mut p, &config());
    assert_eq!(p.inventory.capacity, 12);
    assert_eq!(p.current_hp, 100);
}
