use dungeon_feature::item::{
    equip_slot_label, highest_rarity, inventory_capacity, item_kind_label, rarity_prefix, rarity_rank,
    should_auto_equip, EquipSlot, ItemConfig, ItemKind, ItemSpec, Rarity,
};
use dungeon_feature::player_state::{try_add_to_inventory, Equipment, Inventory};

fn make_spec(kind: ItemKind, rarity: Rarity, level: u32, value: u32) -> ItemSpec {
    ItemSpec { kind, rarity, level, value }
}

fn default_item_config() -> ItemConfig {
    ItemConfig {
        weapon_base_stat: 5,
        armor_base_stat: 3,
        potion_base_heal: 20,
        backpack_base_capacity: 2,
        backpack_capacity_per_rarity: 1,
    }
}

#[test]
fn test_inventory_capacity_with_backpack() {
    let config = default_item_config();
    let equipment = Equipment::default();
    assert_eq!(inventory_capacity(&equipment, &config), 8);

    let equipment = Equipment {
        backpack: Some(make_spec(ItemKind::Backpack, Rarity::Common, 1, 1)),
        ..Default::default()
    };
    assert_eq!(inventory_capacity(&equipment, &config), 10);

    let equipment = Equipment {
        backpack: Some(make_spec(ItemKind::Backpack, Rarity::Legendary, 1, 1)),
        ..Default::default()
    };
    assert_eq!(inventory_capacity(&equipment, &config), 14);
}

#[test]
fn test_should_auto_equip() {
    let spec = make_spec(ItemKind::Weapon, Rarity::Common, 1, 10);
    assert!(should_auto_equip(None, &spec));

    let current = make_spec(ItemKind::Weapon, Rarity::Common, 1, 5);
    assert!(should_auto_equip(Some(&current), &spec));

    let current = make_spec(ItemKind::Weapon, Rarity::Rare, 5, 15);
    assert!(!should_auto_equip(Some(&current), &spec));
}

#[test]
fn test_try_add_to_inventory_respects_capacity() {
    let mut inventory = Inventory { slots: [None; 16], capacity: 8 };

    for i in 0..8 {
        let item = make_spec(ItemKind::Weapon, Rarity::Common, 1, i + 1);
        assert!(try_add_to_inventory(&mut inventory, item));
    }

    let item = make_spec(ItemKind::Weapon, Rarity::Common, 1, 100);
    assert!(!try_add_to_inventory(&mut inventory, item));

    assert!(inventory.slots[8].is_none());
}

#[test]
fn test_inventory_add_item() {
    let mut inventory = Inventory::default();
    let item = make_spec(ItemKind::Weapon, Rarity::Common, 1, 5);
    assert!(try_add_to_inventory(&mut inventory, item));
    assert!(inventory.slots[0].is_some());
    assert_eq!(inventory.slots[0].unwrap().value, 5);
}

#[test]
fn test_rarity_rank_ordering() {
    assert_eq!(rarity_rank(Rarity::Common), 0);
    assert_eq!(rarity_rank(Rarity::Uncommon), 1);
    assert_eq!(rarity_rank(Rarity::Rare), 2);
    assert_eq!(rarity_rank(Rarity::Epic), 3);
    assert_eq!(rarity_rank(Rarity::Legendary), 4);
    assert!(rarity_rank(Rarity::Common) < rarity_rank(Rarity::Legendary));
}

#[test]
fn test_highest_rarity_empty() {
    let slots: [Option<ItemSpec>; 3] = [None, None, None];
    assert!(highest_rarity(&slots).is_none());
}

#[test]
fn test_highest_rarity_mixed() {
    let slots: [Option<ItemSpec>; 3] = [
        Some(make_spec(ItemKind::Weapon, Rarity::Common, 1, 5)),
        Some(make_spec(ItemKind::Head, Rarity::Epic, 1, 10)),
        Some(make_spec(ItemKind::Torso, Rarity::Rare, 1, 8)),
    ];
    assert_eq!(highest_rarity(&slots), Some(Rarity::Epic));
}

#[test]
fn highest_rarity_keeps_the_first_of_equals() {
    let slots: [Option<ItemSpec>; 3] = [
        None,
        Some(make_spec(ItemKind::Weapon, Rarity::Rare, 1, 5)),
        Some(make_spec(ItemKind::Head, Rarity::Rare, 2, 9)),
    ];
    assert_eq!(highest_rarity(&slots), Some(Rarity::Rare));
}

#[test]
fn equal_value_does_not_replace_worn_item() {
    let worn = make_spec(ItemKind::Weapon, Rarity::Common, 1, 10);
    let new = make_spec(ItemKind::Weapon, Rarity::Epic, 9, 10);
    assert!(!should_auto_equip(Some(&worn), &new));
}

#[test]
fn equip_slots_of_kinds() {
    assert_eq!(ItemKind::Weapon.equip_slot(), Some(EquipSlot::Weapon));
    assert_eq!(ItemKind::Backpack.equip_slot(), Some(EquipSlot::Backpack));
    assert_eq!(ItemKind::HealthPotion.equip_slot(), None);
}

#[test]
fn labels_of_kinds_slots_and_rarities() {
    assert_eq!(item_kind_label(ItemKind::HealthPotion), "回復薬");
    assert_eq!(item_kind_label(ItemKind::Charm), "装飾");
    assert_eq!(equip_slot_label(EquipSlot::Backpack), "背嚢");
    assert_eq!(equip_slot_label(EquipSlot::Weapon), item_kind_label(ItemKind::Weapon));
    assert_eq!(rarity_prefix(Rarity::Common), "");
    assert_eq!(rarity_prefix(Rarity::Legendary), "[L]");
}

#[test]
fn capacity_never_exceeds_the_slot_array() {
    let config = ItemConfig {
        weapon_base_stat: 5,
        armor_base_stat: 3,
        potion_base_heal: 20,
        backpack_base_capacity: 200,
        backpack_capacity_per_rarity: 1,
    };
    let equipment = Equipment {
        backpack: Some(make_spec(ItemKind::Backpack, Rarity::Common, 1, 1)),
        ..Default::default()
    };
    assert_eq!(inventory_capacity(&equipment, &config), 16);
}

fn shareable<T: Send + Sync + 'static>() {}

#[test]
fn library_values_can_be_shared_between_threads() {
    shareable::<dungeon_feature::item::ItemSpec>();
    shareable::<dungeon_feature::player_state::PlayerState>();
    shareable::<dungeon_feature::dungeon::FloorMap>();
    shareable::<dungeon_feature::transfer::TransferState>();
}
