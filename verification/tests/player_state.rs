use dungeon_feature::item::{EquipSlot, ItemKind, ItemSpec, Rarity};
use dungeon_feature::player_state::{Equipment, Inventory, PlayerState};

fn make_spec(kind: ItemKind, value: u32) -> ItemSpec {
    ItemSpec { kind, rarity: Rarity::Common, level: 1, value }
}

#[test]
fn test_player_state_reset() {
    let mut state = PlayerState {
        current_hp: 30,
        equipment: Equipment {
            weapon: Some(make_spec(ItemKind::Weapon, 10)),
            head: Some(make_spec(ItemKind::Head, 5)),
            ..Default::default()
        },
        inventory: Inventory {
            slots: {
                let mut s = [None; 16];
                s[0] = Some(make_spec(ItemKind::Weapon, 1));
                s
            },
            capacity: 8,
        },
    };
    state.reset(100);
    assert_eq!(state.current_hp, 100);
    assert!(state.equipment.weapon.is_none());
    assert!(state.equipment.head.is_none());
    assert!(state.inventory.slots.iter().all(|s| s.is_none()));
}

#[test]
fn test_equipment_get_set() {
    let mut equipment = Equipment::default();
    assert!(equipment.get(EquipSlot::Weapon).is_none());

    let spec = make_spec(ItemKind::Weapon, 10);
    let old = equipment.set(EquipSlot::Weapon, Some(spec));
    assert!(old.is_none());
    assert_eq!(equipment.get(EquipSlot::Weapon).unwrap().value, 10);

    let spec2 = make_spec(ItemKind::Weapon, 20);
    let old2 = equipment.set(EquipSlot::Weapon, Some(spec2));
    assert_eq!(old2.unwrap().value, 10);
    assert_eq!(equipment.get(EquipSlot::Weapon).unwrap().value, 20);
}

#[test]
fn setting_one_slot_leaves_the_others() {
    let mut equipment = Equipment::default();
    let helm = make_spec(ItemKind::Head, 4);
    equipment.set(EquipSlot::Head, Some(helm));
    equipment.set(EquipSlot::Shield, Some(make_spec(ItemKind::Shield, 6)));
    assert_eq!(equipment.get(EquipSlot::Head), Some(&helm));
    assert!(equipment.get(EquipSlot::Weapon).is_none());
    let removed = equipment.set(EquipSlot::Shield, None);
    assert_eq!(removed.unwrap().value, 6);
    assert!(equipment.get(EquipSlot::Shield).is_none());
}

#[test]
fn reset_restores_default_capacity() {
    let mut state = PlayerState {
        current_hp: 1,
        equipment: Equipment::default(),
        inventory: Inventory { slots: [None; 16], capacity: 14 },
    };
    state.reset(80);
    assert_eq!(state.inventory.capacity, 8);
    assert_eq!(state.current_hp, 80);
}
