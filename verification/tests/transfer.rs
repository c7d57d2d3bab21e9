use dungeon_feature::item::{ItemKind, ItemSpec, Rarity};
use dungeon_feature::transfer::{
    add_ending_carryover, add_future_transfer, add_past_transfer, can_transfer, collect_items_for_floor,
    future_transfer_level, minimum_target_floor, ArrivedItemInfo, TransferArrivalNotice, TransferState,
};
use rand::rngs::StdRng;
use rand::SeedableRng;

fn make_spec(kind: ItemKind, level: u32, value: u32) -> ItemSpec {
    ItemSpec { kind, rarity: Rarity::Common, level, value }
}

fn fresh_rng() -> StdRng {
    StdRng::from_os_rng()
}

#[test]
fn test_future_transfer_level() {
    assert_eq!(future_transfer_level(5, 8), 11);
    assert_eq!(future_transfer_level(8, 15), 22);
    assert_eq!(future_transfer_level(15, 30), 45);
}

#[test]
fn test_future_transfer_level_compound() {
    let lv1 = future_transfer_level(5, 8);
    assert_eq!(lv1, 11);
    let lv2 = future_transfer_level(8, 15);
    assert_eq!(lv2, 22);
}

#[test]
fn test_future_transfer_level_same_floor() {
    assert_eq!(future_transfer_level(5, 5), 5);
}

#[test]
fn test_minimum_target_floor() {
    let spec = make_spec(ItemKind::Weapon, 10, 50);
    assert_eq!(minimum_target_floor(&spec), 11);

    let spec2 = make_spec(ItemKind::Head, 1, 5);
    assert_eq!(minimum_target_floor(&spec2), 2);
}

#[test]
fn test_can_transfer() {
    let state = TransferState::new(5);
    assert!(can_transfer(&state));

    let state = TransferState::new(0);
    assert!(!can_transfer(&state));
}

#[test]
fn test_add_future_transfer() {
    let mut state = TransferState::new(5);
    let spec = make_spec(ItemKind::Weapon, 5, 10);
    assert!(add_future_transfer(&mut state, spec, 5, 10));
    assert_eq!(state.charges, 4);
    assert!(state.future_items[0].is_some());
    assert_eq!(state.future_items[0].unwrap().target_floor, 10);
}

#[test]
fn test_add_future_transfer_full() {
    let mut state = TransferState::new(100);
    let spec = make_spec(ItemKind::Weapon, 5, 10);
    for _ in 0..32 {
        assert!(add_future_transfer(&mut state, spec, 5, 10));
    }
    assert!(!add_future_transfer(&mut state, spec, 5, 10));
}

#[test]
fn test_add_past_transfer() {
    let mut state = TransferState::new(5);
    let spec = make_spec(ItemKind::Weapon, 5, 10);
    assert!(add_past_transfer(&mut state, spec, 5));
    assert!(state.past_items[0].is_some());
    assert_eq!(state.past_items[0].unwrap().source_floor, 5);
    assert_eq!(state.charges, 4);
}

#[test]
fn test_add_past_transfer_no_charges() {
    let mut state = TransferState::new(0);
    let spec = make_spec(ItemKind::Weapon, 5, 10);
    assert!(!add_past_transfer(&mut state, spec, 5));
}

#[test]
fn test_add_past_transfer_full() {
    let mut state = TransferState::new(100);
    let spec = make_spec(ItemKind::Weapon, 5, 10);
    for _ in 0..32 {
        assert!(add_past_transfer(&mut state, spec, 5));
    }
    assert!(!add_past_transfer(&mut state, spec, 5));
}

#[test]
fn test_add_ending_carryover_no_charges() {
    let mut state = TransferState::new(0);
    let spec = make_spec(ItemKind::Weapon, 5, 10);
    assert!(add_ending_carryover(&mut state, spec));
    assert_eq!(state.charges, 0);
    assert!(state.past_items[0].is_some());
    assert_eq!(state.past_items[0].unwrap().source_floor, 1);
}

#[test]
fn test_collect_items_for_floor() {
    let mut state = TransferState::new(5);
    let spec1 = make_spec(ItemKind::Weapon, 5, 10);
    let spec2 = make_spec(ItemKind::Head, 5, 5);
    let spec3 = make_spec(ItemKind::Torso, 10, 20);

    add_future_transfer(&mut state, spec1, 5, 10);
    add_future_transfer(&mut state, spec2, 5, 10);
    add_future_transfer(&mut state, spec3, 5, 15);

    let items = collect_items_for_floor(&mut state, 10);
    assert_eq!(items.len(), 2);
    assert!(state.future_items.iter().any(|s| s.is_some()));
}

#[test]
fn test_collect_items_for_floor_empty() {
    let mut state = TransferState::new(5);
    let items = collect_items_for_floor(&mut state, 10);
    assert!(items.is_empty());
}

#[test]
fn test_reset_for_new_run() {
    let mut state = TransferState::new(5);
    let spec = make_spec(ItemKind::Weapon, 10, 50);
    add_past_transfer(&mut state, spec, 8);
    add_future_transfer(&mut state, spec, 5, 10);

    let mut rng = fresh_rng();
    state.reset_for_new_run(5, &mut rng);

    assert_eq!(state.charges, 5);
    assert!(state.past_items.iter().all(|s| s.is_none()));
    let converted: Vec<_> = state.future_items.iter().filter_map(|s| *s).collect();
    assert_eq!(converted.len(), 1);
    let spawn_floor = converted[0].target_floor;
    assert!(spawn_floor >= 1 && spawn_floor <= 7);
    assert_eq!(converted[0].spec.level, spawn_floor);
    assert_eq!(converted[0].source_floor, converted[0].target_floor);
}

#[test]
fn test_reset_for_new_run_preserves_all_items() {
    let mut state = TransferState::new(100);
    let spec = make_spec(ItemKind::Weapon, 5, 10);
    for _ in 0..5 {
        add_past_transfer(&mut state, spec, 10);
    }
    let mut rng = fresh_rng();
    state.reset_for_new_run(5, &mut rng);

    let converted_count = state.future_items.iter().filter(|s| s.is_some()).count();
    assert_eq!(converted_count, 5);
    assert!(state.past_items.iter().all(|s| s.is_none()));
}

#[test]
fn test_past_transfer_from_floor_1() {
    let mut state = TransferState::new(5);
    let spec = make_spec(ItemKind::Weapon, 1, 5);
    add_past_transfer(&mut state, spec, 1);

    let mut rng = fresh_rng();
    state.reset_for_new_run(5, &mut rng);

    let converted: Vec<_> = state.future_items.iter().filter_map(|s| *s).collect();
    assert_eq!(converted.len(), 1);
    assert_eq!(converted[0].target_floor, 1);
    assert_eq!(converted[0].spec.level, 1);
}

#[test]
fn collected_items_keep_their_order_and_leave_the_rest() {
    let mut state = TransferState::new(5);
    let a = make_spec(ItemKind::Weapon, 5, 1);
    let b = make_spec(ItemKind::Head, 5, 2);
    let c = make_spec(ItemKind::Legs, 5, 3);
    add_future_transfer(&mut state, a, 5, 12);
    add_future_transfer(&mut state, b, 5, 20);
    add_future_transfer(&mut state, c, 5, 12);
    let items = collect_items_for_floor(&mut state, 12);
    assert_eq!(items.len(), 2);
    assert_eq!(items[0].spec, a);
    assert_eq!(items[1].spec, c);
    assert!(state.future_items[0].is_none());
    assert_eq!(state.future_items[1].unwrap().spec, b);
    assert!(state.future_items[2].is_none());
    assert_eq!(state.charges, 2);
}

#[test]
fn sent_item_is_queued_with_the_compound_level() {
    let mut state = TransferState::new(3);
    let spec = make_spec(ItemKind::Shield, 4, 9);
    assert!(add_future_transfer(&mut state, spec, 6, 10));
    let queued = state.future_items[0].unwrap();
    assert_eq!(queued.source_floor, 6);
    assert_eq!(queued.target_floor, 10);
    assert_eq!(queued.spec.kind, ItemKind::Shield);
}

#[test]
fn arrival_notice_clears() {
    let mut notice = TransferArrivalNotice::default();
    assert!(notice.is_empty());
    notice.items[3] = Some(ArrivedItemInfo { kind: ItemKind::Charm, rarity: Rarity::Epic, level: 7 });
    assert!(!notice.is_empty());
    notice.clear();
    assert!(notice.is_empty());
}

#[test]
fn add_future_transfer_without_charges_queues_and_stays_at_zero() {
    let mut state = TransferState::new(0);
    let spec = make_spec(ItemKind::Weapon, 5, 10);
    assert!(add_future_transfer(&mut state, spec, 5, 10));
    assert_eq!(state.charges, 0);
    assert_eq!(state.future_items[0].unwrap().target_floor, 10);
}
