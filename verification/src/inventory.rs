use rand::rngs::StdRng;
use vstd::prelude::*;
use crate::combat::{Health, spec_healed};
use crate::item::{
    EquipSlot, ItemConfig, ItemKind, ItemSpec, backpack_bonus, inventory_capacity, item_kind_label,
    equip_slot_label, rarity_prefix, should_auto_equip, spec_equip_slot, spec_equip_slot_label,
    spec_inventory_capacity, spec_item_kind_label, spec_rarity_prefix, Rarity,
};
use crate::player_state::{Equipment, PlayerState, first_free_slot, try_add_to_inventory};
use crate::rng::random_range_u32_inclusive;
use crate::text::{decimal, push_decimal};
use crate::transfer::{
    FutureTransferItem, PastTransferItem, TransferState, add_future_transfer, add_past_transfer,
    minimum_target_floor, spec_future_sent, spec_past_sent,
};

verus! {

/// What can be done with an inventory item from its context menu.
#[derive(Debug, Clone, Copy, PartialEq, Eq, Structural)]
pub enum ItemAction {
    Equip,
    Use,
    SendFuture,
    SendPast,
    Discard,
    Close,
}

/// An open context menu: the offered actions and the highlighted one.
#[derive(Debug, Clone, Copy)]
pub struct ContextMenuData {
    pub selected: usize,
    pub actions: [ItemAction; 6],
    pub action_count: usize,
}

/// The actions offered for an item, in menu order: Use for a potion or
/// Equip for equipment, then sending forward, sending back, discarding and
/// closing. Unused entries are Close.
pub open spec fn spec_actions(spec: ItemSpec) -> Seq<ItemAction> {
    if spec.kind == ItemKind::HealthPotion {
        seq![ItemAction::Use, ItemAction::SendFuture, ItemAction::SendPast, ItemAction::Discard, ItemAction::Close]
    } else if spec_equip_slot(spec.kind) is Some {
        seq![ItemAction::Equip, ItemAction::SendFuture, ItemAction::SendPast, ItemAction::Discard, ItemAction::Close]
    } else {
        seq![ItemAction::SendFuture, ItemAction::SendPast, ItemAction::Discard, ItemAction::Close]
    }
}

pub fn build_actions(spec: &ItemSpec) -> (r: ([ItemAction; 6], usize))
    ensures
        r.1 == spec_actions(*spec).len(),
        r.0@.subrange(0, r.1 as int) == spec_actions(*spec),
        forall|i: int| r.1 <= i < 6 ==> #[trigger] r.0@[i] == ItemAction::Close,
{
    let mut actions = [ItemAction::Close; 6];
    let mut count: usize = 0;

    match spec.kind {
        ItemKind::HealthPotion => {
            actions[count] = ItemAction::Use;
            count += 1;
        },
        _ => {
            if spec.kind.equip_slot().is_some() {
                actions[count] = ItemAction::Equip;
                count += 1;
            }
        },
    }
    actions[count] = ItemAction::SendFuture;
    count += 1;
    actions[count] = ItemAction::SendPast;
    count += 1;
    actions[count] = ItemAction::Discard;
    count += 1;
    actions[count] = ItemAction::Close;
    count += 1;

    assert(actions@.subrange(0, count as int) =~= spec_actions(*spec));
    (actions, count)
}


pub open spec fn spec_action_label(action: ItemAction, charges: u32) -> Seq<char> {
    match action {
        ItemAction::Equip => "装備する"@,
        ItemAction::Use => "使う"@,
        ItemAction::SendFuture => if charges > 0 {
            "未来に送る (残:"@ + decimal(charges as nat) + ")"@
        } else {
            "未来に送る (不可)"@
        },
        ItemAction::SendPast => if charges > 0 {
            "過去に送る (残:"@ + decimal(charges as nat) + ")"@
        } else {
            "過去に送る (不可)"@
        },
        ItemAction::Discard => "捨てる"@,
        ItemAction::Close => "閉じる"@,
    }
}

/// Menu text of an action; the transfer actions show the charges left, or
/// that they cannot be used.
pub fn action_label(action: ItemAction, charges: u32) -> (r: String)
    ensures
        r@ == spec_action_label(action, charges),
{
    match action {
        ItemAction::Equip => String::from_str("装備する"),
        ItemAction::Use => String::from_str("使う"),
        ItemAction::SendFuture => {
            if charges > 0 {
                let mut r = String::from_str("未来に送る (残:");
                push_decimal(&mut r, charges as u64);
                r.append(")");
                r
            } else {
                String::from_str("未来に送る (不可)")
            }
        },
        ItemAction::SendPast => {
            if charges > 0 {
                let mut r = String::from_str("過去に送る (残:");
                push_decimal(&mut r, charges as u64);
                r.append(")");
                r
            } else {
                String::from_str("過去に送る (不可)")
            }
        },
        ItemAction::Discard => String::from_str("捨てる"),
        ItemAction::Close => String::from_str("閉じる"),
    }
}

/// `<prefix><kind> Lv<level> (+<value>)`
pub open spec fn spec_item_text(s: ItemSpec) -> Seq<char> {
    spec_rarity_prefix(s.rarity) + spec_item_kind_label(s.kind) + " Lv"@ + decimal(s.level as nat)
        + " (+"@ + decimal(s.value as nat) + ")"@
}

fn push_item_text(out: &mut String, s: &ItemSpec)
    ensures
        final(out)@ == old(out)@ + spec_item_text(*s),
{
    out.append(rarity_prefix(s.rarity));
    out.append(item_kind_label(s.kind));
    out.append(" Lv");
    push_decimal(out, s.level as u64);
    out.append(" (+");
    push_decimal(out, s.value as u64);
    out.append(")");
    assert(final(out)@ =~= old(out)@ + spec_item_text(*s));
}

/// `<cursor>[<n>] <item>` for inventory slot `index` (shown 1-based), the
/// cursor being `> ` on the selected slot and two spaces elsewhere;
/// `---` for an empty slot.
pub open spec fn spec_slot_text(index: usize, spec: Option<ItemSpec>, selected: bool) -> Seq<char> {
    let cursor = if selected { "> "@ } else { "  "@ };
    let head = cursor + "["@ + decimal(index as nat + 1) + "] "@;
    match spec {
        Some(s) => head + spec_item_text(s),
        None => head + "---"@,
    }
}

pub fn format_slot_text(index: usize, spec: &Option<ItemSpec>, selected: bool) -> (r: String)
    requires
        index < u64::MAX,
    ensures
        r@ == spec_slot_text(index, *spec, selected),
{
    let mut r = if selected { String::from_str("> ") } else { String::from_str("  ") };
    r.append("[");
    push_decimal(&mut r, index as u64 + 1);
    r.append("] ");
    match spec {
        Some(s) => push_item_text(&mut r, s),
        None => r.append("---"),
    }
    r
}

/// `<slot label>: <item>`, or `<slot label>: ---` for an empty slot.
pub open spec fn spec_equip_slot_text(slot: EquipSlot, spec: Option<ItemSpec>) -> Seq<char> {
    let head = spec_equip_slot_label(slot) + ": "@;
    match spec {
        Some(s) => head + spec_item_text(s),
        None => head + "---"@,
    }
}

pub fn format_equip_slot_text(slot: EquipSlot, spec: Option<&ItemSpec>) -> (r: String)
    ensures
        r@ == spec_equip_slot_text(slot, match spec { Some(s) => Some(*s), None => None }),
{
    let mut r = String::from_str(equip_slot_label(slot));
    r.append(": ");
    match spec {
        Some(s) => push_item_text(&mut r, s),
        None => r.append("---"),
    }
    r
}

/// HUD text of one equipment slot: `<name>:<prefix>(+<value>)`, or `<name>:-`.
pub open spec fn spec_hud_slot_text(name: Seq<char>, spec: Option<ItemSpec>) -> Seq<char> {
    match spec {
        Some(s) => name + ":"@ + spec_rarity_prefix(s.rarity) + "(+"@ + decimal(s.value as nat) + ")"@,
        None => name + ":-"@,
    }
}

pub fn format_slot(name: &str, spec: Option<&ItemSpec>) -> (r: String)
    ensures
        r@ == spec_hud_slot_text(name@, match spec { Some(s) => Some(*s), None => None }),
{
    let mut r = String::from_str(name);
    match spec {
        Some(s) => {
            r.append(":");
            r.append(rarity_prefix(s.rarity));
            r.append("(+");
            push_decimal(&mut r, s.value as u64);
            r.append(")");
            assert(r@ =~= spec_hud_slot_text(name@, Some(*s)));
        },
        None => r.append(":-"),
    }
    r
}


/// The equipment with `item` put into `slot`.
pub open spec fn equipped_with(e: Equipment, slot: EquipSlot, item: Option<ItemSpec>) -> Equipment {
    match slot {
        EquipSlot::Weapon => Equipment { weapon: item, ..e },
        EquipSlot::Head => Equipment { head: item, ..e },
        EquipSlot::Torso => Equipment { torso: item, ..e },
        EquipSlot::Legs => Equipment { legs: item, ..e },
        EquipSlot::Shield => Equipment { shield: item, ..e },
        EquipSlot::Charm => Equipment { charm: item, ..e },
        EquipSlot::Backpack => Equipment { backpack: item, ..e },
    }
}

/// Equipment is determined by what each slot holds.
pub proof fn lemma_equipment_ext(a: Equipment, b: Equipment)
    requires
        forall|s: EquipSlot| #[trigger] a.slot_item(s) == b.slot_item(s),
    ensures
        a == b,
{
    assert(a.slot_item(EquipSlot::Weapon) == b.slot_item(EquipSlot::Weapon));
    assert(a.slot_item(EquipSlot::Head) == b.slot_item(EquipSlot::Head));
    assert(a.slot_item(EquipSlot::Torso) == b.slot_item(EquipSlot::Torso));
    assert(a.slot_item(EquipSlot::Legs) == b.slot_item(EquipSlot::Legs));
    assert(a.slot_item(EquipSlot::Shield) == b.slot_item(EquipSlot::Shield));
    assert(a.slot_item(EquipSlot::Charm) == b.slot_item(EquipSlot::Charm));
    assert(a.slot_item(EquipSlot::Backpack) == b.slot_item(EquipSlot::Backpack));
}

/// No backpack can push the capacity computation past a `u8`.
pub open spec fn backpack_config_ok(config: ItemConfig) -> bool {
    forall|r: Rarity| #[trigger] backpack_bonus(config, r) <= u8::MAX
}

/// The earliest floor an item may be sent forward to from `floor`: past
/// both the item's level and the current floor.
pub open spec fn min_future_floor(spec: ItemSpec, floor: u32) -> int {
    if spec.level + 1 > floor + 1 { spec.level + 1 } else { floor + 1 }
}

/// Carries out a context-menu action on inventory slot `idx`.
///
/// Equip swaps the item with the one worn in its slot (the worn one, if any,
/// takes the inventory slot), recomputes the capacity and pulls the cursor
/// back inside it. Use drinks a potion. Sending forward picks a random floor
/// between the item's next level (or the next floor) and the last floor and
/// queues the item for it; sending back queues it for the next run; both
/// need a charge and empty the slot only when the item was queued. Discard
/// empties the slot. Close, or an action that does not apply, changes nothing.
pub fn execute_item_action(
    action: ItemAction,
    idx: usize,
    selected: &mut usize,
    player_state: &mut PlayerState,
    transfer_state: &mut TransferState,
    health: &mut Option<Health>,
    current_floor: u32,
    max_floor: u32,
    config: &ItemConfig,
    rng: &mut StdRng,
)
    requires
        idx < 16,
        action == ItemAction::Equip ==> backpack_config_ok(*config),
        action == ItemAction::Use && old(player_state).inventory.slots@[idx as int] is Some
            && (*old(health)) is Some ==> (*old(health))->0.current
            + old(player_state).inventory.slots@[idx as int]->0.value <= u32::MAX,
        action == ItemAction::SendFuture && old(player_state).inventory.slots@[idx as int] is Some
            ==> old(player_state).inventory.slots@[idx as int]->0.level < u32::MAX && current_floor < u32::MAX,
    ensures
        action == ItemAction::Use && old(player_state).inventory.slots@[idx as int] is Some
            && old(player_state).inventory.slots@[idx as int]->0.kind == ItemKind::HealthPotion
            && (*old(health)) is Some ==> ({
                let h0 = (*old(health))->0;
                let v = old(player_state).inventory.slots@[idx as int]->0.value;
                &&& (*final(health)) is Some
                &&& (*final(health))->0.max == h0.max
                &&& (*final(health))->0.current == if h0.current + v <= h0.max { h0.current + v } else { h0.max as int }
            }),
        ({
            let slot = old(player_state).inventory.slots@[idx as int];
            let p0 = *old(player_state);
            let p1 = *final(player_state);
            match action {
                ItemAction::Equip => if slot is Some && spec_equip_slot(slot->0.kind) is Some {
                    let es = spec_equip_slot(slot->0.kind)->0;
                    let cap = spec_inventory_capacity(p1.equipment, *config);
                    &&& p1.equipment == equipped_with(p0.equipment, es, slot)
                    &&& p1.inventory.slots@ == p0.inventory.slots@.update(idx as int, p0.equipment.slot_item(es))
                    &&& p1.inventory.capacity == cap
                    &&& *final(selected) == if *old(selected) >= cap { (cap - 1) as usize } else { *old(selected) }
                    &&& p1.current_hp == p0.current_hp
                    &&& *final(transfer_state) == *old(transfer_state)
                    &&& *final(health) == *old(health)
                } else {
                    p1 == p0 && *final(selected) == *old(selected)
                    && *final(transfer_state) == *old(transfer_state) && *final(health) == *old(health)
                },
                ItemAction::Use => if slot is Some && slot->0.kind == ItemKind::HealthPotion && (*old(health)) is Some {
                    &&& *final(health) == Some(spec_healed((*old(health))->0, slot->0.value))
                    &&& p1 == PlayerState { inventory: crate::player_state::Inventory {
                            slots: p1.inventory.slots, ..p0.inventory }, ..p0 }
                    &&& p1.inventory.slots@ == p0.inventory.slots@.update(idx as int, None)
                    &&& *final(selected) == *old(selected)
                    &&& *final(transfer_state) == *old(transfer_state)
                } else {
                    p1 == p0 && *final(selected) == *old(selected)
                    && *final(transfer_state) == *old(transfer_state) && *final(health) == *old(health)
                },
                ItemAction::SendFuture => {
                    &&& *final(selected) == *old(selected)
                    &&& *final(health) == *old(health)
                    &&& if old(transfer_state).charges > 0 && slot is Some
                        && min_future_floor(slot->0, current_floor) <= max_floor {
                        exists|target: u32, ok: bool| {
                            &&& min_future_floor(slot->0, current_floor) <= target <= max_floor
                            &&& spec_future_sent(*old(transfer_state), *final(transfer_state),
                                FutureTransferItem { spec: slot->0, source_floor: current_floor, target_floor: target }, ok)
                            &&& p1 == PlayerState { inventory: crate::player_state::Inventory {
                                    slots: p1.inventory.slots, ..p0.inventory }, ..p0 }
                            &&& p1.inventory.slots@ == if ok { p0.inventory.slots@.update(idx as int, None) }
                                else { p0.inventory.slots@ }
                        }
                    } else {
                        p1 == p0 && *final(transfer_state) == *old(transfer_state)
                    }
                },
                ItemAction::SendPast => {
                    &&& *final(selected) == *old(selected)
                    &&& *final(health) == *old(health)
                    &&& if old(transfer_state).charges > 0 && slot is Some {
                        exists|ok: bool| {
                            &&& spec_past_sent(*old(transfer_state), *final(transfer_state),
                                PastTransferItem { spec: slot->0, source_floor: current_floor }, ok)
                            &&& p1 == PlayerState { inventory: crate::player_state::Inventory {
                                    slots: p1.inventory.slots, ..p0.inventory }, ..p0 }
                            &&& p1.inventory.slots@ == if ok { p0.inventory.slots@.update(idx as int, None) }
                                else { p0.inventory.slots@ }
                        }
                    } else {
                        p1 == p0 && *final(transfer_state) == *old(transfer_state)
                    }
                },
                ItemAction::Discard => {
                    &&& p1 == PlayerState { inventory: crate::player_state::Inventory {
                            slots: p1.inventory.slots, ..p0.inventory }, ..p0 }
                    &&& p1.inventory.slots@ == p0.inventory.slots@.update(idx as int, None)
                    &&& *final(selected) == *old(selected)
                    &&& *final(transfer_state) == *old(transfer_state)
                    &&& *final(health) == *old(health)
                },
                ItemAction::Close => {
                    p1 == p0 && *final(selected) == *old(selected)
                    && *final(transfer_state) == *old(transfer_state) && *final(health) == *old(health)
                },
            }
        }),
{
    match action {
        ItemAction::Equip => {
            if let Some(spec) = player_state.inventory.slots[idx] {
                if let Some(slot) = spec.kind.equip_slot() {
                    let previous = player_state.equipment.set(slot, Some(spec));
                    player_state.inventory.slots[idx] = None;
                    if let Some(old_spec) = previous {
                        player_state.inventory.slots[idx] = Some(old_spec);
                    }
                    player_state.inventory.capacity = inventory_capacity(&player_state.equipment, config);
                    let new_cap = player_state.inventory.capacity as usize;
                    if *selected >= new_cap {
                        *selected = new_cap - 1;
                    }
                    proof {
                        assert(player_state.inventory.slots@ =~= old(player_state).inventory.slots@.update(
                            idx as int, old(player_state).equipment.slot_item(slot)));
                        lemma_equipment_ext(player_state.equipment,
                            equipped_with(old(player_state).equipment, slot, Some(spec)));
                    }
                }
            }
        },
        ItemAction::Use => {
            if let Some(spec) = player_state.inventory.slots[idx] {
                if spec.kind == ItemKind::HealthPotion {
                    if let Some(h) = health {
                        let sum = h.current + spec.value;
                        h.current = if sum < h.max { sum } else { h.max };
                        player_state.inventory.slots[idx] = None;
                    }
                }
            }
        },
        ItemAction::SendFuture => {
            if transfer_state.charges == 0 {
            } else if let Some(spec) = player_state.inventory.slots[idx] {
                let source = current_floor;
                let min_item = minimum_target_floor(&spec);
                let min_target = if min_item > source + 1 { min_item } else { source + 1 };
                if min_target <= max_floor {
                    let target = random_range_u32_inclusive(rng, min_target, max_floor);
                    let ok = add_future_transfer(transfer_state, spec, source, target);
                    if ok {
                        player_state.inventory.slots[idx] = None;
                    }
                    proof {
                        assert(player_state.inventory.slots@ =~= if ok {
                            old(player_state).inventory.slots@.update(idx as int, None)
                        } else {
                            old(player_state).inventory.slots@
                        });
                    }
                }
            }
        },
        ItemAction::SendPast => {
            if transfer_state.charges == 0 {
            } else if let Some(spec) = player_state.inventory.slots[idx] {
                let source = current_floor;
                let ok = add_past_transfer(transfer_state, spec, source);
                if ok {
                    player_state.inventory.slots[idx] = None;
                }
                proof {
                    assert(player_state.inventory.slots@ =~= if ok {
                        old(player_state).inventory.slots@.update(idx as int, None)
                    } else {
                        old(player_state).inventory.slots@
                    });
                }
            }
        },
        ItemAction::Discard => {
            if player_state.inventory.slots[idx].is_some() {
                player_state.inventory.slots[idx] = None;
            }
            proof {
                assert(player_state.inventory.slots@ =~= old(player_state).inventory.slots@.update(idx as int, None));
            }
        },
        ItemAction::Close => {},
    }
}


/// What happened to a picked-up item.
#[derive(Debug, Clone, Copy, PartialEq, Eq, Structural)]
pub enum PickupOutcome {
    /// A potion was drunk.
    Healed,
    /// The item was worn; `dropped` is the item it replaced when that one
    /// found no room in the inventory.
    Equipped { dropped: Option<ItemSpec> },
    /// The item went into the inventory.
    Stored,
    /// The inventory was full and the item was left behind.
    Discarded,
}

/// The inventory after trying to add `item`: it takes the first free usable
/// slot, if any.
pub open spec fn spec_added(slots: Seq<Option<ItemSpec>>, cap: int, item: ItemSpec) -> Seq<Option<ItemSpec>> {
    match first_free_slot(slots, cap) {
        Some(i) => slots.update(i, Some(item)),
        None => slots,
    }
}

/// Brings the usable inventory size in line with what is worn: the
/// capacity becomes `inventory_capacity` of the equipment; nothing else changes.
pub fn refresh_inventory_capacity(player_state: &mut PlayerState, config: &ItemConfig)
    requires
        old(player_state).equipment.backpack matches Some(bp) ==> backpack_bonus(*config, bp.rarity) <= u8::MAX,
    ensures
        final(player_state).inventory.capacity == spec_inventory_capacity(old(player_state).equipment, *config),
        final(player_state).inventory.slots == old(player_state).inventory.slots,
        final(player_state).equipment == old(player_state).equipment,
        final(player_state).current_hp == old(player_state).current_hp,
{
    let cap = inventory_capacity(&player_state.equipment, config);
    if player_state.inventory.capacity != cap {
        player_state.inventory.capacity = cap;
    }
}

/// Picking up an item: a potion heals at once; equipment is worn when its
/// slot is empty or it is worth more than what is worn there, the replaced
/// item going into the inventory if it fits; otherwise the item goes into
/// the inventory if it fits.
pub fn apply_pickup(player_state: &mut PlayerState, health: &mut Health, spec: ItemSpec) -> (r: PickupOutcome)
    requires
        old(player_state).inventory.capacity <= 16,
        spec.kind == ItemKind::HealthPotion ==> old(health).current + spec.value <= u32::MAX,
    ensures
        final(player_state).current_hp == old(player_state).current_hp,
        final(player_state).inventory.capacity == old(player_state).inventory.capacity,
        spec.kind == ItemKind::HealthPotion ==> final(health).max == old(health).max
            && final(health).current == if old(health).current + spec.value <= old(health).max {
                old(health).current + spec.value
            } else {
                old(health).max as int
            },
        ({
            let p0 = *old(player_state);
            let p1 = *final(player_state);
            let cap = p0.inventory.capacity as int;
            if spec.kind == ItemKind::HealthPotion {
                &&& r == PickupOutcome::Healed
                &&& *final(health) == spec_healed(*old(health), spec.value)
                &&& p1 == p0
            } else {
                let es = spec_equip_slot(spec.kind)->0;
                let worn = p0.equipment.slot_item(es);
                &&& *final(health) == *old(health)
                &&& if worn is None || spec.value > worn->0.value {
                    &&& p1.equipment == equipped_with(p0.equipment, es, Some(spec))
                    &&& match worn {
                        Some(w) => {
                            &&& p1.inventory.slots@ == spec_added(p0.inventory.slots@, cap, w)
                            &&& r == PickupOutcome::Equipped {
                                dropped: if first_free_slot(p0.inventory.slots@, cap) is Some { None } else { Some(w) },
                            }
                        },
                        None => p1.inventory.slots@ == p0.inventory.slots@
                            && r == PickupOutcome::Equipped { dropped: None },
                    }
                } else {
                    &&& p1.equipment == p0.equipment
                    &&& p1.inventory.slots@ == spec_added(p0.inventory.slots@, cap, spec)
                    &&& r == if first_free_slot(p0.inventory.slots@, cap) is Some {
                        PickupOutcome::Stored
                    } else {
                        PickupOutcome::Discarded
                    }
                }
            }
        }),
{
    match spec.kind {
        ItemKind::HealthPotion => {
            let sum = health.current + spec.value;
            health.current = if sum < health.max { sum } else { health.max };
            PickupOutcome::Healed
        },
        _ => {
            let slot = spec.kind.equip_slot().unwrap();
            let current = player_state.equipment.get(slot);
            if should_auto_equip(current, &spec) {
                let previous = player_state.equipment.set(slot, Some(spec));
                proof {
                    lemma_equipment_ext(player_state.equipment,
                        equipped_with(old(player_state).equipment, slot, Some(spec)));
                }
                match previous {
                    Some(old_spec) => {
                        let kept = try_add_to_inventory(&mut player_state.inventory, old_spec);
                        if kept {
                            PickupOutcome::Equipped { dropped: None }
                        } else {
                            PickupOutcome::Equipped { dropped: Some(old_spec) }
                        }
                    },
                    None => PickupOutcome::Equipped { dropped: None },
                }
            } else if try_add_to_inventory(&mut player_state.inventory, spec) {
                PickupOutcome::Stored
            } else {
                PickupOutcome::Discarded
            }
        },
    }
}

/// Cursor after the arrow keys of one frame: up moves toward 0, down toward
/// `count - 1`, and neither leaves the list.
pub open spec fn spec_cursor_after_keys(selected: usize, up: bool, down: bool, count: usize) -> usize {
    let s1: int = if up && selected > 0 { selected - 1 } else { selected as int };
    (if down && s1 + 1 < count { s1 + 1 } else { s1 }) as usize
}

/// Moves a list cursor for the arrow keys pressed this frame (inventory
/// slots and context-menu entries alike).
pub fn cursor_after_keys(selected: usize, up: bool, down: bool, count: usize) -> (r: usize)
    ensures
        r == spec_cursor_after_keys(selected, up, down, count),
        selected < count ==> r < count,
{
    let mut s = selected;
    if up && s > 0 {
        s = s - 1;
    }
    if down && s < usize::MAX && s + 1 < count {
        s = s + 1;
    }
    s
}

} // verus!
