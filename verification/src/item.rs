use vstd::prelude::*;
use crate::player_state::Equipment;

verus! {

/// How rare an item is, from most to least common.
#[derive(Debug, Clone, Copy, PartialEq, Eq, Structural)]
pub enum Rarity {
    Common,
    Uncommon,
    Rare,
    Epic,
    Legendary,
}

/// The slots a player can equip an item into.
#[derive(Debug, Clone, Copy, PartialEq, Eq, Structural)]
pub enum EquipSlot {
    Weapon,
    Head,
    Torso,
    Legs,
    Shield,
    Charm,
    Backpack,
}

/// Every kind of item that can drop in the dungeon.
#[derive(Debug, Clone, Copy, PartialEq, Eq, Structural)]
pub enum ItemKind {
    Weapon,
    Head,
    Torso,
    Legs,
    Shield,
    Charm,
    Backpack,
    HealthPotion,
}

/// The slot an item kind is equipped into; potions have none.
pub open spec fn spec_equip_slot(kind: ItemKind) -> Option<EquipSlot> {
    match kind {
        ItemKind::Weapon => Some(EquipSlot::Weapon),
        ItemKind::Head => Some(EquipSlot::Head),
        ItemKind::Torso => Some(EquipSlot::Torso),
        ItemKind::Legs => Some(EquipSlot::Legs),
        ItemKind::Shield => Some(EquipSlot::Shield),
        ItemKind::Charm => Some(EquipSlot::Charm),
        ItemKind::Backpack => Some(EquipSlot::Backpack),
        ItemKind::HealthPotion => None,
    }
}

impl ItemKind {
    pub fn equip_slot(&self) -> (r: Option<EquipSlot>)
        ensures
            r == spec_equip_slot(*self),
    {
        match self {
            ItemKind::Weapon => Some(EquipSlot::Weapon),
            ItemKind::Head => Some(EquipSlot::Head),
            ItemKind::Torso => Some(EquipSlot::Torso),
            ItemKind::Legs => Some(EquipSlot::Legs),
            ItemKind::Shield => Some(EquipSlot::Shield),
            ItemKind::Charm => Some(EquipSlot::Charm),
            ItemKind::Backpack => Some(EquipSlot::Backpack),
            ItemKind::HealthPotion => None,
        }
    }
}

/// A concrete item: its kind, rarity, level and the stat value it grants.
#[derive(Debug, Clone, Copy, PartialEq, Eq, Structural)]
pub struct ItemSpec {
    pub kind: ItemKind,
    pub rarity: Rarity,
    pub level: u32,
    pub value: u32,
}

} // verus!

verus! {

/// Integer item tuning: base stats per kind and backpack capacity growth.
#[derive(Debug, Clone, Copy)]
pub struct ItemConfig {
    pub weapon_base_stat: u32,
    pub armor_base_stat: u32,
    pub potion_base_heal: u32,
    pub backpack_base_capacity: u8,
    pub backpack_capacity_per_rarity: u8,
}

/// Position of a rarity in the order Common < Uncommon < Rare < Epic < Legendary.
pub open spec fn spec_rarity_rank(rarity: Rarity) -> u8 {
    match rarity {
        Rarity::Common => 0,
        Rarity::Uncommon => 1,
        Rarity::Rare => 2,
        Rarity::Epic => 3,
        Rarity::Legendary => 4,
    }
}

pub fn rarity_rank(rarity: Rarity) -> (r: u8)
    ensures
        r == spec_rarity_rank(rarity),
{
    match rarity {
        Rarity::Common => 0,
        Rarity::Uncommon => 1,
        Rarity::Rare => 2,
        Rarity::Epic => 3,
        Rarity::Legendary => 4,
    }
}

/// The rank order is a strict total order on rarities: distinct rarities
/// have distinct ranks, all of them at most 4.
pub proof fn lemma_rarity_rank_injective(a: Rarity, b: Rarity)
    ensures
        spec_rarity_rank(a) <= 4,
        spec_rarity_rank(a) == spec_rarity_rank(b) <==> a == b,
{
}

/// The highest rarity among the present items of an enemy's equipment slots,
/// `None` when every slot is empty.
pub fn highest_rarity(slots: &[Option<ItemSpec>; 3]) -> (r: Option<Rarity>)
    ensures
        r is None <==> (forall|i: int| 0 <= i < 3 ==> slots@[i] is None),
        r matches Some(best) ==> {
            &&& exists|i: int| 0 <= i < 3 && slots@[i] is Some && slots@[i]->0.rarity == best
            &&& forall|i: int| 0 <= i < 3 && slots@[i] is Some
                ==> spec_rarity_rank(slots@[i]->0.rarity) <= spec_rarity_rank(best)
        },
{
    let mut best: Option<Rarity> = None;
    let mut i: usize = 0;
    while i < 3
        invariant
            i <= 3,
            best is None <==> (forall|j: int| 0 <= j < i ==> slots@[j] is None),
            best matches Some(b) ==> {
                &&& exists|j: int| 0 <= j < i && slots@[j] is Some && slots@[j]->0.rarity == b
                &&& forall|j: int| 0 <= j < i && slots@[j] is Some
                    ==> spec_rarity_rank(slots@[j]->0.rarity) <= spec_rarity_rank(b)
            },
        decreases 3 - i,
    {
        if let Some(spec) = slots[i] {
            let replace = match best {
                None => true,
                Some(b) => rarity_rank(b) <= rarity_rank(spec.rarity),
            };
            if replace {
                best = Some(spec.rarity);
            }
        }
        i = i + 1;
    }
    best
}

/// A picked-up item replaces the equipped one when the slot is empty or the
/// new item's value is strictly greater.
pub fn should_auto_equip(current: Option<&ItemSpec>, new_spec: &ItemSpec) -> (r: bool)
    ensures
        r == match current {
            None => true,
            Some(cur) => new_spec.value > cur.value,
        },
{
    match current {
        None => true,
        Some(cur) => new_spec.value > cur.value,
    }
}

pub open spec fn spec_item_kind_label(kind: ItemKind) -> Seq<char> {
    match kind {
        ItemKind::Weapon => "武器"@,
        ItemKind::Head => "頭"@,
        ItemKind::Torso => "胴"@,
        ItemKind::Legs => "足"@,
        ItemKind::Shield => "盾"@,
        ItemKind::Charm => "装飾"@,
        ItemKind::Backpack => "背嚢"@,
        ItemKind::HealthPotion => "回復薬"@,
    }
}

/// Display name of an item kind.
pub fn item_kind_label(kind: ItemKind) -> (r: &'static str)
    ensures
        r@ == spec_item_kind_label(kind),
{
    match kind {
        ItemKind::Weapon => "武器",
        ItemKind::Head => "頭",
        ItemKind::Torso => "胴",
        ItemKind::Legs => "足",
        ItemKind::Shield => "盾",
        ItemKind::Charm => "装飾",
        ItemKind::Backpack => "背嚢",
        ItemKind::HealthPotion => "回復薬",
    }
}

pub open spec fn spec_equip_slot_label(slot: EquipSlot) -> Seq<char> {
    match slot {
        EquipSlot::Weapon => "武器"@,
        EquipSlot::Head => "頭"@,
        EquipSlot::Torso => "胴"@,
        EquipSlot::Legs => "足"@,
        EquipSlot::Shield => "盾"@,
        EquipSlot::Charm => "装飾"@,
        EquipSlot::Backpack => "背嚢"@,
    }
}

/// Display name of an equipment slot.
pub fn equip_slot_label(slot: EquipSlot) -> (r: &'static str)
    ensures
        r@ == spec_equip_slot_label(slot),
{
    match slot {
        EquipSlot::Weapon => "武器",
        EquipSlot::Head => "頭",
        EquipSlot::Torso => "胴",
        EquipSlot::Legs => "足",
        EquipSlot::Shield => "盾",
        EquipSlot::Charm => "装飾",
        EquipSlot::Backpack => "背嚢",
    }
}

/// A slot's label is the label of the item kinds that go into it.
pub proof fn lemma_slot_label_matches_kind(kind: ItemKind)
    ensures
        spec_equip_slot(kind) matches Some(slot)
            ==> spec_equip_slot_label(slot) == spec_item_kind_label(kind),
{
}

pub open spec fn spec_rarity_prefix(rarity: Rarity) -> Seq<char> {
    match rarity {
        Rarity::Common => ""@,
        Rarity::Uncommon => "[U]"@,
        Rarity::Rare => "[R]"@,
        Rarity::Epic => "[E]"@,
        Rarity::Legendary => "[L]"@,
    }
}

/// Short tag shown before an item's name; common items get none.
pub fn rarity_prefix(rarity: Rarity) -> (r: &'static str)
    ensures
        r@ == spec_rarity_prefix(rarity),
{
    match rarity {
        Rarity::Common => "",
        Rarity::Uncommon => "[U]",
        Rarity::Rare => "[R]",
        Rarity::Epic => "[E]",
        Rarity::Legendary => "[L]",
    }
}

} // verus!

verus! {

/// Extra slots a backpack of the given rarity grants.
pub open spec fn backpack_bonus(config: ItemConfig, rarity: Rarity) -> int {
    config.backpack_base_capacity + spec_rarity_rank(rarity) * config.backpack_capacity_per_rarity
}

/// Usable inventory slots: 8, plus the equipped backpack's bonus, at most 16.
pub open spec fn spec_inventory_capacity(equipment: Equipment, config: ItemConfig) -> int {
    let bonus = match equipment.backpack {
        Some(bp) => backpack_bonus(config, bp.rarity),
        None => 0,
    };
    if 8 + bonus < 16 { 8 + bonus } else { 16 }
}

/// Without a backpack the inventory has 8 usable slots; a backpack of
/// rarity rank `k` adds `backpack_base_capacity + k * backpack_capacity_per_rarity`
/// of them, up to 16 in all.
pub proof fn lemma_capacity_exact(equipment: Equipment, config: ItemConfig)
    ensures
        equipment.backpack is None ==> spec_inventory_capacity(equipment, config) == 8,
        equipment.backpack matches Some(bp) ==> {
            let extra = config.backpack_base_capacity + spec_rarity_rank(bp.rarity) * config.backpack_capacity_per_rarity;
            &&& 8 + extra <= 16 ==> spec_inventory_capacity(equipment, config) == 8 + extra
            &&& 8 + extra > 16 ==> spec_inventory_capacity(equipment, config) == 16
        },
{
}

pub fn inventory_capacity(equipment: &Equipment, config: &ItemConfig) -> (r: u8)
    requires
        equipment.backpack matches Some(bp) ==> backpack_bonus(*config, bp.rarity) <= u8::MAX,
    ensures
        r == spec_inventory_capacity(*equipment, *config),
        8 <= r <= 16,
{
    let base = 8u8;
    let backpack_bonus: u8 = match &equipment.backpack {
        Some(bp) => {
            let rarity_idx: u8 = rarity_rank(bp.rarity);
            proof {
                assert(rarity_idx * config.backpack_capacity_per_rarity
                    <= config.backpack_base_capacity + rarity_idx * config.backpack_capacity_per_rarity) by (nonlinear_arith)
                    requires config.backpack_base_capacity >= 0;
                assert(0 <= rarity_idx * config.backpack_capacity_per_rarity) by (nonlinear_arith)
                    requires rarity_idx >= 0, config.backpack_capacity_per_rarity >= 0;
            }
            config.backpack_base_capacity + rarity_idx * config.backpack_capacity_per_rarity
        },
        None => 0,
    };
    let total = base.saturating_add(backpack_bonus);
    if total < 16 { total } else { 16 }
}

} // verus!
