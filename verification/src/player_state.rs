use vstd::prelude::*;
use crate::item::{EquipSlot, ItemSpec};

verus! {

/// What the player wears, one optional item per slot.
#[derive(Debug, Clone)]
pub struct Equipment {
    pub weapon: Option<ItemSpec>,
    pub head: Option<ItemSpec>,
    pub torso: Option<ItemSpec>,
    pub legs: Option<ItemSpec>,
    pub shield: Option<ItemSpec>,
    pub charm: Option<ItemSpec>,
    pub backpack: Option<ItemSpec>,
}

impl Equipment {
    /// The item worn in `slot`.
    pub open spec fn slot_item(self, slot: EquipSlot) -> Option<ItemSpec> {
        match slot {
            EquipSlot::Weapon => self.weapon,
            EquipSlot::Head => self.head,
            EquipSlot::Torso => self.torso,
            EquipSlot::Legs => self.legs,
            EquipSlot::Shield => self.shield,
            EquipSlot::Charm => self.charm,
            EquipSlot::Backpack => self.backpack,
        }
    }

    /// Nothing equipped anywhere.
    pub open spec fn is_empty(self) -> bool {
        forall|s: EquipSlot| #[trigger] self.slot_item(s) is None
    }

    pub fn get(&self, slot: EquipSlot) -> (r: Option<&ItemSpec>)
        ensures
            match r {
                Some(x) => self.slot_item(slot) == Some(*x),
                None => self.slot_item(slot) is None,
            },
    {
        match slot {
            EquipSlot::Weapon => self.weapon.as_ref(),
            EquipSlot::Head => self.head.as_ref(),
            EquipSlot::Torso => self.torso.as_ref(),
            EquipSlot::Legs => self.legs.as_ref(),
            EquipSlot::Shield => self.shield.as_ref(),
            EquipSlot::Charm => self.charm.as_ref(),
            EquipSlot::Backpack => self.backpack.as_ref(),
        }
    }

    /// Puts `item` into `slot` and returns what was there.
    pub fn set(&mut self, slot: EquipSlot, item: Option<ItemSpec>) -> (r: Option<ItemSpec>)
        ensures
            r == old(self).slot_item(slot),
            final(self).slot_item(slot) == item,
            forall|s: EquipSlot| s != slot ==> #[trigger] final(self).slot_item(s) == old(self).slot_item(s),
    {
        match slot {
            EquipSlot::Weapon => {
                let prev = self.weapon;
                self.weapon = item;
                prev
            },
            EquipSlot::Head => {
                let prev = self.head;
                self.head = item;
                prev
            },
            EquipSlot::Torso => {
                let prev = self.torso;
                self.torso = item;
                prev
            },
            EquipSlot::Legs => {
                let prev = self.legs;
                self.legs = item;
                prev
            },
            EquipSlot::Shield => {
                let prev = self.shield;
                self.shield = item;
                prev
            },
            EquipSlot::Charm => {
                let prev = self.charm;
                self.charm = item;
                prev
            },
            EquipSlot::Backpack => {
                let prev = self.backpack;
                self.backpack = item;
                prev
            },
        }
    }
}

impl Default for Equipment {
    fn default() -> (r: Self)
        ensures
            r.is_empty(),
    {
        Equipment {
            weapon: None,
            head: None,
            torso: None,
            legs: None,
            shield: None,
            charm: None,
            backpack: None,
        }
    }
}

/// Writing an item into a slot and reading that slot back gives the item;
/// every other slot reads as before.
pub proof fn lemma_equipment_read_after_write(e: Equipment, slot: EquipSlot, item: Option<ItemSpec>, other: EquipSlot)
    ensures
        ({
            let e2 = match slot {
                EquipSlot::Weapon => Equipment { weapon: item, ..e },
                EquipSlot::Head => Equipment { head: item, ..e },
                EquipSlot::Torso => Equipment { torso: item, ..e },
                EquipSlot::Legs => Equipment { legs: item, ..e },
                EquipSlot::Shield => Equipment { shield: item, ..e },
                EquipSlot::Charm => Equipment { charm: item, ..e },
                EquipSlot::Backpack => Equipment { backpack: item, ..e },
            };
            &&& e2.slot_item(slot) == item
            &&& other != slot ==> e2.slot_item(other) == e.slot_item(other)
        }),
{
}

/// Number of physical inventory slots.
pub const INVENTORY_SLOTS: usize = 16;

/// The player's bag: a fixed array of slots of which the first `capacity` are usable.
#[derive(Debug, Clone)]
pub struct Inventory {
    pub slots: [Option<ItemSpec>; 16],
    pub capacity: u8,
}

impl Default for Inventory {
    fn default() -> (r: Self)
        ensures
            r.capacity == 8,
            forall|i: int| 0 <= i < 16 ==> #[trigger] r.slots@[i] is None,
    {
        Inventory { slots: [None; 16], capacity: 8 }
    }
}

/// Index of the first empty slot among the first `cap` slots, if any.
pub open spec fn first_free_slot<T>(slots: Seq<Option<T>>, cap: int) -> Option<int>
    decreases cap,
{
    if cap <= 0 {
        None
    } else {
        match first_free_slot(slots, cap - 1) {
            Some(i) => Some(i),
            None => if slots[cap - 1] is None { Some(cap - 1) } else { None },
        }
    }
}

pub proof fn lemma_first_free_slot<T>(slots: Seq<Option<T>>, cap: int)
    ensures
        match first_free_slot(slots, cap) {
            Some(i) => 0 <= i < cap && slots[i] is None
                && forall|j: int| 0 <= j < i ==> slots[j] is Some,
            None => forall|j: int| 0 <= j < cap ==> slots[j] is Some,
        },
    decreases cap,
{
    if cap > 0 {
        lemma_first_free_slot::<T>(slots, cap - 1);
    }
}

/// Puts `item` into the first empty usable slot. Fails, changing nothing,
/// when every usable slot is taken; slots beyond `capacity` are never used.
pub fn try_add_to_inventory(inventory: &mut Inventory, item: ItemSpec) -> (r: bool)
    requires
        old(inventory).capacity <= 16,
    ensures
        final(inventory).capacity == old(inventory).capacity,
        match first_free_slot(old(inventory).slots@, old(inventory).capacity as int) {
            Some(i) => r && final(inventory).slots@ == old(inventory).slots@.update(i, Some(item)),
            None => !r && final(inventory).slots@ == old(inventory).slots@,
        },
{
    let cap = inventory.capacity as usize;
    proof { lemma_first_free_slot(inventory.slots@, cap as int); }
    let mut i: usize = 0;
    while i < cap
        invariant
            cap == old(inventory).capacity,
            cap <= 16,
            i <= cap,
            *inventory == *old(inventory),
            forall|j: int| 0 <= j < i ==> inventory.slots@[j] is Some,
        decreases cap - i,
    {
        if inventory.slots[i].is_none() {
            inventory.slots[i] = Some(item);
            proof {
                lemma_first_free_slot(old(inventory).slots@, cap as int);
            }
            return true;
        }
        i = i + 1;
    }
    false
}

/// Everything the player carries between floors.
pub struct PlayerState {
    pub current_hp: u32,
    pub equipment: Equipment,
    pub inventory: Inventory,
}

impl PlayerState {
    /// Back to a fresh character: full health, nothing equipped, empty bag.
    pub fn reset(&mut self, player_hp: u32)
        ensures
            final(self).current_hp == player_hp,
            final(self).equipment.is_empty(),
            final(self).inventory.capacity == 8,
            forall|i: int| 0 <= i < 16 ==> #[trigger] final(self).inventory.slots@[i] is None,
    {
        self.current_hp = player_hp;
        self.equipment = Equipment::default();
        self.inventory = Inventory::default();
    }
}

} // verus!
