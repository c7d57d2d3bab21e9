use rand::rngs::StdRng;
use vstd::prelude::*;
use crate::item::{ItemKind, ItemSpec, Rarity};
use crate::player_state::{first_free_slot, lemma_first_free_slot};
use crate::rng::random_range_u32_inclusive;

verus! {

/// An item sent forward: it reappears on `target_floor` of this run.
#[derive(Debug, Clone, Copy, PartialEq, Eq, Structural)]
pub struct FutureTransferItem {
    pub spec: ItemSpec,
    pub source_floor: u32,
    pub target_floor: u32,
}

/// An item sent back: it reappears in the next run.
#[derive(Debug, Clone, Copy, PartialEq, Eq, Structural)]
pub struct PastTransferItem {
    pub spec: ItemSpec,
    pub source_floor: u32,
}

/// Number of slots in each transfer queue.
pub const TRANSFER_SLOTS: usize = 32;

/// Transfer charges left in this run and the two queues of sent items.
pub struct TransferState {
    pub charges: u32,
    pub future_items: [Option<FutureTransferItem>; 32],
    pub past_items: [Option<PastTransferItem>; 32],
}

/// The items present in a slot array, in slot order.
pub open spec fn present<T>(s: Seq<Option<T>>) -> Seq<T>
    decreases s.len(),
{
    if s.len() == 0 {
        Seq::empty()
    } else {
        let rest = present(s.drop_last());
        match s.last() {
            Some(x) => rest.push(x),
            None => rest,
        }
    }
}

/// A past item as it arrives in a new run: level reset to the floor it
/// appears on, sent from and to that same floor.
pub open spec fn arrived_from_past(item: PastTransferItem, floor: u32) -> FutureTransferItem {
    FutureTransferItem {
        spec: ItemSpec { level: floor, ..item.spec },
        source_floor: floor,
        target_floor: floor,
    }
}

/// The deepest floor a past item may reappear on: one above the floor it was
/// sent from, but at least floor 1.
pub open spec fn past_spawn_limit(source_floor: u32) -> int {
    if source_floor >= 2 { source_floor - 1 } else { 1 }
}

/// The slot holds the past item as it arrives in the new run.
pub open spec fn arrived_ok(slot: Option<FutureTransferItem>, item: PastTransferItem) -> bool {
    &&& slot is Some
    &&& 1 <= slot->0.target_floor <= past_spawn_limit(item.source_floor)
    &&& slot->0 == arrived_from_past(item, slot->0.target_floor)
}

impl TransferState {
    pub fn new(charges: u32) -> (r: Self)
        ensures
            r.charges == charges,
            forall|i: int| 0 <= i < 32 ==> #[trigger] r.future_items@[i] is None,
            forall|i: int| 0 <= i < 32 ==> #[trigger] r.past_items@[i] is None,
    {
        TransferState { charges, future_items: [None; 32], past_items: [None; 32] }
    }

    /// Start of a run: charges refilled, last run's forward items dropped,
    /// and every item sent back becomes a forward item of this run, in the
    /// same order, reappearing on a random floor between 1 and the floor
    /// above the one it was sent from, with its level set to that floor.
    pub fn reset_for_new_run(&mut self, charges: u32, rng: &mut StdRng)
        ensures
            final(self).charges == charges,
            forall|i: int| 0 <= i < 32 ==> #[trigger] final(self).past_items@[i] is None,
            ({
                let items = present(old(self).past_items@);
                &&& forall|j: int| 0 <= j < items.len()
                    ==> arrived_ok(#[trigger] final(self).future_items@[j], items[j])
                &&& forall|j: int| items.len() <= j < 32 ==> #[trigger] final(self).future_items@[j] is None
            }),
    {
        self.charges = charges;
        self.future_items = [None; 32];
        let ghost old_past = self.past_items@;
        let mut i: usize = 0;
        while i < 32
            invariant
                i <= 32,
                self.charges == charges,
                old_past == old(self).past_items@,
                old_past.len() == 32,
                forall|j: int| 0 <= j < i ==> #[trigger] self.past_items@[j] is None,
                forall|j: int| i <= j < 32 ==> #[trigger] self.past_items@[j] == old_past[j],
                present(old_past.take(i as int)).len() <= i,
                ({
                    let items = present(old_past.take(i as int));
                    &&& forall|j: int| 0 <= j < items.len()
                        ==> arrived_ok(#[trigger] self.future_items@[j], items[j])
                    &&& forall|j: int| items.len() <= j < 32 ==> #[trigger] self.future_items@[j] is None
                }),
            ensures
                i == 32,
            decreases 32 - i,
        {
            let ghost items = present(old_past.take(i as int));
            proof {
                assert(old_past.take(i + 1).drop_last() =~= old_past.take(i as int));
                assert(old_past.take(i + 1).last() == old_past[i as int]);
            }
            if self.past_items[i].is_none() {
                proof { assert(present(old_past.take(i + 1)) == items); }
                i = i + 1;
                continue;
            }

            proof {
                assert(self.future_items@[items.len() as int] is None);
            }
            let has_space = has_empty_future_slot(&self.future_items);
            if !has_space {
                break;
            }

            if let Some(item) = self.past_items[i] {
                let below = item.source_floor.saturating_sub(1);
                let max_floor = if below > 1 { below } else { 1 };
                let spawn_floor = if max_floor <= 1 {
                    1
                } else {
                    random_range_u32_inclusive(rng, 1, max_floor)
                };
                let mut resolved_spec = item.spec;
                resolved_spec.level = spawn_floor;

                let mut k: usize = 0;
                while k < 32 && self.future_items[k].is_some()
                    invariant
                        k <= items.len(),
                        items.len() < 32,
                        forall|j: int| 0 <= j < items.len()
                            ==> arrived_ok(#[trigger] self.future_items@[j], items[j]),
                        forall|j: int| items.len() <= j < 32 ==> #[trigger] self.future_items@[j] is None,
                    decreases 32 - k,
                {
                    k = k + 1;
                }
                proof { assert(k == items.len()); }
                self.future_items[k] = Some(FutureTransferItem {
                    spec: resolved_spec,
                    source_floor: spawn_floor,
                    target_floor: spawn_floor,
                });
                self.past_items[i] = None;
                proof {
                    assert(present(old_past.take(i + 1)) == items.push(item));
                    assert(arrived_ok(self.future_items@[k as int], item));
                }
            }
            i = i + 1;
        }
        proof {
            assert(old_past.take(32) =~= old_past);
        }
    }
}

/// Whether some forward slot is free.
fn has_empty_future_slot(slots: &[Option<FutureTransferItem>; 32]) -> (r: bool)
    ensures
        r == exists|j: int| 0 <= j < 32 && #[trigger] slots@[j] is None,
{
    let mut j: usize = 0;
    while j < 32
        invariant
            j <= 32,
            forall|k: int| 0 <= k < j ==> #[trigger] slots@[k] is Some,
        decreases 32 - j,
    {
        if slots[j].is_none() {
            return true;
        }
        j = j + 1;
    }
    false
}

/// Removing the last slot drops at most one present item.
pub proof fn lemma_present_len<T>(s: Seq<Option<T>>)
    ensures
        present(s).len() <= s.len(),
    decreases s.len(),
{
    if s.len() > 0 {
        lemma_present_len(s.drop_last());
    }
}


/// Level of an item arriving on `target_floor` after being sent from
/// `source_floor`: the target floor plus the distance travelled.
pub open spec fn spec_future_transfer_level(source_floor: u32, target_floor: u32) -> int {
    target_floor + (target_floor - source_floor)
}

pub fn future_transfer_level(source_floor: u32, target_floor: u32) -> (r: u32)
    requires
        source_floor <= target_floor,
        spec_future_transfer_level(source_floor, target_floor) <= u32::MAX,
    ensures
        r == spec_future_transfer_level(source_floor, target_floor),
{
    target_floor + (target_floor - source_floor)
}

/// Sent to its own floor an item keeps that floor as level; every floor
/// further adds one level on top of the target floor, so sending on in two
/// hops compounds the boost.
pub proof fn lemma_future_level(source: u32, target: u32, further: u32)
    requires
        source <= target <= further,
    ensures
        spec_future_transfer_level(source, source) == source,
        spec_future_transfer_level(source, target) >= target,
        spec_future_transfer_level(source, further) >= spec_future_transfer_level(source, target),
        spec_future_transfer_level(target, further) - further == further - target,
        spec_future_transfer_level(source, target) == 2 * target - source,
        target < further ==> spec_future_transfer_level(source, (target + 1) as u32)
            == spec_future_transfer_level(source, target) + 2,
{
}

/// The nearest floor an item may be sent forward to: one past its level.
pub fn minimum_target_floor(spec: &ItemSpec) -> (r: u32)
    requires
        spec.level < u32::MAX,
    ensures
        r == spec.level + 1,
{
    spec.level + 1
}

pub fn can_transfer(state: &TransferState) -> (r: bool)
    ensures
        r == (state.charges > 0),
{
    state.charges > 0
}

/// Effect of sending `item` forward: it takes the first free forward slot
/// and a charge is spent, the count stopping at zero; with no free slot
/// nothing changes.
pub open spec fn spec_future_sent(old: TransferState, new: TransferState, item: FutureTransferItem, ok: bool) -> bool {
    &&& new.past_items == old.past_items
    &&& match first_free_slot(old.future_items@, 32) {
        Some(i) => {
            &&& ok
            &&& new.charges == (if old.charges > 0 { old.charges - 1 } else { 0 })
            &&& new.future_items@ == old.future_items@.update(i, Some(item))
        },
        None => {
            &&& !ok
            &&& new.charges == old.charges
            &&& new.future_items == old.future_items
        },
    }
}

/// Effect of sending `item` back: without charges nothing changes; else it
/// takes the first free backward slot and a charge is spent, and with no
/// free slot nothing changes.
pub open spec fn spec_past_sent(old: TransferState, new: TransferState, item: PastTransferItem, ok: bool) -> bool {
    &&& new.future_items == old.future_items
    &&& if old.charges == 0 {
        !ok && new.charges == 0 && new.past_items == old.past_items
    } else {
        match first_free_slot(old.past_items@, 32) {
            Some(i) => {
                &&& ok
                &&& new.charges == old.charges - 1
                &&& new.past_items@ == old.past_items@.update(i, Some(item))
            },
            None => {
                &&& !ok
                &&& new.charges == old.charges
                &&& new.past_items == old.past_items
            },
        }
    }
}

/// Queues `spec` for `target` in the first free forward slot, spending a
/// charge; with no charge left the count stays at zero. With every slot
/// taken nothing changes.
pub fn add_future_transfer(state: &mut TransferState, spec: ItemSpec, source: u32, target: u32) -> (r: bool)
    ensures
        spec_future_sent(*old(state), *final(state),
            FutureTransferItem { spec, source_floor: source, target_floor: target }, r),
{
    proof { lemma_first_free_slot(state.future_items@, 32); }
    let mut i: usize = 0;
    while i < 32
        invariant
            i <= 32,
            state.charges == old(state).charges,
            state.future_items == old(state).future_items,
            state.past_items == old(state).past_items,
            forall|j: int| 0 <= j < i ==> #[trigger] state.future_items@[j] is Some,
        decreases 32 - i,
    {
        if state.future_items[i].is_none() {
            proof { lemma_first_free_slot(old(state).future_items@, 32); }
            state.future_items[i] = Some(FutureTransferItem {
                spec,
                source_floor: source,
                target_floor: target,
            });
            state.charges = state.charges.saturating_sub(1);
            return true;
        }
        i = i + 1;
    }
    false
}

/// Queues `spec` for the next run in the first free backward slot, spending
/// a charge. Fails, changing nothing, without charges or without a free slot.
pub fn add_past_transfer(state: &mut TransferState, spec: ItemSpec, source_floor: u32) -> (r: bool)
    ensures
        spec_past_sent(*old(state), *final(state), PastTransferItem { spec, source_floor }, r),
{
    if state.charges == 0 {
        return false;
    }
    proof { lemma_first_free_slot(state.past_items@, 32); }
    let mut i: usize = 0;
    while i < 32
        invariant
            i <= 32,
            state.charges == old(state).charges,
            state.charges > 0,
            state.future_items == old(state).future_items,
            state.past_items == old(state).past_items,
            forall|j: int| 0 <= j < i ==> #[trigger] state.past_items@[j] is Some,
        decreases 32 - i,
    {
        if state.past_items[i].is_none() {
            proof { lemma_first_free_slot(old(state).past_items@, 32); }
            state.past_items[i] = Some(PastTransferItem { spec, source_floor });
            state.charges = state.charges.saturating_sub(1);
            return true;
        }
        i = i + 1;
    }
    false
}

/// The item kept from the ending: queued for the next run as if sent back
/// from floor 1, without spending a charge. Fails when every slot is taken.
pub fn add_ending_carryover(state: &mut TransferState, spec: ItemSpec) -> (r: bool)
    ensures
        final(state).charges == old(state).charges,
        final(state).future_items == old(state).future_items,
        match first_free_slot(old(state).past_items@, 32) {
            Some(i) => r && final(state).past_items@ == old(state).past_items@.update(i,
                Some(PastTransferItem { spec, source_floor: 1 })),
            None => !r && final(state).past_items == old(state).past_items,
        },
{
    proof { lemma_first_free_slot(state.past_items@, 32); }
    let mut i: usize = 0;
    while i < 32
        invariant
            i <= 32,
            state.charges == old(state).charges,
            state.future_items == old(state).future_items,
            state.past_items == old(state).past_items,
            forall|j: int| 0 <= j < i ==> #[trigger] state.past_items@[j] is Some,
        decreases 32 - i,
    {
        if state.past_items[i].is_none() {
            proof { lemma_first_free_slot(old(state).past_items@, 32); }
            state.past_items[i] = Some(PastTransferItem { spec, source_floor: 1 });
            return true;
        }
        i = i + 1;
    }
    false
}

/// The forward items bound for `floor`, in slot order.
pub open spec fn items_for_floor(s: Seq<Option<FutureTransferItem>>, floor: u32) -> Seq<FutureTransferItem>
    decreases s.len(),
{
    if s.len() == 0 {
        Seq::empty()
    } else {
        let rest = items_for_floor(s.drop_last(), floor);
        match s.last() {
            Some(x) => if x.target_floor == floor { rest.push(x) } else { rest },
            None => rest,
        }
    }
}

/// The slot after collecting `floor`: emptied if it held an item for that floor.
pub open spec fn after_collect(slot: Option<FutureTransferItem>, floor: u32) -> Option<FutureTransferItem> {
    match slot {
        Some(x) => if x.target_floor == floor { None } else { slot },
        None => None,
    }
}

/// Takes out every forward item bound for `floor`, in slot order; the items
/// bound elsewhere stay where they are.
pub fn collect_items_for_floor(state: &mut TransferState, floor: u32) -> (r: Vec<FutureTransferItem>)
    ensures
        r@ == items_for_floor(old(state).future_items@, floor),
        forall|i: int| 0 <= i < 32 ==> #[trigger] final(state).future_items@[i]
            == after_collect(old(state).future_items@[i], floor),
        final(state).charges == old(state).charges,
        final(state).past_items == old(state).past_items,
{
    let ghost orig = state.future_items@;
    let mut result: Vec<FutureTransferItem> = Vec::new();
    let mut i: usize = 0;
    while i < 32
        invariant
            i <= 32,
            orig == old(state).future_items@,
            orig.len() == 32,
            state.charges == old(state).charges,
            state.past_items == old(state).past_items,
            result@ == items_for_floor(orig.take(i as int), floor),
            forall|j: int| 0 <= j < i ==> #[trigger] state.future_items@[j] == after_collect(orig[j], floor),
            forall|j: int| i <= j < 32 ==> #[trigger] state.future_items@[j] == orig[j],
        decreases 32 - i,
    {
        proof {
            assert(orig.take(i + 1).drop_last() =~= orig.take(i as int));
            assert(orig.take(i + 1).last() == orig[i as int]);
        }
        if let Some(item) = state.future_items[i] {
            if item.target_floor == floor {
                result.push(item);
                state.future_items[i] = None;
            }
        }
        i = i + 1;
    }
    proof { assert(orig.take(32) =~= orig); }
    result
}

/// Collecting a floor loses nothing: every item taken out was bound for that
/// floor, every item that stays was not, and a second collection of the
/// same floor finds nothing.
pub proof fn lemma_collect_partition(s: Seq<Option<FutureTransferItem>>, floor: u32)
    ensures
        forall|i: int| 0 <= i < items_for_floor(s, floor).len()
            ==> (#[trigger] items_for_floor(s, floor)[i]).target_floor == floor,
        items_for_floor(s.map_values(|slot: Option<FutureTransferItem>| after_collect(slot, floor)), floor).len() == 0,
    decreases s.len(),
{
    let t = s.map_values(|slot: Option<FutureTransferItem>| after_collect(slot, floor));
    if s.len() > 0 {
        lemma_collect_partition(s.drop_last(), floor);
        assert(t.drop_last() =~= s.drop_last().map_values(|slot: Option<FutureTransferItem>| after_collect(slot, floor)));
    }
}

/// Kind, rarity and level of an item that just arrived, for the banner.
#[derive(Debug, Clone, Copy, PartialEq, Eq, Structural)]
pub struct ArrivedItemInfo {
    pub kind: ItemKind,
    pub rarity: Rarity,
    pub level: u32,
}

/// Up to eight items that arrived on the current floor.
pub struct TransferArrivalNotice {
    pub items: [Option<ArrivedItemInfo>; 8],
}

impl Default for TransferArrivalNotice {
    fn default() -> (r: Self)
        ensures
            r.spec_is_empty(),
    {
        TransferArrivalNotice { items: [None; 8] }
    }
}

impl TransferArrivalNotice {
    pub open spec fn spec_is_empty(self) -> bool {
        forall|i: int| 0 <= i < 8 ==> #[trigger] self.items@[i] is None
    }

    pub fn clear(&mut self)
        ensures
            final(self).spec_is_empty(),
    {
        self.items = [None; 8];
    }

    pub fn is_empty(&self) -> (r: bool)
        ensures
            r == self.spec_is_empty(),
    {
        let mut i: usize = 0;
        while i < 8
            invariant
                i <= 8,
                forall|j: int| 0 <= j < i ==> #[trigger] self.items@[j] is None,
            decreases 8 - i,
        {
            if self.items[i].is_some() {
                return false;
            }
            i = i + 1;
        }
        true
    }
}

} // verus!
