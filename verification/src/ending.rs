use vstd::prelude::*;
use crate::item::{EquipSlot, ItemSpec};
use crate::player_state::{Equipment, PlayerState};

verus! {

/// Where an item offered at the ending comes from.
#[derive(Debug, Clone, Copy, PartialEq, Eq, Structural)]
pub enum CandidateSource {
    /// Worn in this equipment slot.
    Equipped(EquipSlot),
    /// Carried in this inventory slot.
    Carried(usize),
}

/// An item the player may carry over into the next run.
#[derive(Debug, Clone, Copy, PartialEq, Eq, Structural)]
pub struct EndingCandidate {
    pub source: CandidateSource,
    pub spec: ItemSpec,
}

pub open spec fn one_candidate(source: CandidateSource, slot: Option<ItemSpec>) -> Seq<EndingCandidate> {
    match slot {
        Some(spec) => seq![EndingCandidate { source, spec }],
        None => Seq::empty(),
    }
}

/// The worn items, in slot order weapon, head, torso, legs, shield, charm, backpack.
pub open spec fn worn_candidates(e: Equipment) -> Seq<EndingCandidate> {
    one_candidate(CandidateSource::Equipped(EquipSlot::Weapon), e.weapon)
        + one_candidate(CandidateSource::Equipped(EquipSlot::Head), e.head)
        + one_candidate(CandidateSource::Equipped(EquipSlot::Torso), e.torso)
        + one_candidate(CandidateSource::Equipped(EquipSlot::Legs), e.legs)
        + one_candidate(CandidateSource::Equipped(EquipSlot::Shield), e.shield)
        + one_candidate(CandidateSource::Equipped(EquipSlot::Charm), e.charm)
        + one_candidate(CandidateSource::Equipped(EquipSlot::Backpack), e.backpack)
}

/// The carried items of the first `n` inventory slots, in slot order.
pub open spec fn carried_candidates(slots: Seq<Option<ItemSpec>>, n: int) -> Seq<EndingCandidate>
    decreases n,
{
    if n <= 0 {
        Seq::empty()
    } else {
        carried_candidates(slots, n - 1) + one_candidate(CandidateSource::Carried((n - 1) as usize), slots[n - 1])
    }
}

/// Everything offered at the ending: worn items first, then carried ones.
pub open spec fn spec_ending_candidates(state: PlayerState) -> Seq<EndingCandidate> {
    worn_candidates(state.equipment) + carried_candidates(state.inventory.slots@, 16)
}

/// An item a candidate names is really there: a worn one in its slot, a
/// carried one in its inventory slot among the 16.
pub open spec fn candidate_present(state: PlayerState, c: EndingCandidate) -> bool {
    match c.source {
        CandidateSource::Equipped(s) => state.equipment.slot_item(s) == Some(c.spec),
        CandidateSource::Carried(i) => i < 16 && state.inventory.slots@[i as int] == Some(c.spec),
    }
}

proof fn lemma_concat_contains(a: Seq<EndingCandidate>, b: Seq<EndingCandidate>)
    ensures
        forall|x: EndingCandidate| #[trigger] (a + b).contains(x) <==> a.contains(x) || b.contains(x),
{
    assert forall|x: EndingCandidate| #[trigger] (a + b).contains(x) <==> a.contains(x) || b.contains(x) by {
        if (a + b).contains(x) {
            let k = choose|k: int| 0 <= k < (a + b).len() && (a + b)[k] == x;
            if k < a.len() {
                assert(a[k] == x);
            } else {
                assert(b[k - a.len()] == x);
            }
        }
        if a.contains(x) {
            let k = choose|k: int| 0 <= k < a.len() && a[k] == x;
            assert((a + b)[k] == x);
        }
        if b.contains(x) {
            let k = choose|k: int| 0 <= k < b.len() && b[k] == x;
            assert((a + b)[a.len() + k] == x);
        }
    }
}

proof fn lemma_one_candidate(source: CandidateSource, slot: Option<ItemSpec>)
    ensures
        forall|x: EndingCandidate| #[trigger] one_candidate(source, slot).contains(x)
            <==> slot == Some(x.spec) && x.source == source,
{
    assert forall|x: EndingCandidate| #[trigger] one_candidate(source, slot).contains(x)
        <==> slot == Some(x.spec) && x.source == source by {
        if slot == Some(x.spec) && x.source == source {
            assert(one_candidate(source, slot)[0] == x);
        }
    }
}

/// The carried candidates of the first `n` slots are exactly the items in
/// those slots, each named by its slot.
proof fn lemma_carried(slots: Seq<Option<ItemSpec>>, n: int)
    requires
        0 <= n <= slots.len(),
        slots.len() <= usize::MAX,
    ensures
        forall|x: EndingCandidate| #[trigger] carried_candidates(slots, n).contains(x) <==> (
            x.source matches CandidateSource::Carried(i) && i < n && slots[i as int] == Some(x.spec)),
    decreases n,
{
    if n > 0 {
        lemma_carried(slots, n - 1);
        let one = one_candidate(CandidateSource::Carried((n - 1) as usize), slots[n - 1]);
        lemma_concat_contains(carried_candidates(slots, n - 1), one);
        lemma_one_candidate(CandidateSource::Carried((n - 1) as usize), slots[n - 1]);
    }
}

/// The ending offers every worn item and every item in any of the 16
/// inventory slots, and nothing else: each candidate is an item that is
/// really worn in its slot or carried in its inventory slot.
pub proof fn lemma_ending_candidates_complete(state: PlayerState)
    ensures
        forall|i: int| 0 <= i < 16 && (#[trigger] state.inventory.slots@[i]) is Some
            ==> spec_ending_candidates(state).contains(EndingCandidate {
                source: CandidateSource::Carried(i as usize), spec: state.inventory.slots@[i]->0 }),
        forall|s: EquipSlot| (#[trigger] state.equipment.slot_item(s)) is Some
            ==> spec_ending_candidates(state).contains(EndingCandidate {
                source: CandidateSource::Equipped(s), spec: state.equipment.slot_item(s)->0 }),
        forall|c: EndingCandidate| #[trigger] spec_ending_candidates(state).contains(c) ==> candidate_present(state, c),
{
    let e = state.equipment;
    let slots = state.inventory.slots@;
    lemma_carried(slots, 16);
    let o1 = one_candidate(CandidateSource::Equipped(EquipSlot::Weapon), e.weapon);
    let o2 = one_candidate(CandidateSource::Equipped(EquipSlot::Head), e.head);
    let o3 = one_candidate(CandidateSource::Equipped(EquipSlot::Torso), e.torso);
    let o4 = one_candidate(CandidateSource::Equipped(EquipSlot::Legs), e.legs);
    let o5 = one_candidate(CandidateSource::Equipped(EquipSlot::Shield), e.shield);
    let o6 = one_candidate(CandidateSource::Equipped(EquipSlot::Charm), e.charm);
    let o7 = one_candidate(CandidateSource::Equipped(EquipSlot::Backpack), e.backpack);
    lemma_one_candidate(CandidateSource::Equipped(EquipSlot::Weapon), e.weapon);
    lemma_one_candidate(CandidateSource::Equipped(EquipSlot::Head), e.head);
    lemma_one_candidate(CandidateSource::Equipped(EquipSlot::Torso), e.torso);
    lemma_one_candidate(CandidateSource::Equipped(EquipSlot::Legs), e.legs);
    lemma_one_candidate(CandidateSource::Equipped(EquipSlot::Shield), e.shield);
    lemma_one_candidate(CandidateSource::Equipped(EquipSlot::Charm), e.charm);
    lemma_one_candidate(CandidateSource::Equipped(EquipSlot::Backpack), e.backpack);
    lemma_concat_contains(o1, o2);
    lemma_concat_contains(o1 + o2, o3);
    lemma_concat_contains(o1 + o2 + o3, o4);
    lemma_concat_contains(o1 + o2 + o3 + o4, o5);
    lemma_concat_contains(o1 + o2 + o3 + o4 + o5, o6);
    lemma_concat_contains(o1 + o2 + o3 + o4 + o5 + o6, o7);
    let w = worn_candidates(e);
    assert(w == o1 + o2 + o3 + o4 + o5 + o6 + o7);
    lemma_concat_contains(w, carried_candidates(slots, 16));
    let all = spec_ending_candidates(state);
    assert forall|i: int| 0 <= i < 16 && (#[trigger] state.inventory.slots@[i]) is Some
        implies all.contains(EndingCandidate { source: CandidateSource::Carried(i as usize), spec: slots[i]->0 }) by {
        let x = EndingCandidate { source: CandidateSource::Carried(i as usize), spec: slots[i]->0 };
        assert(carried_candidates(slots, 16).contains(x));
    }
    assert forall|s: EquipSlot| (#[trigger] state.equipment.slot_item(s)) is Some
        implies all.contains(EndingCandidate { source: CandidateSource::Equipped(s), spec: e.slot_item(s)->0 }) by {
        let x = EndingCandidate { source: CandidateSource::Equipped(s), spec: e.slot_item(s)->0 };
        assert(w.contains(x));
    }
    assert forall|c: EndingCandidate| #[trigger] all.contains(c) implies candidate_present(state, c) by {
        if w.contains(c) {
        } else {
            assert(carried_candidates(slots, 16).contains(c));
        }
    }
}

fn push_candidate(out: &mut Vec<EndingCandidate>, source: CandidateSource, slot: Option<ItemSpec>)
    ensures
        final(out)@ == old(out)@ + one_candidate(source, slot),
{
    if let Some(spec) = slot {
        out.push(EndingCandidate { source, spec });
    }
    proof {
        match slot {
            Some(spec) => assert(final(out)@ =~= old(out)@ + one_candidate(source, slot)),
            None => assert(final(out)@ =~= old(out)@ + one_candidate(source, slot)),
        }
    }
}

/// The items offered at the ending, in the order the ending screen lists them.
pub fn ending_candidates(state: &PlayerState) -> (r: Vec<EndingCandidate>)
    ensures
        r@ == spec_ending_candidates(*state),
        forall|i: int| 0 <= i < 16 && (#[trigger] state.inventory.slots@[i]) is Some
            ==> r@.contains(EndingCandidate {
                source: CandidateSource::Carried(i as usize), spec: state.inventory.slots@[i]->0 }),
        forall|s: EquipSlot| (#[trigger] state.equipment.slot_item(s)) is Some
            ==> r@.contains(EndingCandidate { source: CandidateSource::Equipped(s), spec: state.equipment.slot_item(s)->0 }),
        forall|c: EndingCandidate| #[trigger] r@.contains(c) ==> candidate_present(*state, c),
{
    proof { lemma_ending_candidates_complete(*state); }
    let mut r: Vec<EndingCandidate> = Vec::new();
    let e = &state.equipment;
    push_candidate(&mut r, CandidateSource::Equipped(EquipSlot::Weapon), e.weapon);
    push_candidate(&mut r, CandidateSource::Equipped(EquipSlot::Head), e.head);
    push_candidate(&mut r, CandidateSource::Equipped(EquipSlot::Torso), e.torso);
    push_candidate(&mut r, CandidateSource::Equipped(EquipSlot::Legs), e.legs);
    push_candidate(&mut r, CandidateSource::Equipped(EquipSlot::Shield), e.shield);
    push_candidate(&mut r, CandidateSource::Equipped(EquipSlot::Charm), e.charm);
    push_candidate(&mut r, CandidateSource::Equipped(EquipSlot::Backpack), e.backpack);
    assert(r@ =~= worn_candidates(*e) + carried_candidates(state.inventory.slots@, 0));
    let mut i: usize = 0;
    while i < 16
        invariant
            i <= 16,
            r@ == worn_candidates(state.equipment) + carried_candidates(state.inventory.slots@, i as int),
        decreases 16 - i,
    {
        push_candidate(&mut r, CandidateSource::Carried(i), state.inventory.slots[i]);
        proof {
            assert(carried_candidates(state.inventory.slots@, i + 1) == carried_candidates(state.inventory.slots@, i as int)
                + one_candidate(CandidateSource::Carried(i), state.inventory.slots@[i as int]));
            assert(r@ =~= worn_candidates(state.equipment) + carried_candidates(state.inventory.slots@, i + 1));
        }
        i = i + 1;
    }
    r
}

/// The item behind the ending screen's button number `index`, if there is one.
pub fn ending_item_at(state: &PlayerState, index: usize) -> (r: Option<ItemSpec>)
    ensures
        r == if index < spec_ending_candidates(*state).len() {
            Some(spec_ending_candidates(*state)[index as int].spec)
        } else {
            None
        },
{
    let candidates = ending_candidates(state);
    if index < candidates.len() {
        Some(candidates[index].spec)
    } else {
        None
    }
}

} // verus!
