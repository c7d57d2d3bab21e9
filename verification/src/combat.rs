use vstd::prelude::*;

verus! {

/// The kinds of enemy, each with its own stat multipliers.
#[derive(Debug, Clone, Copy, PartialEq, Eq, Structural)]
pub enum EnemyKind {
    Slime,
    Bat,
    Golem,
}

impl Default for EnemyKind {
    fn default() -> (r: Self)
        ensures
            r == EnemyKind::Slime,
    {
        EnemyKind::Slime
    }
}

impl EnemyKind {
    /// Row of this kind in the table of per-kind metadata.
    pub open spec fn spec_meta_index(self) -> usize {
        match self {
            EnemyKind::Slime => 0,
            EnemyKind::Bat => 1,
            EnemyKind::Golem => 2,
        }
    }

    pub fn meta_index(self) -> (r: usize)
        ensures
            r == self.spec_meta_index(),
            r < 3,
    {
        match self {
            EnemyKind::Slime => 0,
            EnemyKind::Bat => 1,
            EnemyKind::Golem => 2,
        }
    }
}

/// Distinct kinds use distinct metadata rows.
pub proof fn lemma_meta_index_injective(a: EnemyKind, b: EnemyKind)
    ensures
        a.spec_meta_index() == b.spec_meta_index() <==> a == b,
{
}

/// Damage dealt: attack minus defense, but never less than 1.
pub open spec fn spec_damage(attack: u32, defense: u32) -> u32 {
    if attack > defense && attack - defense > 1 { (attack - defense) as u32 } else { 1 }
}

pub fn calculate_damage(attack: u32, defense: u32) -> (r: u32)
    ensures
        r == spec_damage(attack, defense),
        attack > defense + 1 ==> r == attack - defense,
        attack <= defense + 1 ==> r == 1,
{
    let diff = attack.saturating_sub(defense);
    if diff > 1 { diff } else { 1 }
}

/// A hit deals exactly the attack less the defense whenever that is more
/// than 1, and 1 otherwise; every point of attack beyond the defense counts.
pub proof fn lemma_damage_exact(attack: u32, defense: u32)
    ensures
        attack > defense + 1 ==> spec_damage(attack, defense) == attack - defense,
        attack <= defense + 1 ==> spec_damage(attack, defense) == 1,
        attack > defense + 1 && attack < u32::MAX ==> spec_damage((attack + 1) as u32, defense)
            == spec_damage(attack, defense) + 1,
{
}

/// Every hit lands for at least 1 and never for more than the attack
/// (or 1, for a zero attack); raising the attack never lowers the damage.
pub proof fn lemma_damage_bounds(attack: u32, defense: u32, stronger: u32)
    requires
        attack <= stronger,
    ensures
        1 <= spec_damage(attack, defense),
        spec_damage(attack, defense) <= if attack > 1 { attack } else { 1 },
        spec_damage(attack, defense) <= spec_damage(stronger, defense),
{
}

} // verus!

verus! {

/// Hit points of a creature.
#[derive(Debug, Clone, Copy, PartialEq, Eq, Structural)]
pub struct Health {
    pub current: u32,
    pub max: u32,
}

/// Health after drinking a potion worth `amount`: raised by that much, but
/// never above the maximum.
pub open spec fn spec_healed(h: Health, amount: u32) -> Health {
    Health { current: if h.current + amount < h.max { (h.current + amount) as u32 } else { h.max }, ..h }
}

/// A potion raises health by its value, but not past the maximum: the new
/// health is the smaller of the two, and the maximum stays.
pub proof fn lemma_heal_exact(h: Health, amount: u32)
    ensures
        spec_healed(h, amount).current <= h.current + amount,
        spec_healed(h, amount).current <= h.max,
        spec_healed(h, amount).current == h.current + amount || spec_healed(h, amount).current == h.max,
        h.current + amount <= h.max ==> spec_healed(h, amount).current == h.current + amount,
        spec_healed(h, amount).max == h.max,
{
}

/// Health after a hit of `amount`: lowered by that much, not below zero.
pub open spec fn spec_damaged(h: Health, amount: u32) -> Health {
    Health { current: if h.current > amount { (h.current - amount) as u32 } else { 0 }, ..h }
}

/// Applies a hit to `health`. A creature already at zero, or one that is
/// invincible for the moment, takes nothing; the result tells whether the
/// hit landed.
pub fn apply_damage(health: &mut Health, amount: u32, invincible: bool) -> (landed: bool)
    ensures
        landed == (old(health).current != 0 && !invincible),
        *final(health) == if landed { spec_damaged(*old(health), amount) } else { *old(health) },
{
    if health.current == 0 || invincible {
        return false;
    }
    health.current = health.current.saturating_sub(amount);
    true
}

/// A hit never raises health and never touches the maximum.
pub proof fn lemma_damage_lowers(h: Health, amount: u32)
    ensures
        spec_damaged(h, amount).current <= h.current,
        spec_damaged(h, amount).max == h.max,
        amount > 0 && h.current > 0 ==> spec_damaged(h, amount).current < h.current,
        amount <= h.current ==> spec_damaged(h, amount).current == h.current - amount,
        amount > h.current ==> spec_damaged(h, amount).current == 0,
{
}

} // verus!
