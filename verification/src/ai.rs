use vstd::prelude::*;

verus! {

/// What an enemy is doing.
#[derive(Debug, Clone, Copy, PartialEq, Eq, Structural)]
pub enum AiState {
    Idle,
    Wander,
    Chase,
    Attack,
}

/// The timer an enemy runs this frame, before it decides.
#[derive(Debug, Clone, Copy, PartialEq, Eq, Structural)]
pub enum AiTimer {
    /// No timer runs.
    Hold,
    /// The idle or wander timer counts down.
    WanderCountdown,
    /// The time since the player was last seen counts up.
    ChaseLostCount,
}

/// What accompanies a change of state.
#[derive(Debug, Clone, Copy, PartialEq, Eq, Structural)]
pub enum AiAction {
    Nothing,
    /// The player is in sight: the time since last seen goes back to zero.
    ResetChaseLost,
    /// Start wandering: draw a new wander time and a new direction.
    StartWander,
    /// Stop wandering: draw a new idle time.
    StartIdle,
    /// Give up the chase: draw a new idle time and zero the time since last seen.
    GiveUpChase,
}

pub open spec fn spec_ai_timer(state: AiState, sees_player: bool) -> AiTimer {
    match state {
        AiState::Idle | AiState::Wander => if sees_player { AiTimer::Hold } else { AiTimer::WanderCountdown },
        AiState::Chase => if sees_player { AiTimer::Hold } else { AiTimer::ChaseLostCount },
        AiState::Attack => AiTimer::Hold,
    }
}

/// Which timer runs this frame: an idle or wandering enemy that does not
/// see the player counts its wander time down; a chasing one that lost
/// sight counts the time since it last saw the player up.
pub fn ai_timer(state: AiState, sees_player: bool) -> (r: AiTimer)
    ensures
        r == spec_ai_timer(state, sees_player),
{
    match state {
        AiState::Idle | AiState::Wander => if sees_player { AiTimer::Hold } else { AiTimer::WanderCountdown },
        AiState::Chase => if sees_player { AiTimer::Hold } else { AiTimer::ChaseLostCount },
        AiState::Attack => AiTimer::Hold,
    }
}

pub open spec fn spec_ai_step(
    state: AiState,
    sees_player: bool,
    wander_expired: bool,
    give_up_chase: bool,
    attack_ready: bool,
) -> (AiState, AiAction) {
    match state {
        AiState::Idle => if sees_player {
            (AiState::Chase, AiAction::ResetChaseLost)
        } else if wander_expired {
            (AiState::Wander, AiAction::StartWander)
        } else {
            (AiState::Idle, AiAction::Nothing)
        },
        AiState::Wander => if sees_player {
            (AiState::Chase, AiAction::ResetChaseLost)
        } else if wander_expired {
            (AiState::Idle, AiAction::StartIdle)
        } else {
            (AiState::Wander, AiAction::Nothing)
        },
        AiState::Chase => if !sees_player {
            if give_up_chase { (AiState::Idle, AiAction::GiveUpChase) } else { (AiState::Chase, AiAction::Nothing) }
        } else if attack_ready {
            (AiState::Attack, AiAction::ResetChaseLost)
        } else {
            (AiState::Chase, AiAction::ResetChaseLost)
        },
        AiState::Attack => (AiState::Chase, AiAction::Nothing),
    }
}

/// One decision of an enemy, after its timer has run: the next state and
/// what goes with it. `wander_expired` tells whether the wander time has run
/// out, `give_up_chase` whether the player has been out of sight too long or
/// is too far, `attack_ready` whether the player is in reach and the attack
/// cooled down.
pub fn ai_step(
    state: AiState,
    sees_player: bool,
    wander_expired: bool,
    give_up_chase: bool,
    attack_ready: bool,
) -> (r: (AiState, AiAction))
    ensures
        r == spec_ai_step(state, sees_player, wander_expired, give_up_chase, attack_ready),
        state == AiState::Chase && !sees_player && !give_up_chase ==> r == (AiState::Chase, AiAction::Nothing),
        state == AiState::Chase && !sees_player && give_up_chase ==> r == (AiState::Idle, AiAction::GiveUpChase),
        state == AiState::Chase && sees_player ==> r.1 == AiAction::ResetChaseLost
            && r.0 == (if attack_ready { AiState::Attack } else { AiState::Chase }),
        (state == AiState::Idle || state == AiState::Wander) && sees_player
            ==> r == (AiState::Chase, AiAction::ResetChaseLost),
        (state == AiState::Idle || state == AiState::Wander) && !sees_player && !wander_expired
            ==> r == (state, AiAction::Nothing),
        state == AiState::Idle && !sees_player && wander_expired ==> r == (AiState::Wander, AiAction::StartWander),
        state == AiState::Wander && !sees_player && wander_expired ==> r == (AiState::Idle, AiAction::StartIdle),
        state == AiState::Attack ==> r == (AiState::Chase, AiAction::Nothing),
{
    match state {
        AiState::Idle => if sees_player {
            (AiState::Chase, AiAction::ResetChaseLost)
        } else if wander_expired {
            (AiState::Wander, AiAction::StartWander)
        } else {
            (AiState::Idle, AiAction::Nothing)
        },
        AiState::Wander => if sees_player {
            (AiState::Chase, AiAction::ResetChaseLost)
        } else if wander_expired {
            (AiState::Idle, AiAction::StartIdle)
        } else {
            (AiState::Wander, AiAction::Nothing)
        },
        AiState::Chase => if !sees_player {
            if give_up_chase { (AiState::Idle, AiAction::GiveUpChase) } else { (AiState::Chase, AiAction::Nothing) }
        } else if attack_ready {
            (AiState::Attack, AiAction::ResetChaseLost)
        } else {
            (AiState::Chase, AiAction::ResetChaseLost)
        },
        AiState::Attack => (AiState::Chase, AiAction::Nothing),
    }
}

/// Only a chasing enemy that sees the player and is ready starts an attack;
/// an attack lasts one decision and goes back to the chase; an idle or
/// wandering enemy that sees the player starts chasing; an enemy that does
/// not see the player never starts chasing.
pub proof fn lemma_ai_transitions(state: AiState, sees: bool, expired: bool, give_up: bool, ready: bool)
    ensures
        ({
            let (next, _) = spec_ai_step(state, sees, expired, give_up, ready);
            &&& next == AiState::Attack <==> (state == AiState::Chase && sees && ready)
            &&& state == AiState::Attack ==> next == AiState::Chase
            &&& (state == AiState::Idle || state == AiState::Wander) && sees ==> next == AiState::Chase
            &&& !sees && state != AiState::Attack && next == AiState::Chase ==> state == AiState::Chase
        }),
        ({
            let (next, act) = spec_ai_step(state, sees, expired, give_up, ready);
            &&& act == AiAction::GiveUpChase <==> (state == AiState::Chase && !sees && give_up)
            &&& state == AiState::Chase && !sees && !give_up ==> next == AiState::Chase && act == AiAction::Nothing
            &&& next == AiState::Wander && state != AiState::Wander ==> state == AiState::Idle && !sees && expired
            &&& act == AiAction::ResetChaseLost <==> sees && state != AiState::Attack
            &&& (state == AiState::Idle || state == AiState::Wander) && !sees && !expired
                ==> next == state && act == AiAction::Nothing
        }),
{
}

} // verus!
