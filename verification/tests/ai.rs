use dungeon_feature::ai::{ai_step, ai_timer, AiAction, AiState, AiTimer};

#[test]
fn idle_and_wander_start_chasing_on_sight() {
    for s in [AiState::Idle, AiState::Wander] {
        assert_eq!(ai_step(s, true, true, true, true), (AiState::Chase, AiAction::ResetChaseLost));
        assert_eq!(ai_timer(s, true), AiTimer::Hold);
        assert_eq!(ai_timer(s, false), AiTimer::WanderCountdown);
    }
}

#[test]
fn idle_and_wander_alternate_when_the_timer_runs_out() {
    assert_eq!(ai_step(AiState::Idle, false, true, false, false), (AiState::Wander, AiAction::StartWander));
    assert_eq!(ai_step(AiState::Wander, false, true, false, false), (AiState::Idle, AiAction::StartIdle));
    assert_eq!(ai_step(AiState::Idle, false, false, true, true), (AiState::Idle, AiAction::Nothing));
    assert_eq!(ai_step(AiState::Wander, false, false, true, true), (AiState::Wander, AiAction::Nothing));
}

#[test]
fn chase_attacks_gives_up_or_keeps_going() {
    assert_eq!(ai_step(AiState::Chase, true, false, false, true), (AiState::Attack, AiAction::ResetChaseLost));
    assert_eq!(ai_step(AiState::Chase, true, false, true, false), (AiState::Chase, AiAction::ResetChaseLost));
    assert_eq!(ai_step(AiState::Chase, false, false, true, true), (AiState::Idle, AiAction::GiveUpChase));
    assert_eq!(ai_step(AiState::Chase, false, false, false, true), (AiState::Chase, AiAction::Nothing));
    assert_eq!(ai_timer(AiState::Chase, false), AiTimer::ChaseLostCount);
    assert_eq!(ai_timer(AiState::Chase, true), AiTimer::Hold);
}

#[test]
fn an_attack_returns_to_the_chase() {
    assert_eq!(ai_step(AiState::Attack, false, true, true, true), (AiState::Chase, AiAction::Nothing));
    assert_eq!(ai_timer(AiState::Attack, false), AiTimer::Hold);
}
