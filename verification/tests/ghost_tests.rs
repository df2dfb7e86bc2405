use disc_golf_man::ghost::{
    any_scared, apply_hits, apply_release, arrive_home, calm_ghosts, consume_power_up, next_release_action,
    reset_ghost, resolve_ghost_collisions, scare_ghosts, AttackState, GhostChain, GhostContact,
    GhostHit, ReleaseAction, ReleaseState, ReleaseView, Side,
};
use disc_golf_man::score::{chain_value, PointValues, Score};

fn scared(release: ReleaseState) -> GhostContact {
    GhostContact { collided: true, attack: AttackState::Scared, release }
}

fn away() -> GhostContact {
    GhostContact { collided: false, attack: AttackState::Attacking, release: ReleaseState::Released }
}

#[test]
fn ghost_defaults() {
    assert_eq!(AttackState::default(), AttackState::Attacking);
    assert_eq!(ReleaseState::default(), ReleaseState::Caged);
    assert_eq!(GhostChain::default(), GhostChain(0));
}

#[test]
fn power_up_scares_and_the_end_of_the_scare_calms() {
    let mut s = vec![AttackState::Attacking, AttackState::Scared, AttackState::Attacking];
    assert!(any_scared(&s));
    scare_ghosts(&mut s);
    assert_eq!(s, vec![AttackState::Scared; 3]);
    calm_ghosts(&mut s);
    assert_eq!(s, vec![AttackState::Attacking; 3]);
    assert!(!any_scared(&s));
    assert!(!any_scared(&vec![]));
}

#[test]
fn four_ghosts_in_a_row_score_3000() {
    let v = PointValues::default();
    let gs = vec![scared(ReleaseState::Released); 4];
    let o = resolve_ghost_collisions(&gs, 0, &v).unwrap();
    assert_eq!(
        o.hits,
        vec![GhostHit::Eaten(200), GhostHit::Eaten(400), GhostHit::Eaten(800), GhostHit::Eaten(1600)]
    );
    assert_eq!(o.points, 3000);
    assert_eq!(o.chain, 4);
}

#[test]
fn later_ghosts_in_the_chain_are_worth_the_fourth_value() {
    let v = PointValues::default();
    let gs = vec![scared(ReleaseState::Released), away(), scared(ReleaseState::Caged)];
    let o = resolve_ghost_collisions(&gs, 5, &v).unwrap();
    assert_eq!(o.hits, vec![GhostHit::Eaten(1600), GhostHit::Missed, GhostHit::Eaten(1600)]);
    assert_eq!(o.points, 3200);
    assert_eq!(o.chain, 7);
}

#[test]
fn attacking_ghost_catches_the_player() {
    let v = PointValues::default();
    let gs = vec![
        GhostContact { collided: true, attack: AttackState::Attacking, release: ReleaseState::Released },
        scared(ReleaseState::Released),
    ];
    let o = resolve_ghost_collisions(&gs, 1, &v).unwrap();
    assert_eq!(o.hits, vec![GhostHit::CaughtPlayer, GhostHit::Eaten(400)]);
    assert_eq!(o.points, 400);
    assert_eq!(o.chain, 2);
}

#[test]
fn returning_ghost_is_ignored() {
    let v = PointValues::default();
    let gs = vec![scared(ReleaseState::Respawning)];
    let o = resolve_ghost_collisions(&gs, 0, &v).unwrap();
    assert_eq!(o.hits, vec![GhostHit::Ignored]);
    assert_eq!(o.points, 0);
    assert_eq!(o.chain, 0);
}

#[test]
fn eaten_ghost_is_not_eaten_again() {
    let v = PointValues::default();
    let mut gs = vec![scared(ReleaseState::Released), away()];
    let o = resolve_ghost_collisions(&gs, 0, &v).unwrap();
    let mut release: Vec<ReleaseState> = gs.iter().map(|g| g.release).collect();
    apply_hits(&mut release, &o.hits);
    assert_eq!(release, vec![ReleaseState::Respawning, ReleaseState::Released]);
    gs[0].release = release[0];
    let again = resolve_ghost_collisions(&gs, o.chain, &v).unwrap();
    assert_eq!(again.hits, vec![GhostHit::Ignored, GhostHit::Missed]);
    assert_eq!(again.points, 0);
}

#[test]
fn chain_counter_overflow_is_refused() {
    let v = PointValues::default();
    assert!(resolve_ghost_collisions(&vec![scared(ReleaseState::Released)], 255, &v).is_none());
    assert!(resolve_ghost_collisions(&vec![away()], 255, &v).is_some());
}

#[test]
fn points_overflow_is_refused() {
    let mut v = PointValues::default();
    v.first_ghost = u64::MAX;
    assert!(resolve_ghost_collisions(&vec![scared(ReleaseState::Released)], 0, &v).is_some());
    assert!(resolve_ghost_collisions(&vec![scared(ReleaseState::Released); 2], 0, &v).is_none());
}

#[test]
fn chain_values() {
    let v = PointValues::default();
    assert_eq!(chain_value(&v, 0), 200);
    assert_eq!(chain_value(&v, 1), 400);
    assert_eq!(chain_value(&v, 2), 800);
    assert_eq!(chain_value(&v, 3), 1600);
    assert_eq!(chain_value(&v, 200), 1600);
}

#[test]
fn power_up_restarts_the_chain() {
    let v = PointValues::default();
    let mut score = Score(100);
    let mut chain = GhostChain(3);
    assert!(consume_power_up(&mut score, &mut chain, &v));
    assert_eq!(score, Score(150));
    assert_eq!(chain, GhostChain(0));
    let o = resolve_ghost_collisions(&vec![scared(ReleaseState::Released)], chain.0, &v).unwrap();
    assert_eq!(o.hits, vec![GhostHit::Eaten(200)]);
}

#[test]
fn power_up_score_overflow_is_refused() {
    let v = PointValues::default();
    let mut score = Score(u64::MAX - 10);
    let mut chain = GhostChain(2);
    assert!(!consume_power_up(&mut score, &mut chain, &v));
    assert_eq!(score, Score(u64::MAX - 10));
    assert_eq!(chain, GhostChain(2));
}

#[test]
fn home_and_reset() {
    let mut a = AttackState::Scared;
    let mut r = ReleaseState::Respawning;
    arrive_home(&mut a, &mut r);
    assert_eq!((a, r), (AttackState::Attacking, ReleaseState::Caged));
    let mut a = AttackState::Scared;
    let mut r = ReleaseState::Caged;
    reset_ghost(&mut a, &mut r, true);
    assert_eq!((a, r), (AttackState::Attacking, ReleaseState::Released));
    reset_ghost(&mut a, &mut r, false);
    assert_eq!((a, r), (AttackState::Attacking, ReleaseState::Caged));
}

fn view(state: ReleaseState, across: Side, below_exit: bool) -> ReleaseView {
    ReleaseView { state, across, below_exit }
}

#[test]
fn release_idle_when_no_ghost_is_caged_or_leaving() {
    let gs = vec![
        view(ReleaseState::Released, Side::Level, false),
        view(ReleaseState::Respawning, Side::Level, false),
    ];
    assert_eq!(next_release_action(&gs), ReleaseAction::Idle);
    assert_eq!(next_release_action(&vec![]), ReleaseAction::Idle);
}

#[test]
fn release_timer_runs_for_the_first_caged_ghost() {
    let gs = vec![
        view(ReleaseState::Released, Side::Level, false),
        view(ReleaseState::Caged, Side::LeftOf, true),
        view(ReleaseState::Caged, Side::RightOf, true),
    ];
    assert_eq!(next_release_action(&gs), ReleaseAction::TickCageTimer(1));
}

#[test]
fn leaving_ghost_goes_first() {
    let gs = vec![
        view(ReleaseState::Caged, Side::LeftOf, true),
        view(ReleaseState::Releasing, Side::LeftOf, true),
    ];
    assert_eq!(next_release_action(&gs), ReleaseAction::StepRight(1));
    let gs = vec![view(ReleaseState::Releasing, Side::RightOf, true)];
    assert_eq!(next_release_action(&gs), ReleaseAction::StepLeft(0));
    let gs = vec![view(ReleaseState::Releasing, Side::Level, true)];
    assert_eq!(next_release_action(&gs), ReleaseAction::StepUp(0));
    let gs = vec![view(ReleaseState::Releasing, Side::Level, false)];
    assert_eq!(next_release_action(&gs), ReleaseAction::Release(0));
}

#[test]
fn release_steps_change_one_ghost() {
    let gs = vec![
        view(ReleaseState::Caged, Side::LeftOf, true),
        view(ReleaseState::Caged, Side::Level, true),
    ];
    let a = next_release_action(&gs);
    assert_eq!(a, ReleaseAction::TickCageTimer(0));
    let mut states: Vec<ReleaseState> = gs.iter().map(|g| g.state).collect();
    apply_release(&mut states, a, false);
    assert_eq!(states, vec![ReleaseState::Caged, ReleaseState::Caged]);
    apply_release(&mut states, a, true);
    assert_eq!(states, vec![ReleaseState::Releasing, ReleaseState::Caged]);
    let out = vec![view(ReleaseState::Releasing, Side::Level, false), view(ReleaseState::Caged, Side::Level, true)];
    let a = next_release_action(&out);
    assert_eq!(a, ReleaseAction::Release(0));
    let mut states: Vec<ReleaseState> = out.iter().map(|g| g.state).collect();
    apply_release(&mut states, a, true);
    assert_eq!(states, vec![ReleaseState::Released, ReleaseState::Caged]);
    let mut states = vec![ReleaseState::Releasing];
    apply_release(&mut states, ReleaseAction::StepUp(0), true);
    assert_eq!(states, vec![ReleaseState::Releasing]);
}

#[test]
fn second_collision_step_changes_nothing() {
    let v = PointValues::default();
    let mut gs = vec![scared(ReleaseState::Released), scared(ReleaseState::Caged), away()];
    let first = resolve_ghost_collisions(&gs, 1, &v).unwrap();
    assert_eq!(first.points, 1200);
    let mut release: Vec<ReleaseState> = gs.iter().map(|g| g.release).collect();
    apply_hits(&mut release, &first.hits);
    for (g, r) in gs.iter_mut().zip(release.iter()) {
        g.release = *r;
    }
    let second = resolve_ghost_collisions(&gs, first.chain, &v).unwrap();
    assert_eq!(second.points, 0);
    assert_eq!(second.chain, first.chain);
    assert_eq!(second.hits, vec![GhostHit::Ignored, GhostHit::Ignored, GhostHit::Missed]);
    let before = release.clone();
    apply_hits(&mut release, &second.hits);
    assert_eq!(release, before);
}
