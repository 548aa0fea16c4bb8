use rollback_duel::codec::{Packet, INPUT_FIRE, INPUT_RIGHT, INPUT_UP};
use rollback_duel::engine::{EngineError, Engine};
use rollback_duel::session::{plan_session, Bootstrap, BootstrapError, PeerKind, Phase, SessionPlan};
use rollback_duel::sim::{replay, Config, World};

fn idle() -> Packet {
    Packet { aim_x: 0, aim_y: 0, input: 0 }
}

fn engine(delay: usize, window: usize) -> Engine {
    Engine::new(Config::standard(), 2, 0, delay, window, World::starting(&Config::standard()))
}

#[test]
fn late_input_resimulates_to_single_pass_state() {
    let mut e = engine(0, 8);
    for _ in 0..4 {
        e.advance_frame(idle()).unwrap();
    }
    assert_eq!(e.current_frame(), 4);
    let right = Packet { aim_x: 0, aim_y: 0, input: INPUT_RIGHT };
    assert_eq!(e.add_remote_input(1, 0, right), Ok(true));
    let history = vec![vec![idle(), right]; 4];
    let expected = replay(&Config::standard(), World::starting(&Config::standard()), &history);
    assert_eq!(e.current_state().players, expected.players);
    assert_eq!(e.current_state().bullets, expected.bullets);
    assert_eq!(e.current_state().players[1].x, -2000 + 4 * 150);
}

#[test]
fn correction_applied_twice_equals_once() {
    let mut e = engine(0, 8);
    for _ in 0..4 {
        e.advance_frame(idle()).unwrap();
    }
    let up = Packet { aim_x: 0, aim_y: 0, input: INPUT_UP };
    assert_eq!(e.add_remote_input(1, 0, up), Ok(true));
    let once = (e.current_state().players.clone(), e.current_state().bullets.clone());
    assert_eq!(e.add_remote_input(1, 0, up), Ok(false));
    assert_eq!((e.current_state().players.clone(), e.current_state().bullets.clone()), once);
}

#[test]
fn matching_input_needs_no_rollback() {
    let mut e = engine(0, 8);
    e.advance_frame(idle()).unwrap();
    e.advance_frame(idle()).unwrap();
    let before = e.current_state().players.clone();
    assert_eq!(e.add_remote_input(1, 0, idle()), Ok(false));
    assert_eq!(e.current_state().players, before);
    assert!(!e.is_confirmed(1));
}

#[test]
fn input_for_future_frame_is_used_when_reached() {
    let mut e = engine(0, 8);
    let fire = Packet { aim_x: 0, aim_y: 9000, input: INPUT_FIRE };
    assert_eq!(e.add_remote_input(1, 0, fire), Ok(false));
    // the local input for frame 0 is not given yet
    assert!(!e.is_confirmed(0));
    e.advance_frame(idle()).unwrap();
    assert!(e.is_confirmed(0));
    // the remote player keeps firing by prediction; its first shot waits for
    // the full cooldown, on the sixth frame
    for _ in 0..4 {
        e.advance_frame(idle()).unwrap();
    }
    assert_eq!(e.current_state().bullets.len(), 0);
    e.advance_frame(idle()).unwrap();
    assert_eq!(e.current_state().bullets.len(), 1);
}

#[test]
fn local_input_is_delayed() {
    let mut e = engine(2, 8);
    let right = Packet { aim_x: 0, aim_y: 0, input: INPUT_RIGHT };
    assert_eq!(e.received_count(0), 2);
    e.advance_frame(right).unwrap();
    e.advance_frame(right).unwrap();
    assert_eq!(e.current_state().players[0].x, -2000);
    e.advance_frame(right).unwrap();
    assert_eq!(e.current_state().players[0].x, -2000 + 150);
    assert_eq!(e.received_count(0), 5);
}

#[test]
fn engine_errors() {
    let mut e = engine(0, 2);
    assert_eq!(e.add_remote_input(0, 0, idle()), Err(EngineError::NotRemote));
    assert_eq!(e.add_remote_input(5, 0, idle()), Err(EngineError::NotRemote));
    assert_eq!(e.add_remote_input(1, 1, idle()), Err(EngineError::OutOfOrder));
    assert_eq!(e.add_remote_input(1, 0, idle()), Ok(false));
    let up = Packet { aim_x: 0, aim_y: 0, input: INPUT_UP };
    assert_eq!(e.add_remote_input(1, 0, up), Err(EngineError::Conflict));
    e.advance_frame(idle()).unwrap();
    e.advance_frame(idle()).unwrap();
    e.advance_frame(idle()).unwrap();
    assert_eq!(e.advance_blocked(), Some(EngineError::PredictionThreshold));
    assert_eq!(e.advance_frame(idle()), Err(EngineError::PredictionThreshold));
    assert_eq!(e.current_frame(), 3);
    assert_eq!(e.add_remote_input(1, 1, idle()), Ok(false));
    assert_eq!(e.advance_blocked(), None);
}

#[test]
fn bootstrap_waits_for_quorum() {
    assert_eq!(plan_session(&vec![PeerKind::Local], 2, 2), Ok(None));
    assert_eq!(
        plan_session(&vec![PeerKind::Remote, PeerKind::Local], 2, 2),
        Ok(Some(SessionPlan { num_players: 2, local_handle: 1, input_delay: 2 }))
    );
    assert_eq!(
        plan_session(&vec![PeerKind::Local, PeerKind::Remote], 2, 2),
        Ok(Some(SessionPlan { num_players: 2, local_handle: 0, input_delay: 2 }))
    );
}

#[test]
fn bootstrap_errors() {
    assert_eq!(plan_session(&vec![PeerKind::Remote, PeerKind::Remote], 2, 2), Err(BootstrapError::NoLocalPlayer));
    assert_eq!(plan_session(&vec![PeerKind::Local, PeerKind::Local], 2, 2), Err(BootstrapError::SeveralLocalPlayers));
    assert_eq!(
        plan_session(&vec![PeerKind::Local, PeerKind::Remote, PeerKind::Remote], 2, 2),
        Err(BootstrapError::TooManyPlayers)
    );
}

#[test]
fn bootstrap_is_inert_once_started() {
    let mut b = Bootstrap::new(2, 2);
    assert_eq!(b.poll(&vec![PeerKind::Local]), Ok(None));
    assert_eq!(b.phase, Phase::Waiting);
    let plan = SessionPlan { num_players: 2, local_handle: 0, input_delay: 2 };
    assert_eq!(b.poll(&vec![PeerKind::Local, PeerKind::Remote]), Ok(Some(plan)));
    assert_eq!(b.phase, Phase::Active(plan));
    assert_eq!(b.poll(&vec![PeerKind::Remote, PeerKind::Local]), Ok(None));
    assert_eq!(b.phase, Phase::Active(plan));
}

#[test]
fn confirmed_frames_retire_beyond_window() {
    let mut e = engine(0, 8);
    for f in 0..12 {
        assert_eq!(e.add_remote_input(1, f, idle()), Ok(false));
    }
    for _ in 0..12 {
        e.advance_frame(idle()).unwrap();
    }
    assert_eq!(e.current_frame(), 12);
    assert_eq!(e.oldest_frame(), 4);
    // inputs before the frame preceding the oldest snapshot are dropped
    assert_eq!(e.add_remote_input(1, 2, idle()), Err(EngineError::Retired));
    assert_eq!(e.add_remote_input(1, 3, idle()), Ok(false));
    assert_eq!(e.add_remote_input(1, 11, idle()), Ok(false));
    assert_eq!(e.received_count(1), 12);
    assert!(e.is_confirmed(11));
    assert!(!e.is_confirmed(12));
}

#[test]
fn unconfirmed_frames_are_kept() {
    let mut e = engine(0, 8);
    for _ in 0..8 {
        e.advance_frame(idle()).unwrap();
    }
    assert_eq!(e.oldest_frame(), 0);
    assert_eq!(e.advance_frame(idle()), Err(EngineError::PredictionThreshold));
}

#[test]
fn rollback_after_retirement_matches_single_pass() {
    let mut e = engine(0, 4);
    for f in 0..4 {
        assert_eq!(e.add_remote_input(1, f, idle()), Ok(false));
    }
    for _ in 0..6 {
        e.advance_frame(idle()).unwrap();
    }
    assert_eq!(e.oldest_frame(), 2);
    let right = Packet { aim_x: 0, aim_y: 0, input: INPUT_RIGHT };
    assert_eq!(e.add_remote_input(1, 4, right), Ok(true));
    let mut history = vec![vec![idle(), idle()]; 4];
    history.push(vec![idle(), right]);
    history.push(vec![idle(), right]);
    let expected = replay(&Config::standard(), World::starting(&Config::standard()), &history);
    assert_eq!(e.current_state().players, expected.players);
    assert_eq!(e.current_state().players[1].x, -2000 + 2 * 150);
}
