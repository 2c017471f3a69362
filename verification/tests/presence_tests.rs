//! Tests of the shared state behind the lock: the connection directory, the
//! exit tracker and janitor, and the event dispatch.

use krokodil::events::{Audience, ClientEvent, Directive, ServerEvent};
use krokodil::presence::{AppState, GRACE_PERIOD_SECS, IdMap};
use krokodil::session::{CanvasSize, DrawingSegment, GameStage, Point};

fn seg(id: &str) -> DrawingSegment {
    DrawingSegment {
        id: id.to_string(),
        stroke: "#000000".to_string(),
        line_width: 2,
        points: vec![Point { x: 0, y: 0 }, Point { x: 5, y: 5 }],
    }
}

#[test]
fn id_map_tracks_the_latest_binding() {
    let mut m = IdMap::new();
    assert_eq!(None, m.get(7));
    m.set(7, 1);
    m.set(9, 2);
    assert_eq!(Some(1), m.get(7));
    assert_eq!(Some(2), m.get(9));
    m.set(7, 3);
    assert_eq!(Some(3), m.get(7), "a newer binding supersedes");
    m.remove(7);
    assert_eq!(None, m.get(7));
    assert_eq!(Some(2), m.get(9));
}

#[test]
fn connect_replays_identity_room_and_strokes() {
    let mut state = AppState::new();
    let a = 1u128;
    let (conn_a, ds) = state.connect("room", a, true, Some("ann".to_string()));
    assert_eq!(1, conn_a);
    assert_eq!(2, ds.len(), "a new player gets identity and room snapshot");
    match &ds[0] {
        Directive { audience: Audience::Sender, event: ServerEvent::YouAre(p), echo: false } => {
            assert_eq!(a, p.id);
            assert_eq!("ann", p.nickname);
        }
        _ => panic!("Expected a YouAre directive first"),
    }
    assert!(matches!(
        &ds[1],
        Directive { audience: Audience::Sender, event: ServerEvent::Game(_), echo: false }
    ));

    // Start a drawing with one stroke, then reconnect: the stroke replays.
    let canvas = CanvasSize { width: 9, height: 9 };
    assert!(state.games.find_mut("room").unwrap().submit_word(a, "pear".to_string(), canvas));
    state.games.find_mut("room").unwrap().add_segment(seg("s1"));

    let (conn_a2, ds) = state.connect("room", a, false, None);
    assert_eq!(2, conn_a2, "connection instance ids grow");
    assert_eq!(2, ds.len(), "a returning player gets the snapshot and the stroke");
    assert!(matches!(
        &ds[0],
        Directive { audience: Audience::Sender, event: ServerEvent::Game(_), echo: false }
    ));
    match &ds[1] {
        Directive {
            audience: Audience::Sender,
            event: ServerEvent::AddDrawingSegment(s),
            echo: false,
        } => assert_eq!("s1", s.id),
        _ => panic!("Expected the stroke replay"),
    }
    // The one-tab policy: only the newest connection is in the directory.
    assert_eq!(Some(conn_a2), state.connections.get(a));
}

#[test]
fn janitor_evicts_only_after_the_grace_period() {
    let mut state = AppState::new();
    let a = 1u128;
    let b = 2u128;
    let (conn_a, _) = state.connect("room", a, true, None);
    state.connect("room", b, true, None);

    state.disconnect(a, conn_a, 1000);
    assert_eq!(None, state.connections.get(a), "the matching instance leaves the directory");

    // Within the grace period nothing expires.
    assert_eq!(0, state.expired_players(1000 + GRACE_PERIOD_SECS).len());

    // After it, the player is evicted from the room and the record cleared.
    let expired = state.expired_players(1001 + GRACE_PERIOD_SECS);
    assert_eq!(vec![a], expired);
    let modified = state.evict(&expired);
    assert_eq!(1, modified.len());
    assert_eq!("room", modified[0].id);
    assert_eq!(1, modified[0].players.len());
    assert_eq!(b, modified[0].players[0].id);
    assert_eq!(0, state.expired_players(2000 + GRACE_PERIOD_SECS).len(), "the record is cleared");

    // The survivors are the broadcast audience.
    assert_eq!(vec![b], state.recipients(&modified[0], None));
}

#[test]
fn reconnect_before_grace_voids_the_eviction() {
    let mut state = AppState::new();
    let a = 1u128;
    let (conn_a, _) = state.connect("room", a, true, None);
    state.disconnect(a, conn_a, 1000);

    // The player returns in time: the pending eviction is voided.
    state.connect("room", a, false, None);
    assert_eq!(0, state.expired_players(5000 + GRACE_PERIOD_SECS).len());
    assert_eq!(1, state.games.find("room").unwrap().players.len());
    assert_eq!(a, state.games.find("room").unwrap().players[0].id);
}

#[test]
fn superseded_disconnect_leaves_the_new_connection_alone() {
    let mut state = AppState::new();
    let a = 1u128;
    let (conn_1, _) = state.connect("room", a, true, None);
    let (conn_2, _) = state.connect("room", a, false, None);

    // The old tab closes; the directory names the new tab, so nothing is
    // recorded and no eviction is ever pending.
    state.disconnect(a, conn_1, 1000);
    assert_eq!(Some(conn_2), state.connections.get(a));
    assert_eq!(0, state.expired_players(9999 + GRACE_PERIOD_SECS).len());
}

#[test]
fn eviction_sweep_deduplicates_rooms() {
    let mut state = AppState::new();
    let a = 1u128;
    let b = 2u128;
    let c = 3u128;
    let (conn_a, _) = state.connect("room", a, true, None);
    let (conn_b, _) = state.connect("room", b, true, None);
    state.connect("room", c, true, None);
    state.disconnect(a, conn_a, 10);
    state.disconnect(b, conn_b, 20);

    let expired = state.expired_players(100 + GRACE_PERIOD_SECS);
    assert_eq!(2, expired.len());
    let modified = state.evict(&expired);
    assert_eq!(1, modified.len(), "one snapshot per room, not per evicted player");
    assert_eq!(1, modified[0].players.len());
    assert_eq!(c, modified[0].players[0].id);
}

#[test]
fn recipients_skip_the_sender_and_the_connectionless() {
    let mut state = AppState::new();
    let a = 1u128;
    let b = 2u128;
    let c = 3u128;
    let (conn_a, _) = state.connect("room", a, true, None);
    state.connect("room", b, true, None);
    state.connect("room", c, true, None);
    state.disconnect(a, conn_a, 5);

    let game = state.games.find("room").unwrap().clone();
    assert_eq!(vec![b, c], state.recipients(&game, None), "no channel, no delivery");
    assert_eq!(vec![c], state.recipients(&game, Some(b)), "the sender is excluded");
}

#[test]
fn ping_answers_pong() {
    let mut state = AppState::new();
    let r = state.on_client_event(1, "nowhere", ClientEvent::Ping);
    let ds = r.expect("a keepalive needs no room");
    assert_eq!(1, ds.len());
    assert!(matches!(
        &ds[0],
        Directive { audience: Audience::Sender, event: ServerEvent::Pong, echo: false }
    ));
}

#[test]
fn events_against_a_missing_room_are_fatal() {
    let mut state = AppState::new();
    let r = state.on_client_event(1, "nowhere", ClientEvent::GuessWord("x".to_string()));
    assert!(r.is_none());
}

#[test]
fn stroke_events_update_the_room_and_notify_others() {
    let mut state = AppState::new();
    let a = 1u128;
    state.connect("room", a, true, None);
    let canvas = CanvasSize { width: 4, height: 4 };
    assert!(state.games.find_mut("room").unwrap().submit_word(a, "pear".to_string(), canvas));

    let ds = state
        .on_client_event(a, "room", ClientEvent::AddDrawingSegment(seg("s9")))
        .expect("the room exists");
    assert_eq!(1, ds.len());
    match &ds[0] {
        Directive {
            audience: Audience::Others,
            event: ServerEvent::AddDrawingSegment(s),
            echo: false,
        } => assert_eq!("s9", s.id),
        _ => panic!("Expected the stroke to go to the others"),
    }
    assert_eq!(1, state.games.find("room").unwrap().iter_drawing().len());

    let ds = state
        .on_client_event(a, "room", ClientEvent::RemoveDrawingSegment("s9".to_string()))
        .expect("the room exists");
    assert_eq!(1, ds.len());
    assert!(matches!(
        &ds[0],
        Directive {
            audience: Audience::Others,
            event: ServerEvent::RemoveDrawingSegment(_),
            echo: false,
        }
    ));
    assert_eq!(0, state.games.find("room").unwrap().iter_drawing().len());
}

#[test]
fn submit_and_guess_events_broadcast_snapshots() {
    let mut state = AppState::new();
    let a = 1u128;
    let b = 2u128;
    state.connect("room", a, true, None);
    state.connect("room", b, true, None);
    let canvas = CanvasSize { width: 4, height: 4 };

    // The wrong player submits: accepted, nothing to send, nothing changed.
    let ds = state
        .on_client_event(b, "room", ClientEvent::SubmitWord("pear".to_string(), canvas))
        .expect("the room exists");
    assert_eq!(0, ds.len());
    assert!(matches!(
        state.games.find("room").unwrap().stage,
        GameStage::PlayerChoosing { .. }
    ));

    // The chooser submits: clear the canvas, then broadcast the snapshot.
    let ds = state
        .on_client_event(a, "room", ClientEvent::SubmitWord("pear".to_string(), canvas))
        .expect("the room exists");
    assert_eq!(2, ds.len());
    assert!(matches!(
        &ds[0],
        Directive { audience: Audience::All, event: ServerEvent::ClearDrawing, echo: false }
    ));
    assert!(matches!(
        &ds[1],
        Directive { audience: Audience::All, event: ServerEvent::Game(_), echo: false }
    ));

    // A wrong guess goes back to the guesser alone, echoing the request.
    let ds = state
        .on_client_event(b, "room", ClientEvent::GuessWord("melon".to_string()))
        .expect("the room exists");
    assert_eq!(1, ds.len());
    assert!(matches!(
        &ds[0],
        Directive { audience: Audience::Sender, event: ServerEvent::WrongGuess, echo: true }
    ));

    // The right guess broadcasts the new choosing stage.
    let ds = state
        .on_client_event(b, "room", ClientEvent::GuessWord("PEAR".to_string()))
        .expect("the room exists");
    assert_eq!(1, ds.len());
    match &ds[0] {
        Directive { audience: Audience::All, event: ServerEvent::Game(g), echo: false } => {
            match &g.stage {
                GameStage::PlayerChoosing { player_id } => assert_eq!(b, *player_id),
                _ => panic!("Expected PlayerChoosing in the broadcast snapshot"),
            }
        }
        _ => panic!("Expected a room snapshot to all"),
    }
}

#[test]
fn word_tip_event_echoes_to_the_asker() {
    let mut state = AppState::new();
    let a = 1u128;
    state.connect("room", a, true, None);

    // No tip while choosing.
    let ds = state.on_client_event(a, "room", ClientEvent::AskWordTip).expect("the room exists");
    assert_eq!(0, ds.len());

    let canvas = CanvasSize { width: 4, height: 4 };
    assert!(state.games.find_mut("room").unwrap().submit_word(a, "melon".to_string(), canvas));
    let ds = state.on_client_event(a, "room", ClientEvent::AskWordTip).expect("the room exists");
    assert_eq!(1, ds.len());
    match &ds[0] {
        Directive { audience: Audience::Sender, event: ServerEvent::WordTip(t), echo: true } => {
            assert_eq!("m****", t);
        }
        _ => panic!("Expected a word tip to the asker"),
    }
}

#[test]
fn guess_from_outside_the_roster_is_fatal() {
    let mut state = AppState::new();
    let a = 1u128;
    state.connect("room", a, true, None);
    let r = state.on_client_event(99, "room", ClientEvent::GuessWord("x".to_string()));
    assert!(r.is_none(), "a guesser must be on the roster");
}
