//! Tests of the room registry: id reservation, room lifecycle, and the
//! join/remove paths.

use krokodil::registry::Games;
use krokodil::session::{CanvasSize, GameStage};
use uuid::Uuid;

#[test]
fn games_reserve_id() {
    let mut games = Games::new();
    assert!(games.reserve_id().len() > 0);
    assert_eq!(1, games.pending_ids.len(), "pending_ids.len()");
}

#[test]
fn games_lifecycle() {
    let mut games = Games::new();
    let game_id = "test".to_string();
    let player_id = Uuid::new_v4().as_u128();
    let player_id_2 = Uuid::new_v4().as_u128();
    let word = "Apple".to_string();
    let canvas = CanvasSize { width: 100, height: 100 };

    {
        // Create a game
        let (game, player) = games.add_player(&game_id, player_id, None);
        assert_eq!(player_id, player.id, "player id");
        assert_eq!(1, game.players.len(), "players in the game");
        match &game.stage {
            GameStage::PlayerChoosing { player_id: p_id } => {
                assert_eq!(player_id, *p_id, "player id in stage");
            }
            _ => {
                panic!("Expected PlayerChoosing game stage");
            }
        };
    }

    {
        // Add another player
        let (game, _) = games.add_player(&game_id, player_id_2, None);
        assert_eq!(2, game.players.len(), "players in the game");
    }

    {
        // Submit word as wrong player
        let game = games.find_mut(&game_id);
        assert!(game.is_some());
        let res = game.unwrap().submit_word(player_id_2, word.clone(), canvas);
        assert_eq!(false, res);
    }

    {
        // Submit word
        let game = games.find_mut(&game_id);
        assert!(game.is_some());
        let game = game.unwrap();
        let res = game.submit_word(player_id, word.clone(), canvas);
        assert!(res);
        match &game.stage {
            GameStage::PlayerDrawing { player_id: p_id, .. } => {
                assert_eq!(player_id, *p_id, "player id in stage");
            }
            _ => {
                panic!("Expected PlayerDrawing game stage");
            }
        };
    }

    {
        // Guess word incorrectly
        let game = games.find_mut(&game_id);
        assert!(game.is_some());
        let res = game.unwrap().guess_word(player_id_2, "wrong");
        assert_eq!(false, res);
    }

    {
        // Guess word
        let game = games.find_mut(&game_id);
        assert!(game.is_some());
        let game = game.unwrap();
        let res = game.guess_word(player_id_2, &word);
        assert!(res);
        match &game.stage {
            GameStage::PlayerChoosing { player_id: p_id, .. } => {
                assert_eq!(player_id_2, *p_id, "player id in stage");
            }
            _ => {
                panic!("Expected PlayerChoosing game stage");
            }
        };
    }

    {
        // Remove player from the game
        let modified_games = games.remove_player(player_id_2);
        assert_eq!(1, modified_games.len(), "modified games len");
        let game = &modified_games[0];
        assert_eq!(1, game.players.len(), "modified game players");
        assert_eq!(player_id, game.players[0].id, "remaining player");
        match &game.stage {
            GameStage::PlayerChoosing { player_id: p_id, .. } => {
                assert_eq!(player_id, *p_id, "player id in stage");
            }
            _ => {
                panic!("Expected PlayerChoosing game stage");
            }
        };
    }

    {
        // Remove last player
        let modified_games = games.remove_player(player_id);
        assert_eq!(0, modified_games.len(), "modified games len");
        assert_eq!(0, games.rooms.len(), "no more games");
    }
}

#[test]
fn reserved_ids_never_collide() {
    let mut games = Games::new();
    let mut seen: Vec<String> = Vec::new();
    for _ in 0..100 {
        let id = games.reserve_id();
        assert!(id.len() >= 6, "reserved id is at least six characters");
        assert!(!seen.contains(&id), "a reserved id repeated");
        assert!(games.id_exists(&id), "a reserved id is pending");
        seen.push(id);
    }
    assert_eq!(100, games.pending_ids.len());
}

#[test]
fn id_exists_covers_pending_and_live() {
    let mut games = Games::new();
    let id = games.reserve_id();
    assert!(games.id_exists(&id));
    assert!(!games.id_exists("no-such-room"));

    // First join turns the pending id into a live room; the id still exists.
    let founder = Uuid::new_v4().as_u128();
    games.add_player(&id, founder, None);
    assert!(games.id_exists(&id));
    assert!(games.find(&id).is_some());

    // Destroying the room frees the id.
    games.remove_player(founder);
    assert!(!games.id_exists(&id));
    assert!(games.find(&id).is_none());
}

#[test]
fn rejoin_is_a_no_op() {
    let mut games = Games::new();
    let a = 1u128;
    let b = 2u128;
    games.add_player("room", a, Some("ann".to_string()));
    games.add_player("room", b, Some("bob".to_string()));
    let (game, _) = games.add_player("room", a, Some("ann-again".to_string()));
    assert_eq!(2, game.players.len(), "re-joining must not grow the roster");
    assert_eq!(a, game.players[0].id);
    assert_eq!(b, game.players[1].id);
    assert_eq!("ann", game.players[0].nickname, "the first nickname is kept");
}

#[test]
fn join_order_is_kept() {
    let mut games = Games::new();
    for pid in 1u128..=5u128 {
        games.add_player("room", pid, None);
    }
    let game = games.find("room").unwrap();
    assert_eq!(5, game.players.len());
    for (i, p) in game.players.iter().enumerate() {
        assert_eq!((i + 1) as u128, p.id, "roster keeps join order");
        assert_eq!(3, p.nickname.len(), "server-assigned nicknames have three characters");
    }
}

#[test]
fn removing_the_artist_reanchors_on_first_remaining() {
    let mut games = Games::new();
    let a = 10u128;
    let b = 20u128;
    let c = 30u128;
    games.add_player("r", a, None);
    games.add_player("r", b, None);
    games.add_player("r", c, None);
    let canvas = CanvasSize { width: 10, height: 10 };
    assert!(games.find_mut("r").unwrap().submit_word(a, "pear".to_string(), canvas));

    // The artist leaves mid-drawing: back to choosing, anchored on b.
    let modified = games.remove_player(a);
    assert_eq!(1, modified.len());
    match &modified[0].stage {
        GameStage::PlayerChoosing { player_id } => assert_eq!(b, *player_id),
        _ => panic!("Expected PlayerChoosing after the artist left"),
    }
    let game = games.find("r").unwrap();
    assert_eq!(2, game.players.len());
    assert_eq!(b, game.players[0].id);
}

#[test]
fn removing_a_guesser_keeps_the_drawing() {
    let mut games = Games::new();
    let a = 1u128;
    let b = 2u128;
    games.add_player("r", a, None);
    games.add_player("r", b, None);
    let canvas = CanvasSize { width: 10, height: 10 };
    assert!(games.find_mut("r").unwrap().submit_word(a, "pear".to_string(), canvas));

    // A mere guesser leaves: the drawing stage survives.
    let modified = games.remove_player(b);
    assert_eq!(1, modified.len());
    match &modified[0].stage {
        GameStage::PlayerDrawing { player_id, .. } => assert_eq!(a, *player_id),
        _ => panic!("Expected PlayerDrawing to survive a guesser leaving"),
    }
}

#[test]
fn remove_player_spans_every_room() {
    let mut games = Games::new();
    let a = 1u128;
    let b = 2u128;
    games.add_player("one", a, None);
    games.add_player("one", b, None);
    games.add_player("two", a, None);
    games.add_player("three", b, None);

    // `a` leaves everything: "one" survives modified, "two" is destroyed.
    let modified = games.remove_player(a);
    assert_eq!(1, modified.len());
    assert_eq!("one", modified[0].id);
    assert_eq!(2, games.rooms.len());
    assert!(games.find("two").is_none());
    assert!(games.find("one").is_some());
    assert!(games.find("three").is_some());
}
