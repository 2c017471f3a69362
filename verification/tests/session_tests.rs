//! Tests of one room's state machine: word submission, guessing, the
//! drawing log, word tips and snapshots.

use krokodil::registry::Games;
use krokodil::session::{CanvasSize, DrawingSegment, GameStage, Point};

fn seg(id: &str) -> DrawingSegment {
    DrawingSegment {
        id: id.to_string(),
        stroke: "#102030".to_string(),
        line_width: 3,
        points: vec![Point { x: 1, y: 2 }, Point { x: 3, y: 4 }],
    }
}

fn drawing_room(games: &mut Games, word: &str) -> (u128, u128) {
    let a = 1u128;
    let b = 2u128;
    games.add_player("room", a, None);
    games.add_player("room", b, None);
    let canvas = CanvasSize { width: 800, height: 600 };
    assert!(games.find_mut("room").unwrap().submit_word(a, word.to_string(), canvas));
    (a, b)
}

#[test]
fn submit_word_succeeds_only_for_the_chooser() {
    let mut games = Games::new();
    let a = 1u128;
    let b = 2u128;
    games.add_player("room", a, None);
    games.add_player("room", b, None);
    let canvas = CanvasSize { width: 800, height: 600 };
    let game = games.find_mut("room").unwrap();

    assert!(!game.submit_word(b, "pear".to_string(), canvas), "only the chooser may submit");
    assert!(matches!(game.stage, GameStage::PlayerChoosing { .. }), "a failed submit changes nothing");

    assert!(game.submit_word(a, "  Pear  ".to_string(), canvas));
    match &game.stage {
        GameStage::PlayerDrawing { player_id, word, drawing } => {
            assert_eq!(a, *player_id, "the chooser becomes the artist");
            assert_eq!("Pear", word, "the word is stored trimmed");
            assert_eq!(800, drawing.canvas.width);
            assert_eq!(600, drawing.canvas.height);
            assert_eq!(0, drawing.segments.len(), "a fresh drawing has no strokes");
        }
        _ => panic!("Expected PlayerDrawing after a successful submit"),
    }

    // Submitting again while drawing fails.
    assert!(!game.submit_word(a, "again".to_string(), canvas));
}

#[test]
fn guess_word_is_case_insensitive() {
    let mut games = Games::new();
    let (_a, b) = drawing_room(&mut games, "Apple");
    let game = games.find_mut("room").unwrap();

    assert!(!game.guess_word(b, "banana"), "a wrong guess fails");
    assert!(matches!(game.stage, GameStage::PlayerDrawing { .. }), "a wrong guess changes nothing");

    assert!(game.guess_word(b, "aPPLE"), "guessing ignores case both ways");
    match &game.stage {
        GameStage::PlayerChoosing { player_id } => {
            assert_eq!(b, *player_id, "the guesser becomes the next chooser");
        }
        _ => panic!("Expected PlayerChoosing after a correct guess"),
    }

    // Guessing outside the drawing stage fails.
    assert!(!game.guess_word(b, "apple"));
}

#[test]
fn guess_word_sees_the_trimmed_word() {
    let mut games = Games::new();
    let (_a, b) = drawing_room(&mut games, "  apple  ");
    let game = games.find_mut("room").unwrap();
    // Were the word stored untrimmed, this guess could not match.
    assert!(game.guess_word(b, "apple"));
}

#[test]
fn segments_mutate_only_while_drawing() {
    let mut games = Games::new();
    let a = 1u128;
    games.add_player("room", a, None);
    let game = games.find_mut("room").unwrap();

    // Stale drawing input while choosing is dropped.
    game.add_segment(seg("s1"));
    assert_eq!(0, game.iter_drawing().len());

    let canvas = CanvasSize { width: 10, height: 10 };
    assert!(game.submit_word(a, "pear".to_string(), canvas));
    game.add_segment(seg("s1"));
    game.add_segment(seg("s2"));
    game.add_segment(seg("s3"));
    let strokes = game.iter_drawing();
    assert_eq!(3, strokes.len());
    assert_eq!("s1", strokes[0].id);
    assert_eq!("s2", strokes[1].id);
    assert_eq!("s3", strokes[2].id);

    game.remove_segment("s2");
    let strokes = game.iter_drawing();
    assert_eq!(2, strokes.len());
    assert_eq!("s1", strokes[0].id);
    assert_eq!("s3", strokes[1].id);

    game.remove_segment("nowhere");
    assert_eq!(2, game.iter_drawing().len());
}

#[test]
fn snapshots_drop_the_strokes() {
    let mut games = Games::new();
    let a = 1u128;
    games.add_player("room", a, None);
    let game = games.find_mut("room").unwrap();
    let canvas = CanvasSize { width: 10, height: 10 };
    assert!(game.submit_word(a, "pear".to_string(), canvas));
    game.add_segment(seg("s1"));

    let snap = game.clone();
    match &snap.stage {
        GameStage::PlayerDrawing { drawing, .. } => {
            assert_eq!(0, drawing.segments.len(), "a snapshot carries no strokes");
            assert_eq!(10, drawing.canvas.width, "a snapshot keeps the canvas");
        }
        _ => panic!("Expected PlayerDrawing in the snapshot"),
    }
    assert_eq!(1, snap.players.len(), "a snapshot keeps the roster");
    assert_eq!(1, game.iter_drawing().len(), "the live room keeps its strokes");
}

#[test]
fn word_tip_masks_all_but_the_first_character() {
    let mut games = Games::new();
    let a = 1u128;
    games.add_player("room", a, None);
    let canvas = CanvasSize { width: 10, height: 10 };

    assert!(games.find("room").unwrap().ask_word_tip().is_none(), "no tip while choosing");

    assert!(games.find_mut("room").unwrap().submit_word(a, "apple".to_string(), canvas));
    let tip = games.find("room").unwrap().ask_word_tip();
    assert_eq!(Some("a****".to_string()), tip);
}

#[test]
fn word_tip_hides_a_one_letter_word() {
    let mut games = Games::new();
    let a = 1u128;
    games.add_player("room", a, None);
    let canvas = CanvasSize { width: 10, height: 10 };
    assert!(games.find_mut("room").unwrap().submit_word(a, "x".to_string(), canvas));
    assert_eq!(Some("*".to_string()), games.find("room").unwrap().ask_word_tip());
}

#[test]
fn scenario_two_player_round() {
    // Room created; A joins: Choosing{A}.  B joins: roster [A, B], stage
    // unchanged.  A submits "Apple" on 800x600: Drawing by A, empty log.
    // B guesses "apple": true, Choosing{B}.  B guesses "banana": false,
    // still Choosing{B}.
    let mut games = Games::new();
    let room = games.reserve_id();
    let a = 100u128;
    let b = 200u128;

    let (game, _) = games.add_player(&room, a, None);
    match &game.stage {
        GameStage::PlayerChoosing { player_id } => assert_eq!(a, *player_id),
        _ => panic!("Expected PlayerChoosing for the founder"),
    }

    let (game, _) = games.add_player(&room, b, None);
    assert_eq!(2, game.players.len());
    assert_eq!(a, game.players[0].id);
    assert_eq!(b, game.players[1].id);
    match &game.stage {
        GameStage::PlayerChoosing { player_id } => assert_eq!(a, *player_id),
        _ => panic!("Expected the stage unchanged by a join"),
    }

    let canvas = CanvasSize { width: 800, height: 600 };
    assert!(games.find_mut(&room).unwrap().submit_word(a, "Apple".to_string(), canvas));
    match &games.find(&room).unwrap().stage {
        GameStage::PlayerDrawing { player_id, word, drawing } => {
            assert_eq!(a, *player_id);
            assert!(word.eq_ignore_ascii_case("apple"), "the secret word, up to case");
            assert_eq!(800, drawing.canvas.width);
            assert_eq!(600, drawing.canvas.height);
            assert_eq!(0, drawing.segments.len());
        }
        _ => panic!("Expected PlayerDrawing after the submit"),
    }

    assert!(games.find_mut(&room).unwrap().guess_word(b, "apple"));
    match &games.find(&room).unwrap().stage {
        GameStage::PlayerChoosing { player_id } => assert_eq!(b, *player_id),
        _ => panic!("Expected PlayerChoosing after the correct guess"),
    }

    assert!(!games.find_mut(&room).unwrap().guess_word(b, "banana"));
    match &games.find(&room).unwrap().stage {
        GameStage::PlayerChoosing { player_id } => assert_eq!(b, *player_id),
        _ => panic!("Expected the stage unchanged by a wrong guess"),
    }
}
