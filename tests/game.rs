use betago::{Game, GoError, Position, Stone};

fn pos(x: usize, y: usize) -> Position {
    Position { x, y }
}

#[test]
fn new_game_state() {
    let game = Game::new(9);
    assert_eq!(game.board_size(), 9);
    assert_eq!(game.current_player(), Stone::Black);
    assert_eq!(game.captured_stones(), (0, 0));
    assert_eq!(game.current_move(), 1);
    assert_eq!(game.is_game_over(), None);
    assert_eq!(game.winner(), None);
    assert_eq!(game.board_state().size(), 9);
}

#[test]
fn moves_alternate_and_count() {
    let mut game = Game::new(9);
    game.make_move(pos(2, 2)).unwrap();
    assert_eq!(game.current_player(), Stone::White);
    assert_eq!(game.stone_at(pos(2, 2)).unwrap(), Some(Stone::Black));
    game.make_move(pos(3, 3)).unwrap();
    assert_eq!(game.current_player(), Stone::Black);
    assert_eq!(game.current_move(), 3);
    assert_eq!(game.stone_at(pos(3, 3)).unwrap(), Some(Stone::White));
    assert_eq!(
        game.stone_at(pos(9, 0)),
        Err(GoError::OutOfBounds { pos: pos(9, 0) })
    );
}

#[test]
fn refused_move_changes_nothing() {
    let mut game = Game::new(9);
    game.make_move(pos(2, 2)).unwrap();
    assert_eq!(
        game.make_move(pos(2, 2)),
        Err(GoError::PositionOccupied { pos: pos(2, 2) })
    );
    assert_eq!(game.current_player(), Stone::White);
    assert_eq!(game.current_move(), 2);
}

#[test]
fn two_passes_end_game_tie_to_white() {
    let mut game = Game::new(9);
    game.pass();
    assert_eq!(game.is_game_over(), None);
    game.pass();
    assert_eq!(game.is_game_over(), Some(Stone::White));
    assert_eq!(game.make_move(pos(0, 0)), Err(GoError::GameOver));
    game.pass();
    assert_eq!(game.is_game_over(), Some(Stone::White));
}

#[test]
fn failed_move_between_passes_does_not_break_streak() {
    let mut game = Game::new(9);
    game.pass();
    assert!(game.make_move(pos(20, 20)).is_err());
    game.pass();
    assert_eq!(game.winner(), Some(Stone::White));
}

#[test]
fn captures_decide_winner() {
    let mut game = Game::new(5);
    // Black surrounds a White stone at (1, 0) on the edge.
    game.make_move(pos(0, 0)).unwrap(); // Black
    game.make_move(pos(1, 0)).unwrap(); // White
    game.make_move(pos(2, 0)).unwrap(); // Black
    game.make_move(pos(4, 4)).unwrap(); // White
    game.make_move(pos(1, 1)).unwrap(); // Black captures
    assert_eq!(game.captured_stones(), (1, 0));
    assert_eq!(game.stone_at(pos(1, 0)).unwrap(), None);
    game.pass();
    game.pass();
    assert_eq!(game.is_game_over(), Some(Stone::Black));
}

#[test]
fn black_move_does_not_restart_pass_streak() {
    let mut game = Game::new(9);
    game.pass(); // Black passes
    game.make_move(pos(0, 0)).unwrap(); // White moves: streak restarts
    game.pass(); // Black passes
    game.make_move(pos(1, 1)).unwrap(); // White moves: streak restarts
    assert_eq!(game.is_game_over(), None);

    let mut game = Game::new(9);
    game.make_move(pos(0, 0)).unwrap(); // Black
    game.pass(); // White passes
    game.make_move(pos(1, 1)).unwrap(); // Black moves: streak kept
    game.pass(); // White passes
    assert_eq!(game.is_game_over(), Some(Stone::White));
}

#[test]
fn reset_starts_over() {
    let mut game = Game::new(7);
    game.make_move(pos(3, 3)).unwrap();
    game.pass();
    game.reset();
    assert_eq!(game.board_size(), 7);
    assert_eq!(game.current_player(), Stone::Black);
    assert_eq!(game.current_move(), 1);
    assert_eq!(game.captured_stones(), (0, 0));
    assert_eq!(game.stone_at(pos(3, 3)).unwrap(), None);
    game.pass();
    assert_eq!(game.is_game_over(), None);
}
