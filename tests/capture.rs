use betago::{Board, Position, Stone};

fn pos(x: usize, y: usize) -> Position {
    Position { x, y }
}

fn capture_scenario(
    black_stones: Vec<Position>,
    white_stones: Vec<Position>,
    stone_to_capture: Position,
) {
    let mut board = Board::new(9);

    for &pos in &black_stones {
        board.place_stone(pos, Stone::Black).unwrap();
    }

    for &pos in &white_stones[..white_stones.len() - 1] {
        board.place_stone(pos, Stone::White).unwrap();
    }

    assert_eq!(
        board.get_stone(stone_to_capture).unwrap(),
        Some(Stone::Black),
        "Stone should exists before capture"
    );

    let last_white_pos = *white_stones.last().unwrap();
    let captured = board.place_stone(last_white_pos, Stone::White).unwrap();
    assert_eq!(captured, black_stones.len());

    assert_eq!(
        board.get_stone(stone_to_capture).unwrap(),
        None,
        "Stone should be captured"
    );

    for pos in black_stones {
        assert_eq!(
            board.get_stone(pos).unwrap(),
            None,
            "All stones in group should be captured"
        );
    }
    for pos in white_stones {
        assert_eq!(board.get_stone(pos).unwrap(), Some(Stone::White));
    }
}

#[test]
fn capture_single_center() {
    capture_scenario(
        vec![pos(4, 4)],
        vec![pos(3, 4), pos(5, 4), pos(4, 3), pos(4, 5)],
        pos(4, 4),
    );
}

#[test]
fn capture_single_edge() {
    capture_scenario(
        vec![pos(0, 4)],
        vec![pos(0, 3), pos(0, 5), pos(1, 4)],
        pos(0, 4),
    );
}

#[test]
fn capture_horizontal_group() {
    capture_scenario(
        vec![pos(3, 3), pos(4, 3)],
        vec![pos(2, 3), pos(5, 3), pos(3, 2), pos(4, 2), pos(3, 4), pos(4, 4)],
        pos(3, 3),
    );
}

#[test]
fn capture_leaves_other_stones() {
    let mut board = Board::new(9);
    board.place_stone(pos(4, 4), Stone::Black).unwrap();
    board.place_stone(pos(7, 7), Stone::Black).unwrap();
    board.place_stone(pos(0, 0), Stone::White).unwrap();
    for p in [pos(3, 4), pos(5, 4), pos(4, 3)] {
        board.place_stone(p, Stone::White).unwrap();
    }
    assert_eq!(board.place_stone(pos(4, 5), Stone::White), Ok(1));
    assert_eq!(board.get_stone(pos(7, 7)).unwrap(), Some(Stone::Black));
    assert_eq!(board.get_stone(pos(0, 0)).unwrap(), Some(Stone::White));
    assert_eq!(board.get_stone(pos(4, 5)).unwrap(), Some(Stone::White));
}
