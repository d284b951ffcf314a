use betago::{Board, GoError, Position, Stone};

fn pos(x: usize, y: usize) -> Position {
    Position { x, y }
}

#[test]
fn create_new_board() {
    const BOARD_SIZE: usize = 19;
    let board = Board::new(BOARD_SIZE);
    assert_eq!(board.size(), BOARD_SIZE, "Board should has size of 19");

    for x in 0..BOARD_SIZE {
        for y in 0..BOARD_SIZE {
            let pos = Position { x, y };
            assert!(
                board.get_stone(pos).unwrap().is_none(),
                "New board should be empty"
            );
        }
    }
}

fn place_stone_valid(x: usize, y: usize, stone: Stone) {
    let mut board = Board::new(19);
    let pos = Position { x, y };
    assert!(board.place_stone(pos, stone).is_ok(), "Stone should be placed");
    assert_eq!(
        board.get_stone(pos).unwrap(),
        Some(stone),
        "Stone should appear on the board"
    );
}

#[test]
fn place_stone_valid_corner() {
    place_stone_valid(0, 0, Stone::Black);
}

#[test]
fn place_stone_valid_white() {
    place_stone_valid(4, 5, Stone::White);
}

#[test]
fn place_stone_valid_inner() {
    place_stone_valid(3, 3, Stone::Black);
}

#[test]
fn place_stone_already_occupied() {
    let mut board = Board::new(19);
    let pos = Position { x: 0, y: 0 };
    board.place_stone(pos, Stone::Black).unwrap();

    let test_result = board.place_stone(pos, Stone::White);
    assert!(
        matches!(test_result, Err(GoError::PositionOccupied { .. })),
        "Shoudn't be able to place stone on occupied position"
    );
}

fn place_stone_out_of_bounds(x: usize, y: usize) {
    let mut board = Board::new(19);
    let pos = Position { x, y };
    assert!(
        matches!(
            board.place_stone(pos, Stone::Black),
            Err(GoError::OutOfBounds { .. })
        ),
        "Shoudn't be able to place stone of of board bounds"
    );
}

#[test]
fn place_stone_out_of_bounds_y() {
    place_stone_out_of_bounds(0, 19);
}

#[test]
fn place_stone_out_of_bounds_x() {
    place_stone_out_of_bounds(19, 0);
}

#[test]
fn place_stone_out_of_bounds_both() {
    place_stone_out_of_bounds(19, 19);
}

#[test]
fn get_stone_empty_cell() {
    let board = Board::new(19);
    assert_eq!(board.get_stone(pos(0, 0)).unwrap(), None);
}

#[test]
fn get_stone_placed_cell() {
    let mut board = Board::new(19);
    board.place_stone(pos(1, 1), Stone::Black).unwrap();
    assert_eq!(board.get_stone(pos(1, 1)).unwrap(), Some(Stone::Black));
}

#[test]
fn get_stone_out_of_bounds() {
    let board = Board::new(19);
    let pos = Position { x: 19, y: 19 };
    assert!(
        board.get_stone(pos).is_err(),
        "Shouldn't be able to get stone from out of bounds of the board"
    );
}

#[test]
fn get_stone_out_of_bounds_carries_position() {
    let board = Board::new(3);
    assert_eq!(
        board.get_stone(pos(3, 1)),
        Err(GoError::OutOfBounds { pos: pos(3, 1) })
    );
}

#[test]
fn create_minimal_size_board() {
    let board = Board::new(1);
    assert!(
        board.get_stone(Position { x: 0, y: 0 }).is_ok(),
        "One-sized board should have [0,0] position"
    );
    assert!(
        board.get_stone(Position { x: 0, y: 1 }).is_err(),
        "One-sized board should have ONLY one posision"
    );
    assert!(
        board.get_stone(Position { x: 1, y: 0 }).is_err(),
        "One-sized board should have ONLY one posision"
    );
}

#[test]
fn single_cell_board_is_suicide() {
    let mut board = Board::new(1);
    assert_eq!(
        board.place_stone(pos(0, 0), Stone::Black),
        Err(GoError::SuicidalMove)
    );
    assert_eq!(board.get_stone(pos(0, 0)).unwrap(), None);
}

#[test]
fn pos_to_index_is_row_major() {
    let board = Board::new(9);
    assert_eq!(board.pos_to_index(pos(0, 0)), 0);
    assert_eq!(board.pos_to_index(pos(3, 2)), 21);
    assert_eq!(board.pos_to_index(pos(8, 8)), 80);
}

#[test]
fn neighbors_in_fixed_order() {
    let board = Board::new(9);
    assert_eq!(
        board.get_neighbors(pos(4, 4)),
        vec![pos(3, 4), pos(5, 4), pos(4, 3), pos(4, 5)]
    );
    assert_eq!(board.get_neighbors(pos(0, 0)), vec![pos(1, 0), pos(0, 1)]);
    assert_eq!(board.get_neighbors(pos(8, 8)), vec![pos(7, 8), pos(8, 7)]);
    assert_eq!(board.get_neighbors(pos(9, 0)), vec![pos(8, 0)]);
    assert_eq!(board.get_neighbors(pos(100, 100)), Vec::<Position>::new());
}

#[test]
fn group_of_connected_stones() {
    let mut board = Board::new(9);
    for p in [pos(2, 2), pos(3, 2), pos(3, 3), pos(5, 5)] {
        board.place_stone(p, Stone::Black).unwrap();
    }
    board.place_stone(pos(2, 3), Stone::White).unwrap();
    let group = board.get_group(pos(2, 2));
    assert_eq!(group.len(), 3);
    for p in [pos(2, 2), pos(3, 2), pos(3, 3)] {
        assert!(group.contains(&p));
    }
    assert!(!group.contains(&pos(5, 5)));
    assert_eq!(board.get_group(pos(2, 3)), vec![pos(2, 3)]);
    assert!(board.get_group(pos(0, 0)).is_empty());
    assert!(board.get_group(pos(20, 0)).is_empty());
}

#[test]
fn liberties_are_counted_once() {
    let mut board = Board::new(9);
    board.place_stone(pos(4, 4), Stone::Black).unwrap();
    assert_eq!(board.count_liberties(&board.get_group(pos(4, 4))), 4);
    board.place_stone(pos(5, 4), Stone::Black).unwrap();
    assert_eq!(board.count_liberties(&board.get_group(pos(4, 4))), 6);
    board.place_stone(pos(4, 3), Stone::White).unwrap();
    assert_eq!(board.count_liberties(&board.get_group(pos(4, 4))), 5);
    board.place_stone(pos(0, 0), Stone::Black).unwrap();
    assert_eq!(board.count_liberties(&board.get_group(pos(0, 0))), 2);
    let both = vec![pos(4, 4), pos(4, 4)];
    assert_eq!(board.count_liberties(&both), 2);
    assert_eq!(board.count_liberties(&[]), 0);
}

#[test]
fn suicide_is_refused_and_board_unchanged() {
    let mut board = Board::new(5);
    for p in [pos(1, 0), pos(0, 1)] {
        board.place_stone(p, Stone::White).unwrap();
    }
    assert!(!board.is_valid_move(pos(0, 0), Stone::Black));
    assert_eq!(
        board.place_stone(pos(0, 0), Stone::Black),
        Err(GoError::SuicidalMove)
    );
    assert_eq!(board.get_stone(pos(0, 0)).unwrap(), None);
    assert!(board.is_valid_move(pos(0, 0), Stone::White));
}

#[test]
fn capture_waives_suicide() {
    let mut board = Board::new(5);
    // White at the corner, Black closing in; Black's last stone has no
    // liberty of its own but takes the corner stone.
    board.place_stone(pos(0, 0), Stone::White).unwrap();
    board.place_stone(pos(2, 0), Stone::White).unwrap();
    board.place_stone(pos(1, 1), Stone::White).unwrap();
    board.place_stone(pos(0, 1), Stone::Black).unwrap();
    assert_eq!(board.place_stone(pos(1, 0), Stone::Black), Ok(1));
    assert_eq!(board.get_stone(pos(0, 0)).unwrap(), None);
    assert_eq!(board.get_stone(pos(1, 0)).unwrap(), Some(Stone::Black));
}

#[test]
fn one_move_captures_two_groups() {
    let mut board = Board::new(5);
    board.place_stone(pos(0, 0), Stone::White).unwrap();
    board.place_stone(pos(2, 0), Stone::White).unwrap();
    board.place_stone(pos(0, 1), Stone::Black).unwrap();
    board.place_stone(pos(2, 1), Stone::Black).unwrap();
    board.place_stone(pos(3, 0), Stone::Black).unwrap();
    assert_eq!(board.place_stone(pos(1, 0), Stone::Black), Ok(2));
    assert_eq!(board.get_stone(pos(0, 0)).unwrap(), None);
    assert_eq!(board.get_stone(pos(2, 0)).unwrap(), None);
    assert_eq!(board.get_stone(pos(0, 1)).unwrap(), Some(Stone::Black));
}

#[test]
fn is_valid_move_leaves_board_alone() {
    let mut board = Board::new(9);
    board.place_stone(pos(4, 4), Stone::Black).unwrap();
    assert!(board.is_valid_move(pos(3, 3), Stone::White));
    assert!(!board.is_valid_move(pos(4, 4), Stone::White));
    assert!(!board.is_valid_move(pos(9, 4), Stone::White));
    assert_eq!(board.get_stone(pos(3, 3)).unwrap(), None);
}

#[test]
fn clone_is_independent() {
    let mut board = Board::new(5);
    board.place_stone(pos(2, 2), Stone::Black).unwrap();
    let mut copy = board.clone();
    copy.place_stone(pos(1, 1), Stone::White).unwrap();
    assert_eq!(copy.get_stone(pos(2, 2)).unwrap(), Some(Stone::Black));
    assert_eq!(board.get_stone(pos(1, 1)).unwrap(), None);
}

#[test]
fn opposite_colours() {
    assert_eq!(Stone::Black.opposite(), Stone::White);
    assert_eq!(Stone::White.opposite(), Stone::Black);
}

#[test]
fn group_listing_order_is_breadth_first_from_seed() {
    let mut board = Board::new(9);
    for p in [pos(2, 2), pos(3, 2), pos(3, 3)] {
        board.place_stone(p, Stone::Black).unwrap();
    }
    board.place_stone(pos(2, 3), Stone::White).unwrap();
    assert_eq!(
        board.get_group(pos(2, 2)),
        vec![pos(2, 2), pos(3, 2), pos(3, 3)]
    );
    assert_eq!(
        board.get_group(pos(3, 3)),
        vec![pos(3, 3), pos(3, 2), pos(2, 2)]
    );
    assert_eq!(board.get_group(pos(3, 2)), board.get_group(pos(3, 2)));
    assert_eq!(board.get_group(pos(3, 2))[0], pos(3, 2));
}
