use betago::{GoError, Position};

#[test]
fn create_out_of_bounds_error() {
    let pos = Position { x: 0, y: 0 };
    let error = GoError::out_of_bounds(pos);
    assert!(matches!(error, GoError::OutOfBounds { .. }));
}

#[test]
fn create_position_occupied_error() {
    let pos = Position { x: 0, y: 0 };

    let error = GoError::position_occupied(pos);
    assert!(matches!(error, GoError::PositionOccupied { .. }));
}

#[test]
fn create_suicidal_move_error() {
    let error = GoError::suicidal_move();
    assert!(matches!(error, GoError::SuicidalMove));
}

#[test]
fn create_ko_rule_violation_error() {
    let error = GoError::ko_rule_violation();
    assert!(matches!(error, GoError::KoRuleViolation));
}

#[test]
fn create_game_over_error() {
    let error = GoError::game_over();
    assert!(matches!(error, GoError::GameOver));
}
