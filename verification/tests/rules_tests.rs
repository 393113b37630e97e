use leapboard::RulesError;
use leapboard::board::{Board, BoardValue};
use leapboard::location::Location;
use leapboard::position::{Player, Position};

fn snapshot(position: &Position) -> Vec<BoardValue> {
    let mut cells = Vec::new();
    for x in 0..13isize {
        for y in 0..13isize {
            cells.push(position.board.get_at(&Location::new(x, y)).unwrap());
        }
    }
    cells
}

#[test]
fn fresh_position_has_black_to_move_and_perimeter_legal() {
    let position = Position::default();
    assert_eq!(position.turn, Player::Black);
    assert_eq!(position.board.size_x, 13);
    assert_eq!(position.board.size_y, 13);

    // every border cell, for both sides; 13 * 4 - 4 cells in all
    assert_eq!(position.legal_white_moves.len(), 48);
    assert_eq!(position.legal_black_moves.len(), 48);
    for i in 0..13isize {
        assert!(position.legal_black_moves.contains(&Location::new(i, 0)));
        assert!(position.legal_black_moves.contains(&Location::new(i, 12)));
        assert!(position.legal_white_moves.contains(&Location::new(0, i)));
        assert!(position.legal_white_moves.contains(&Location::new(12, i)));
    }
    assert!(!position.legal_black_moves.contains(&Location::new(6, 6)));
    assert!(!position.legal_white_moves.contains(&Location::new(5, 5)));

    // the grid starts fully empty
    for cell in snapshot(&position) {
        assert_eq!(cell, BoardValue::Empty);
    }
}

#[test]
fn illegal_move_fails_and_changes_nothing() {
    let mut position = Position::default();
    position.make_move(Location::new(0, 0)).unwrap();

    let before = snapshot(&position);
    let white_before = position.legal_white_moves.clone();
    let black_before = position.legal_black_moves.clone();

    // interior cell not reachable from anything: not legal for White
    assert_eq!(
        position.make_move(Location::new(5, 5)),
        Err(RulesError::IllegalMove)
    );
    // replaying an occupied cell fails too
    assert_eq!(
        position.make_move(Location::new(0, 0)),
        Err(RulesError::IllegalMove)
    );

    assert_eq!(snapshot(&position), before);
    assert_eq!(position.legal_white_moves, white_before);
    assert_eq!(position.legal_black_moves, black_before);
    assert_eq!(position.turn, Player::White);
}

#[test]
fn successful_move_occupies_and_leaves_both_legal_sets() {
    let mut position = Position::default();
    position.make_move(Location::new(3, 0)).unwrap();

    assert_eq!(
        position.board.get_at(&Location::new(3, 0)).unwrap(),
        BoardValue::Filled(Player::Black)
    );
    assert!(!position.legal_black_moves.contains(&Location::new(3, 0)));
    assert!(!position.legal_white_moves.contains(&Location::new(3, 0)));
    assert_eq!(position.turn, Player::White);
}

#[test]
fn legal_sets_never_hold_occupied_cells() {
    let mut position = Position::default();
    let moves = [
        (0, 0),
        (1, 0),
        (2, 1),
        (0, 1),
        (12, 12),
        (12, 0),
        (10, 11),
        (0, 12),
    ];
    for (x, y) in moves {
        position.make_move(Location::new(x, y)).unwrap();
        for l in position
            .legal_white_moves
            .iter()
            .chain(position.legal_black_moves.iter())
        {
            assert_eq!(position.board.get_at(l).unwrap(), BoardValue::Empty);
        }
    }
}

#[test]
fn placement_opens_leap_neighbors_for_the_mover() {
    let mut position = Position::default();
    position.make_move(Location::new(0, 0)).unwrap();
    // the two in-bounds leap neighbors of the corner become legal for Black
    assert!(position.legal_black_moves.contains(&Location::new(2, 1)));
    assert!(position.legal_black_moves.contains(&Location::new(1, 2)));
    // but not for White
    assert!(!position.legal_white_moves.contains(&Location::new(2, 1)));
    assert!(!position.legal_white_moves.contains(&Location::new(1, 2)));
}

#[test]
fn connection_cloud_of_interior_pair() {
    let mut position = Position::default();
    position
        .board
        .insert_piece(&Player::White, &Location::new(5, 5))
        .unwrap();
    position
        .board
        .insert_piece(&Player::Black, &Location::new(6, 5))
        .unwrap();

    let cloud = position.get_connection_cloud(&Location::new(5, 5)).unwrap();
    assert_eq!(cloud.len(), 4);
    assert!(cloud.contains(&Location::new(4, 4)));
    assert!(cloud.contains(&Location::new(5, 3)));
    assert!(cloud.contains(&Location::new(4, 6)));
    assert!(cloud.contains(&Location::new(5, 7)));
}

#[test]
fn connection_to_edge_reports_whole_disconnected_group() {
    let mut position = Position::default();
    // a lone interior piece reaches nothing, so its group of one is cut off
    position
        .board
        .insert_piece(&Player::Black, &Location::new(2, 1))
        .unwrap();
    let removed = position
        .connection_to_edge(&Location::new(2, 1))
        .unwrap()
        .expect("a lone interior piece is disconnected");
    assert_eq!(removed, vec![Location::new(2, 1)]);
}

#[test]
fn connection_to_edge_spares_groups_on_the_border() {
    let mut position = Position::default();
    position
        .board
        .insert_piece(&Player::Black, &Location::new(0, 5))
        .unwrap();
    assert_eq!(position.connection_to_edge(&Location::new(0, 5)).unwrap(), None);

    // an interior piece linked by a clear leap to a border piece is safe too
    position
        .board
        .insert_piece(&Player::Black, &Location::new(2, 6))
        .unwrap();
    assert_eq!(position.connection_to_edge(&Location::new(2, 6)).unwrap(), None);
}

#[test]
fn grid_errors_are_invalid_coordinate() {
    let mut position = Position::default();
    assert_eq!(
        position.board.get_at(&Location::new(13, 0)),
        Err(RulesError::InvalidCoordinate)
    );
    assert_eq!(
        position.board.get_at(&Location::new(-1, 4)),
        Err(RulesError::InvalidCoordinate)
    );
    assert_eq!(
        position.board.clear_at(&Location::new(0, 13)),
        Err(RulesError::InvalidCoordinate)
    );
    assert_eq!(
        position
            .board
            .insert_piece(&Player::Black, &Location::new(-2, -2)),
        Err(RulesError::InvalidCoordinate)
    );
    // the convenience query never errors
    assert!(!position.board.is_color_at(&Location::new(-1, 4), &Player::Black));
}

#[test]
fn helpers_reject_empty_or_out_of_bounds_seeds() {
    let position = Position::default();
    assert_eq!(
        position.get_connection_cloud(&Location::new(5, 5)),
        Err(RulesError::InvalidCoordinate)
    );
    assert_eq!(
        position.get_cut_off_squares(&Location::new(5, 5)),
        Err(RulesError::InvalidCoordinate)
    );
    assert_eq!(
        position.connection_to_edge(&Location::new(20, 20)),
        Err(RulesError::InvalidCoordinate)
    );
}

#[test]
fn read_queries_are_idempotent() {
    let mut position = Position::default();
    position.make_move(Location::new(4, 0)).unwrap();

    let first = position.board.get_at(&Location::new(4, 0)).unwrap();
    for _ in 0..5 {
        assert_eq!(position.board.get_at(&Location::new(4, 0)).unwrap(), first);
        assert!(position.board.is_color_at(&Location::new(4, 0), &Player::Black));
        assert!(!position.board.is_color_at(&Location::new(4, 0), &Player::White));
    }
    assert_eq!(first, BoardValue::Filled(Player::Black));
}

#[test]
fn capture_piece_clears_exactly_the_given_cells() {
    let mut position = Position::default();
    position
        .board
        .insert_piece(&Player::White, &Location::new(3, 3))
        .unwrap();
    position
        .board
        .insert_piece(&Player::White, &Location::new(4, 4))
        .unwrap();
    position
        .board
        .insert_piece(&Player::Black, &Location::new(5, 5))
        .unwrap();

    let fallen = vec![Location::new(3, 3), Location::new(4, 4)];
    position
        .capture_piece(&Location::new(3, 3), fallen)
        .unwrap();

    assert_eq!(
        position.board.get_at(&Location::new(3, 3)).unwrap(),
        BoardValue::Empty
    );
    assert_eq!(
        position.board.get_at(&Location::new(4, 4)).unwrap(),
        BoardValue::Empty
    );
    assert_eq!(
        position.board.get_at(&Location::new(5, 5)).unwrap(),
        BoardValue::Filled(Player::Black)
    );
}

#[test]
fn capture_spares_edge_connected_groups() {
    let mut position = Position::default();
    position.make_move(Location::new(0, 0)).unwrap(); // Black
    position.make_move(Location::new(1, 0)).unwrap(); // White
    position.make_move(Location::new(2, 1)).unwrap(); // Black
    position.make_move(Location::new(0, 1)).unwrap(); // White, captures (2, 1)

    // the disconnected Black piece fell ...
    assert_eq!(
        position.board.get_at(&Location::new(2, 1)).unwrap(),
        BoardValue::Empty
    );
    // ... but every piece whose group touches the border still stands
    assert_eq!(
        position.board.get_at(&Location::new(0, 0)).unwrap(),
        BoardValue::Filled(Player::Black)
    );
    assert_eq!(
        position.board.get_at(&Location::new(1, 0)).unwrap(),
        BoardValue::Filled(Player::White)
    );
    assert_eq!(
        position.board.get_at(&Location::new(0, 1)).unwrap(),
        BoardValue::Filled(Player::White)
    );
}

#[test]
fn playout_keeps_invariants() {
    let mut position = Position::default();
    for _ in 0..40 {
        if position.legal_moves().is_empty() {
            break;
        }
        let mover = position.turn;
        let choice = position.legal_moves()[0];
        position.make_move(choice).unwrap();

        assert_eq!(
            position.board.get_at(&choice).unwrap(),
            BoardValue::Filled(mover)
        );
        assert!(!position.legal_white_moves.contains(&choice));
        assert!(!position.legal_black_moves.contains(&choice));
        for l in position
            .legal_white_moves
            .iter()
            .chain(position.legal_black_moves.iter())
        {
            assert_eq!(position.board.get_at(l).unwrap(), BoardValue::Empty);
        }
        assert_eq!(position.turn, mover.switch());
    }
}

#[test]
fn board_from_storage_and_append() {
    let row = vec![BoardValue::Empty; 3];
    let mut board = Board::new(vec![row.clone(), row.clone()]);
    assert_eq!(board.size_x, 2);
    assert_eq!(board.size_y, 3);
    assert!(board.in_bounds(&Location::new(1, 2)));
    assert!(!board.in_bounds(&Location::new(2, 0)));

    board
        .insert_piece(&Player::White, &Location::new(1, 2))
        .unwrap();
    assert_eq!(
        board.get_at(&Location::new(1, 2)).unwrap(),
        BoardValue::Filled(Player::White)
    );
    board.clear_at(&Location::new(1, 2)).unwrap();
    assert_eq!(board.get_at(&Location::new(1, 2)).unwrap(), BoardValue::Empty);

    // appended storage stays outside the visible region
    board.append(vec![BoardValue::Empty; 3]);
    assert_eq!(board.size_x, 2);
    assert!(!board.in_bounds(&Location::new(2, 0)));
}

#[test]
fn proxy_answers_relative_queries() {
    let mut board = Board::default();
    board
        .insert_piece(&Player::Black, &Location::new(6, 7))
        .unwrap();

    let center = Location::new(5, 5);
    let proxy = board.proxy(&center);
    assert_eq!(proxy.get_absolute(&Location::new(1, 2)), Location::new(6, 7));
    assert_eq!(
        proxy.get_at(&Location::new(1, 2)).unwrap(),
        BoardValue::Filled(Player::Black)
    );
    assert!(proxy.is_color_at(&Location::new(1, 2), &Player::Black));
    assert!(!proxy.is_color_at(&Location::new(1, 2), &Player::White));
    assert!(!proxy.is_color_at(&Location::new(2, 2), &Player::Black));
    assert_eq!(
        proxy.get_at(&Location::new(-6, 0)),
        Err(RulesError::InvalidCoordinate)
    );
}

#[test]
fn player_switch_and_cell_colors() {
    assert_eq!(Player::Black.switch(), Player::White);
    assert_eq!(Player::White.switch(), Player::Black);
    assert_eq!(Player::default(), Player::Black);

    assert_eq!(BoardValue::default(), BoardValue::Empty);
    assert!(!BoardValue::Empty.is_color(&Player::Black));
    assert!(BoardValue::Filled(Player::White).is_color(&Player::White));
    assert!(!BoardValue::Filled(Player::White).is_color(&Player::Black));

    let a = Location::new(2, 3);
    let b = Location::new(-1, 4);
    assert_eq!(a.plus(&b), Location::new(1, 7));
}
