use leapboard::board::BoardValue;
use leapboard::location::Location;
use leapboard::position::{Player, Position};

#[test]
fn test_capture_pieces() {
    let mut position = Position::default();
    position.make_move(Location::new(0, 0)).unwrap();
    position.make_move(Location::new(1, 0)).unwrap();
    position.make_move(Location::new(2, 1)).unwrap();
    position.make_move(Location::new(0, 1)).unwrap();

    assert_eq!(
        position.board.get_at(&Location::new(2, 1)).unwrap(),
        BoardValue::Empty
    );
}

#[test]
fn test_insert_piece_error() {
    let mut position = Position::default();

    // make a move that's invalid
    assert!(position.make_move(Location::new(5, 5)).is_err());

    // make a move that's valid
    assert!(position.make_move(Location::new(0, 0)).is_ok());

    // can't repeat the same move
    assert!(position.make_move(Location::new(0, 0)).is_err());
}

#[test]
fn test_get_cut_off_squares() {
    {
        let mut position = Position::default();
        position
            .board
            .insert_piece(&Player::White, &Location::new(5, 5))
            .unwrap();
        position
            .board
            .insert_piece(&Player::Black, &Location::new(6, 5))
            .unwrap();

        assert_eq!(
            position
                .get_connection_cloud(&Location::new(5, 5))
                .unwrap()
                .len(),
            4
        );
        assert!(position
            .get_connection_cloud(&Location::new(5, 5))
            .unwrap()
            .contains(&Location::new(4, 4)));
        assert!(position
            .get_connection_cloud(&Location::new(5, 5))
            .unwrap()
            .contains(&Location::new(5, 3)));
        assert!(position
            .get_connection_cloud(&Location::new(5, 5))
            .unwrap()
            .contains(&Location::new(4, 6)));
        assert!(position
            .get_connection_cloud(&Location::new(5, 5))
            .unwrap()
            .contains(&Location::new(5, 7)));
    }

    {
        let mut position = Position::default();
        position
            .board
            .insert_piece(&Player::White, &Location::new(5, 5))
            .unwrap();
        position
            .board
            .insert_piece(&Player::White, &Location::new(6, 6))
            .unwrap();
        position
            .board
            .insert_piece(&Player::Black, &Location::new(6, 5))
            .unwrap();

        assert_eq!(
            position
                .get_cut_off_squares(&Location::new(5, 5))
                .unwrap()
                .len(),
            2
        );
        assert!(position
            .get_connection_cloud(&Location::new(5, 5))
            .unwrap()
            .contains(&Location::new(4, 4)));
        assert!(position
            .get_connection_cloud(&Location::new(5, 5))
            .unwrap()
            .contains(&Location::new(5, 3)));
        assert!(position
            .get_connection_cloud(&Location::new(5, 5))
            .unwrap()
            .contains(&Location::new(4, 6)));
        assert!(position
            .get_connection_cloud(&Location::new(5, 5))
            .unwrap()
            .contains(&Location::new(5, 7)));
    }
}

#[test]
fn test_get_cloud() {
    {
        let mut position = Position::default();
        position.make_move(Location::new(0, 0)).unwrap();
        position.make_move(Location::new(1, 0)).unwrap();

        assert_eq!(
            position
                .get_connection_cloud(&Location::new(0, 0))
                .unwrap()
                .len(),
            1
        );
        assert_eq!(
            position.get_connection_cloud(&Location::new(0, 0)).unwrap()[0],
            Location::new(0, 2)
        );
    }

    {
        let mut position = Position::default();
        position.make_move(Location::new(0, 0)).unwrap();
        position.make_move(Location::new(2, 0)).unwrap();

        assert_eq!(
            position
                .get_connection_cloud(&Location::new(0, 0))
                .unwrap()
                .len(),
            1
        );
        assert_eq!(
            position.get_connection_cloud(&Location::new(0, 0)).unwrap()[0],
            Location::new(0, 1)
        );
    }

    {
        let mut position = Position::default();
        position.make_move(Location::new(0, 5)).unwrap();
        position.make_move(Location::new(0, 3)).unwrap();

        assert_eq!(
            position
                .get_connection_cloud(&Location::new(0, 5))
                .unwrap()
                .len(),
            1
        );
        assert_eq!(
            position.get_connection_cloud(&Location::new(0, 5)).unwrap()[0],
            Location::new(1, 5)
        );
    }

    {
        let mut position = Position::default();
        position.make_move(Location::new(0, 5)).unwrap();
        position.make_move(Location::new(0, 4)).unwrap();

        assert_eq!(
            position
                .get_connection_cloud(&Location::new(0, 5))
                .unwrap()
                .len(),
            2
        );
        assert!(position
            .get_connection_cloud(&Location::new(0, 5))
            .unwrap()
            .contains(&Location::new(2, 5)));
        assert!(position
            .get_connection_cloud(&Location::new(0, 5))
            .unwrap()
            .contains(&Location::new(1, 6)));
    }

    {
        let mut position = Position::default();
        position
            .board
            .insert_piece(&Player::White, &Location::new(0, 5))
            .unwrap();
        position
            .board
            .insert_piece(&Player::White, &Location::new(0, 3))
            .unwrap();

        assert_eq!(
            position
                .get_connection_cloud(&Location::new(0, 5))
                .unwrap()
                .len(),
            0
        );
    }

    {
        let mut position = Position::default();
        position
            .board
            .insert_piece(&Player::White, &Location::new(0, 5))
            .unwrap();
        position
            .board
            .insert_piece(&Player::White, &Location::new(0, 3))
            .unwrap();

        assert_eq!(
            position
                .get_connection_cloud(&Location::new(0, 5))
                .unwrap()
                .len(),
            0
        );
    }

    {
        let mut position = Position::default();
        position
            .board
            .insert_piece(&Player::White, &Location::new(5, 5))
            .unwrap();
        position
            .board
            .insert_piece(&Player::Black, &Location::new(4, 4))
            .unwrap();

        assert_eq!(
            position
                .get_connection_cloud(&Location::new(5, 5))
                .unwrap()
                .len(),
            2
        );
        assert!(position
            .get_connection_cloud(&Location::new(5, 5))
            .unwrap()
            .contains(&Location::new(5, 6)));
        assert!(position
            .get_connection_cloud(&Location::new(5, 5))
            .unwrap()
            .contains(&Location::new(6, 5)));
    }

    {
        let mut position = Position::default();
        position
            .board
            .insert_piece(&Player::White, &Location::new(5, 5))
            .unwrap();
        position
            .board
            .insert_piece(&Player::Black, &Location::new(4, 5))
            .unwrap();

        assert_eq!(
            position
                .get_connection_cloud(&Location::new(5, 5))
                .unwrap()
                .len(),
            4
        );
        assert!(position
            .get_connection_cloud(&Location::new(5, 5))
            .unwrap()
            .contains(&Location::new(6, 4)));
        assert!(position
            .get_connection_cloud(&Location::new(5, 5))
            .unwrap()
            .contains(&Location::new(5, 3)));
        assert!(position
            .get_connection_cloud(&Location::new(5, 5))
            .unwrap()
            .contains(&Location::new(6, 6)));
        assert!(position
            .get_connection_cloud(&Location::new(5, 5))
            .unwrap()
            .contains(&Location::new(5, 7)));
    }

    {
        let mut position = Position::default();
        position
            .board
            .insert_piece(&Player::White, &Location::new(5, 5))
            .unwrap();
        position
            .board
            .insert_piece(&Player::Black, &Location::new(6, 5))
            .unwrap();

        assert_eq!(
            position
                .get_connection_cloud(&Location::new(5, 5))
                .unwrap()
                .len(),
            4
        );
        assert!(position
            .get_connection_cloud(&Location::new(5, 5))
            .unwrap()
            .contains(&Location::new(4, 4)));
        assert!(position
            .get_connection_cloud(&Location::new(5, 5))
            .unwrap()
            .contains(&Location::new(5, 3)));
        assert!(position
            .get_connection_cloud(&Location::new(5, 5))
            .unwrap()
            .contains(&Location::new(4, 6)));
        assert!(position
            .get_connection_cloud(&Location::new(5, 5))
            .unwrap()
            .contains(&Location::new(5, 7)));
    }

    {
        let mut position = Position::default();
        position
            .board
            .insert_piece(&Player::White, &Location::new(5, 5))
            .unwrap();
        position
            .board
            .insert_piece(&Player::Black, &Location::new(5, 6))
            .unwrap();

        assert_eq!(
            position
                .get_connection_cloud(&Location::new(5, 5))
                .unwrap()
                .len(),
            4
        );
        assert!(position
            .get_connection_cloud(&Location::new(5, 5))
            .unwrap()
            .contains(&Location::new(4, 4)));
        assert!(position
            .get_connection_cloud(&Location::new(5, 5))
            .unwrap()
            .contains(&Location::new(3, 5)));
        assert!(position
            .get_connection_cloud(&Location::new(5, 5))
            .unwrap()
            .contains(&Location::new(6, 4)));
        assert!(position
            .get_connection_cloud(&Location::new(5, 5))
            .unwrap()
            .contains(&Location::new(7, 5)));
    }

    {
        let mut position = Position::default();
        position
            .board
            .insert_piece(&Player::White, &Location::new(5, 5))
            .unwrap();
        position
            .board
            .insert_piece(&Player::Black, &Location::new(5, 4))
            .unwrap();

        assert_eq!(
            position
                .get_connection_cloud(&Location::new(5, 5))
                .unwrap()
                .len(),
            4
        );
        assert!(position
            .get_connection_cloud(&Location::new(5, 5))
            .unwrap()
            .contains(&Location::new(4, 6)));
        assert!(position
            .get_connection_cloud(&Location::new(5, 5))
            .unwrap()
            .contains(&Location::new(3, 5)));
        assert!(position
            .get_connection_cloud(&Location::new(5, 5))
            .unwrap()
            .contains(&Location::new(6, 6)));
        assert!(position
            .get_connection_cloud(&Location::new(5, 5))
            .unwrap()
            .contains(&Location::new(7, 5)));
    }
}

#[test]
fn test_connections_around() {
    let position = Position::default();

    //center
    let connections_around1 = position.connections_around(&Location::new(6, 6));

    assert!(connections_around1.contains(&Location::new(8, 5)));
    assert!(connections_around1.contains(&Location::new(8, 7)));
    assert!(connections_around1.contains(&Location::new(4, 5)));
    assert!(connections_around1.contains(&Location::new(4, 7)));
    assert!(connections_around1.contains(&Location::new(7, 8)));
    assert!(connections_around1.contains(&Location::new(5, 8)));
    assert!(connections_around1.contains(&Location::new(7, 4)));
    assert!(connections_around1.contains(&Location::new(5, 4)));

    //edge
    let connections_around2 = position.connections_around(&Location::new(0, 0));

    assert!(connections_around2.contains(&Location::new(2, 1)));
    assert!(connections_around2.contains(&Location::new(1, 2)));
}

#[test]
fn test_get_reachable() {
    let mut position = Position::default();
    position
        .board
        .insert_piece(&Player::White, &Location::new(5, 5))
        .unwrap();
    position
        .board
        .insert_piece(&Player::White, &Location::new(0, 0))
        .unwrap();

    assert!(position
        .is_connection_between(&Location::new(5, 5), &Location::new(4, 3), &Player::White)
        .unwrap());

    assert!(position
        .is_connection_between(&Location::new(5, 5), &Location::new(7, 4), &Player::White)
        .unwrap());

    assert!(position
        .is_connection_between(&Location::new(5, 5), &Location::new(3, 6), &Player::White)
        .unwrap());

    assert!(position
        .is_connection_between(&Location::new(5, 5), &Location::new(6, 7), &Player::White)
        .unwrap());

    assert!(position
        .is_connection_between(&Location::new(5, 5), &Location::new(3, 4), &Player::White)
        .unwrap());

    assert!(position
        .is_connection_between(&Location::new(5, 5), &Location::new(4, 7), &Player::White)
        .unwrap());

    assert!(position
        .is_connection_between(&Location::new(5, 5), &Location::new(6, 3), &Player::White)
        .unwrap());

    assert!(position
        .is_connection_between(&Location::new(5, 5), &Location::new(7, 6), &Player::White)
        .unwrap());

    assert!(!position
        .is_connection_between(&Location::new(0, 0), &Location::new(2, 2), &Player::White)
        .unwrap());
}
