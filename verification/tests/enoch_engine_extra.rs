use enoch::engine::board::{Board, MASK_FILE_A, MASK_FILE_H, MASK_RANK_1, MASK_RANK_8};
use enoch::engine::game::Game;
use enoch::engine::types::{file_char, rank_char, Army, PieceKind, Square, Team};
use enoch::engine::arrays::{available_arrays, find_array_by_name};

fn square(file: char, rank: u8) -> Square {
    (rank - 1) * 8 + (file as u8 - b'a')
}

#[test]
fn occupancy_stays_disjoint_and_consistent() {
    // built piece by piece, every mask stays disjoint through play
    let mut game = Game::default();
    let mut board = Board::new(&[]);
    board.place_piece(Army::Blue, PieceKind::King, square('e', 1));
    board.place_piece(Army::Blue, PieceKind::Pawn, square('e', 2));
    board.place_piece(Army::Red, PieceKind::King, square('e', 8));
    board.place_piece(Army::Red, PieceKind::Pawn, square('d', 7));
    board.place_piece(Army::Black, PieceKind::King, square('a', 5));
    board.place_piece(Army::Yellow, PieceKind::King, square('h', 5));
    game.board = board;
    game.state.sync_with_board(&game.board);
    game.apply_move(Army::Blue, square('e', 2), square('e', 3), None)
        .unwrap();
    game.apply_move(Army::Red, square('d', 7), square('d', 6), None)
        .unwrap();

    // disjointness: no square is claimed by two (army, kind) masks
    let mut seen: u64 = 0;
    for army in Army::all() {
        for mask in game.board.by_army_kind[army.index()] {
            assert_eq!(seen & mask, 0, "occupancy masks must stay disjoint");
            seen |= mask;
        }
    }

    // derived-field consistency after an explicit refresh
    game.board.refresh_occupancy();
    for army in Army::all() {
        let union = game.board.by_army_kind[army.index()]
            .iter()
            .fold(0u64, |acc, m| acc | m);
        assert_eq!(game.board.occupancy_by_army[army.index()], union);
    }
    let air = game.board.occupancy_by_army[0] | game.board.occupancy_by_army[1];
    let earth = game.board.occupancy_by_army[2] | game.board.occupancy_by_army[3];
    assert_eq!(game.board.occupancy_by_team[0], air);
    assert_eq!(game.board.occupancy_by_team[1], earth);
    assert_eq!(game.board.all_occupancy, air | earth);
    assert_eq!(game.board.free, !game.board.all_occupancy);
}

#[test]
fn privileged_pawn_promotes_to_requested_kind() {
    // A pawn whose army holds only its king qualifies for free choice
    let mut game = Game::default();
    let mut board = Board::new(&[]);
    board.place_piece(Army::Blue, PieceKind::King, square('a', 1));
    board.place_piece(Army::Blue, PieceKind::Pawn, square('e', 7));
    game.board = board;
    game.state.sync_with_board(&game.board);

    assert!(game.is_privileged_pawn(Army::Blue));
    assert_eq!(
        game.promotion_targets(Army::Blue),
        vec![
            PieceKind::Queen,
            PieceKind::Rook,
            PieceKind::Bishop,
            PieceKind::Knight
        ]
    );

    let result = game.apply_move(
        Army::Blue,
        square('e', 7),
        square('e', 8),
        Some(PieceKind::Knight),
    );
    assert!(result.is_ok());
    assert_eq!(
        game.board.piece_at(square('e', 8)),
        Some((Army::Blue, PieceKind::Knight))
    );
}

#[test]
fn unprivileged_pawn_always_becomes_queen() {
    // With a queen and a rook also present the pawn is not privileged
    let mut game = Game::default();
    let mut board = Board::new(&[]);
    board.place_piece(Army::Blue, PieceKind::King, square('a', 1));
    board.place_piece(Army::Blue, PieceKind::Queen, square('b', 1));
    board.place_piece(Army::Blue, PieceKind::Rook, square('c', 1));
    board.place_piece(Army::Blue, PieceKind::Pawn, square('e', 7));
    game.board = board;
    game.state.sync_with_board(&game.board);

    assert!(!game.is_privileged_pawn(Army::Blue));
    assert_eq!(game.promotion_targets(Army::Blue), vec![PieceKind::Queen]);

    let result = game.apply_move(
        Army::Blue,
        square('e', 7),
        square('e', 8),
        Some(PieceKind::Knight),
    );
    assert!(result.is_ok());
    // the request is overridden: a new queen appears, and the old queen
    // is demoted to a pawn to free the slot
    assert_eq!(
        game.board.piece_at(square('e', 8)),
        Some((Army::Blue, PieceKind::Queen))
    );
    assert_eq!(
        game.board.piece_at(square('b', 1)),
        Some((Army::Blue, PieceKind::Pawn))
    );
}

#[test]
fn promotion_to_pawn_or_king_is_rejected() {
    let mut game = Game::default();
    let mut board = Board::new(&[]);
    board.place_piece(Army::Blue, PieceKind::King, square('a', 1));
    board.place_piece(Army::Blue, PieceKind::Pawn, square('e', 7));
    game.board = board;
    game.state.sync_with_board(&game.board);

    let before = game.board.by_army_kind;
    let result = game.apply_move(
        Army::Blue,
        square('e', 7),
        square('e', 8),
        Some(PieceKind::King),
    );
    assert_eq!(result.unwrap_err(), "Promotion failed");
    // the rejection left the position untouched
    assert_eq!(game.board.by_army_kind, before);
    assert_eq!(game.current_army(), Army::Blue);
}

#[test]
fn prisoner_exchange_restores_both_kings() {
    let mut game = Game::default();
    game.capture_king(Army::Blue);
    game.capture_king(Army::Black);
    assert!(game.army_is_frozen(Army::Blue));
    assert!(game.army_is_frozen(Army::Black));

    let ok = game.exchange_prisoners(Army::Blue, Army::Black);
    assert!(ok);
    // each king returns to its army's first throne square
    assert_eq!(game.board.king_square(Army::Blue), Some(3));
    assert_eq!(game.board.king_square(Army::Black), Some(24));
    assert!(!game.army_is_frozen(Army::Blue));
    assert!(!game.army_is_frozen(Army::Black));
}

#[test]
fn prisoner_exchange_fails_with_a_living_king() {
    let mut game = Game::default();
    game.capture_king(Army::Blue);
    // Black's king still stands, so the exchange is a no-op failure
    let before_frozen = game.army_is_frozen(Army::Blue);
    let ok = game.exchange_prisoners(Army::Blue, Army::Black);
    assert!(!ok);
    assert_eq!(game.army_is_frozen(Army::Blue), before_frozen);
    assert_eq!(game.board.king_square(Army::Blue), None);
}

#[test]
fn victory_and_draw_judgements() {
    let mut game = Game::default();
    assert!(game.winning_team().is_none());
    assert!(!game.draw_condition());

    game.capture_king(Army::Red);
    game.capture_king(Army::Yellow);
    assert_eq!(game.winning_team(), Some(Team::Air));

    game.capture_king(Army::Blue);
    game.capture_king(Army::Black);
    assert!(game.winning_team().is_none());
    assert!(game.draw_condition());
}

#[test]
fn error_messages_are_distinct() {
    let mut game = Game::default();

    let err = game
        .apply_move(Army::Red, square('d', 7), square('d', 6), None)
        .unwrap_err();
    assert_eq!(err, "It is not Red's turn");

    let err = game
        .apply_move(Army::Blue, square('e', 2), square('e', 5), None)
        .unwrap_err();
    assert_eq!(err, "Invalid move");

    game.state.set_frozen(Army::Blue, true);
    let err = game
        .apply_move(Army::Blue, square('e', 2), square('e', 3), None)
        .unwrap_err();
    assert_eq!(err, "Blue's army is frozen");
}

#[test]
fn accepted_move_reports_confirmation() {
    let mut game = Game::default();
    let msg = game
        .apply_move(Army::Blue, square('e', 2), square('e', 3), None)
        .unwrap();
    assert_eq!(msg, "Blue moved Pawn to e3");
}

#[test]
fn army_names_parse_ignoring_case() {
    assert_eq!(Army::from_str("blue"), Some(Army::Blue));
    assert_eq!(Army::from_str("BLACK"), Some(Army::Black));
    assert_eq!(Army::from_str("Red"), Some(Army::Red));
    assert_eq!(Army::from_str("yElLoW"), Some(Army::Yellow));
    assert_eq!(Army::from_str("green"), None);
    assert_eq!(Army::from_str(""), None);
}

#[test]
fn square_notation_helpers() {
    assert_eq!(file_char(0), 'a');
    assert_eq!(rank_char(0), '1');
    assert_eq!(file_char(square('e', 3)), 'e');
    assert_eq!(rank_char(square('e', 3)), '3');
    assert_eq!(file_char(63), 'h');
    assert_eq!(rank_char(63), '8');
}

#[test]
fn demote_piece_returns_affected_square() {
    let mut board = Board::new(&[]);
    board.place_piece(Army::Blue, PieceKind::Queen, square('d', 4));
    let sq = board.demote_piece_to_pawn(Army::Blue, PieceKind::Queen);
    assert_eq!(sq, Some(square('d', 4)));
    assert_eq!(
        board.piece_at(square('d', 4)),
        Some((Army::Blue, PieceKind::Pawn))
    );

    // absent kind, and the pawn kind itself, are refused
    assert_eq!(board.demote_piece_to_pawn(Army::Blue, PieceKind::Rook), None);
    assert_eq!(board.demote_piece_to_pawn(Army::Blue, PieceKind::Pawn), None);
}

#[test]
fn piece_counts_follow_the_board() {
    let game = Game::default();
    let counts = game.piece_counts(Army::Blue);
    assert_eq!(counts[PieceKind::King.index()], 1);
    assert_eq!(counts[PieceKind::Queen.index()], 1);
    assert_eq!(counts[PieceKind::Bishop.index()], 2);
    assert_eq!(counts[PieceKind::Knight.index()], 2);
    assert_eq!(counts[PieceKind::Rook.index()], 2);
    assert_eq!(counts[PieceKind::Pawn.index()], 8);
}

#[test]
fn ascii_rows_render_eight_lines() {
    let game = Game::default();
    let rows = game.board.ascii_rows();
    assert_eq!(rows.len(), 8);
    assert_eq!(rows[0], "8 R N B Q K B N R");
    assert_eq!(rows[4], "4 q p . . . . p q");
    assert_eq!(rows[7], "1 R N B Q K B N R");
    for row in &rows {
        assert_eq!(row.chars().count(), 17);
    }
}

#[test]
fn promotion_zone_masks_cover_board_edges() {
    assert_eq!(MASK_RANK_1, 0xFF);
    assert_eq!(MASK_RANK_8, 0xFF00_0000_0000_0000);
    assert_eq!(MASK_FILE_A, 0x0101_0101_0101_0101);
    assert_eq!(MASK_FILE_H, 0x8080_8080_8080_8080);
}

#[test]
fn catalog_lookup_ignores_case() {
    assert_eq!(available_arrays().len(), 4);
    let found = find_array_by_name("tablet of fire (PROTOTYPE)");
    assert!(found.is_some());
    assert_eq!(found.unwrap().name, "Tablet of Fire (prototype)");
    assert!(find_array_by_name("no such array").is_none());
}

#[test]
fn throne_seizure_revives_the_ally() {
    // Black is kingless and frozen; Blue's king seizes Black's throne at
    // a5 and thereby takes control of Black and unfreezes it
    let mut game = Game::default();
    let mut board = Board::new(&[]);
    board.place_piece(Army::Blue, PieceKind::King, square('a', 4));
    board.place_piece(Army::Black, PieceKind::Rook, square('h', 8));
    board.set_frozen(Army::Black, true);
    game.board = board;
    game.state.sync_with_board(&game.board);
    assert!(game.army_is_frozen(Army::Black));

    let result = game.apply_move(Army::Blue, square('a', 4), square('a', 5), None);
    assert!(result.is_ok(), "{result:?}");
    assert!(!game.army_is_frozen(Army::Black));
    let blue_controller = game.board.controller_for(Army::Blue);
    assert_eq!(game.board.controller_for(Army::Black), blue_controller);
}
