use enoch::engine::board::Board;
use enoch::engine::game::Game;
use enoch::engine::types::{Army, PieceKind, Square};
use enoch::engine::types::Team;

fn square(file: char, rank: u8) -> Square {
    assert!((b'a'..=b'h').contains(&(file.to_ascii_lowercase() as u8)));
    assert!((1..=8).contains(&rank));
    (rank - 1) * 8 + (file.to_ascii_lowercase() as u8 - b'a')
}

#[test]
fn test_initial_game_setup() {
    let game = Game::default();
    assert_eq!(game.state.current_turn_index, 0);
    assert_eq!(game.config.turn_order[0], enoch::engine::types::Army::Blue);
}

#[test]
fn test_initial_king_positions() {
    let game = Game::default();
    let board = &game.board;

    assert_eq!(
        board.king_square(Army::Blue),
        Some(square('e', 1)),
        "Blue King on e1"
    );
    assert_eq!(
        board.king_square(Army::Red),
        Some(square('e', 8)),
        "Red King on e8"
    );
    assert_eq!(
        board.king_square(Army::Black),
        Some(square('a', 5)),
        "Black King on a5"
    );
    assert_eq!(
        board.king_square(Army::Yellow),
        Some(square('h', 5)),
        "Yellow King on h5"
    );
}

#[test]
fn test_frozen_army_after_king_capture() {
    let mut game = Game::default();

    // It's Blue's turn
    assert_eq!(game.current_army(), Army::Blue);
    game.apply_move(Army::Blue, square('e', 2), square('e', 3), None)
        .unwrap();

    // It's Red's turn
    assert_eq!(game.current_army(), Army::Red);
    game.apply_move(Army::Red, square('d', 7), square('d', 6), None)
        .unwrap();

    // It's Black's turn
    assert_eq!(game.current_army(), Army::Black);

    // Capture Black king
    game.capture_king(Army::Black);

    // Verify Black army is frozen
    assert!(game.army_is_frozen(Army::Black));
    assert_eq!(game.board.king_square(Army::Black), None);

    // Try to apply a move for black, it should fail
    let res = game.apply_move(Army::Black, square('a', 4), square('b', 4), None);
    assert!(res.is_err());

    // The turn should still be Black's because apply_move failed.
    assert_eq!(game.current_army(), Army::Black);

    // Manually advance the turn
    game.advance_to_next_army();

    assert_eq!(
        game.current_army(),
        Army::Yellow,
        "Turn should skip frozen Black army and go to Yellow"
    );

    // Verify no moves can be generated for the frozen army
    let black_moves = game.generate_legal_moves(Army::Black);
    assert!(
        black_moves.is_empty(),
        "A frozen army should have no legal moves"
    );
}

#[test]
fn test_stalemate_skip_turn() {
    let mut game = Game::default();
    let mut board = Board::new(&[]);
    board.place_piece(Army::Blue, PieceKind::King, square('h', 8));
    board.place_piece(Army::Blue, PieceKind::Pawn, square('g', 8)); // Blocks g8
    // Red Rook on h6 - controls h7 vertically
    board.place_piece(Army::Red, PieceKind::Rook, square('h', 6));
    // Black Rook on f7 - controls g7 horizontally
    board.place_piece(Army::Black, PieceKind::Rook, square('f', 7));

    game.board = board;
    game.state.sync_with_board(&game.board);

    // It's Blue's turn
    game.state.current_turn_index = 0;
    assert_eq!(game.current_army(), Army::Blue);

    // Update stalemate status
    game.update_stalemate_status(Army::Blue);

    // Manually advance the turn
    game.advance_to_next_army();

    // The next turn should not stay on Blue
    assert!(matches!(game.current_army(), Army::Red | Army::Black | Army::Yellow));
}

#[test]
fn test_promotion_zones() {
    let game = Game::default();

    // Blue promotes on rank 8 (marches north)
    assert!(game.can_promote_at(Army::Blue, square('e', 8)));
    assert!(!game.can_promote_at(Army::Blue, square('e', 7)));

    // Black promotes on file h (moves east)
    assert!(game.can_promote_at(Army::Black, square('h', 4)));
    assert!(!game.can_promote_at(Army::Black, square('g', 4)));

    // Red promotes on rank 1 (marches south)
    assert!(game.can_promote_at(Army::Red, square('e', 1)));
    assert!(!game.can_promote_at(Army::Red, square('e', 2)));

    // Yellow promotes on file a (moves west)
    assert!(game.can_promote_at(Army::Yellow, square('a', 4)));
    assert!(!game.can_promote_at(Army::Yellow, square('b', 4)));
}

#[test]
fn test_throne_squares() {
    let game = Game::default();

    // Check throne squares for each army
    assert_eq!(game.board.throne_owner(square('e', 1)), Some(Army::Blue));
    assert_eq!(game.board.throne_owner(square('e', 8)), Some(Army::Red));
    assert_eq!(game.board.throne_owner(square('a', 5)), Some(Army::Black));
    assert_eq!(game.board.throne_owner(square('h', 5)), Some(Army::Yellow));

    // Non-throne square
    assert_eq!(game.board.throne_owner(square('d', 4)), None);
}

#[test]
fn test_turn_order() {
    let game = Game::default();

    // Default turn order should be Blue, Red, Black, Yellow
    assert_eq!(game.current_army(), Army::Blue);
}

#[test]
fn test_move_validation() {
    let mut game = Game::default();

    // Try to move wrong army's piece
    let result = game.apply_move(Army::Red, square('e', 2), square('e', 4), None);
    assert!(result.is_err());

    // Move correct army's piece
    let result = game.apply_move(Army::Blue, square('e', 2), square('e', 3), None);
    assert!(result.is_ok());
}

#[test]
fn test_king_in_check_detection() {
    let mut game = Game::default();
    let mut board = Board::new(&[]);

    // Place Blue king and Red rook attacking it
    board.place_piece(Army::Blue, PieceKind::King, square('e', 4));
    board.place_piece(Army::Red, PieceKind::Rook, square('e', 8));

    game.board = board;
    game.state.sync_with_board(&game.board);

    assert!(game.king_in_check(Army::Blue));
    assert!(!game.king_in_check(Army::Red));
}

#[test]
fn test_legal_moves_exclude_self_check() {
    let mut game = Game::default();
    let mut board = Board::new(&[]);

    // Blue king on e4, Blue rook on e6, Red rook on e8
    // Blue rook is pinned - moving it would expose king to check
    board.place_piece(Army::Blue, PieceKind::King, square('e', 4));
    board.place_piece(Army::Blue, PieceKind::Rook, square('e', 6));
    board.place_piece(Army::Red, PieceKind::Rook, square('e', 8));

    game.board = board;
    game.state.sync_with_board(&game.board);

    let moves = game.generate_legal_moves(Army::Blue);

    // Blue rook on e6 is pinned - it can only move along the e-file or capture the attacker
    let rook_moves: Vec<_> = moves.iter().filter(|m| m.from == square('e', 6)).collect();

    // Rook should be able to move to e5, e7, or capture on e8, but not sideways
    for m in &rook_moves {
        let to_file = m.to % 8;
        assert_eq!(to_file, 4, "Pinned rook should only move along e-file (file 4)");
    }

    // King should still have legal moves
    let king_moves = moves.iter().filter(|m| m.kind == PieceKind::King).count();
    assert!(king_moves > 0);
}

#[test]
fn test_forced_king_move_when_in_check() {
    let mut game = Game::default();
    let mut board = Board::new(&[]);

    // Blue king in check, has both king moves and other piece moves available
    board.place_piece(Army::Blue, PieceKind::King, square('e', 4));
    board.place_piece(Army::Blue, PieceKind::Rook, square('a', 1));
    board.place_piece(Army::Red, PieceKind::Rook, square('e', 8));

    game.board = board;
    game.state.sync_with_board(&game.board);

    let moves = game.generate_legal_moves(Army::Blue);

    // When in check, only king moves should be returned
    assert!(moves.iter().all(|m| m.kind == PieceKind::King));
}

#[test]
fn test_capture_removes_piece() {
    let mut game = Game::default();
    let mut board = Board::new(&[]);

    board.place_piece(Army::Blue, PieceKind::Rook, square('e', 4));
    board.place_piece(Army::Red, PieceKind::Pawn, square('e', 6));

    game.board = board;
    game.state.sync_with_board(&game.board);

    // Blue rook captures Red pawn
    let result = game.apply_move(Army::Blue, square('e', 4), square('e', 6), None);
    assert!(result.is_ok());

    // Red pawn should be gone
    assert!(game.board.piece_at(square('e', 6)).is_some());
    assert_eq!(game.board.piece_at(square('e', 6)).unwrap().0, Army::Blue);
}

#[test]
fn test_team_membership() {

    assert_eq!(Army::Blue.team(), Team::Air);
    assert_eq!(Army::Black.team(), Team::Air);
    assert_eq!(Army::Red.team(), Team::Earth);
    assert_eq!(Army::Yellow.team(), Team::Earth);
}

#[test]
fn enoch_rules_test_pawn_promotion() {
    let mut game = Game::default();
    let mut board = Board::new(&[]);

    // Place Blue pawn one square from promotion zone
    board.place_piece(Army::Blue, PieceKind::Pawn, square('e', 7));
    game.board = board;
    game.state.sync_with_board(&game.board);

    // Move pawn to promotion zone and promote to queen
    let result = game.apply_move(Army::Blue, square('e', 7), square('e', 8), Some(PieceKind::Queen));
    assert!(result.is_ok());

    // Check that piece is now a queen
    let piece = game.board.piece_at(square('e', 8));
    assert!(piece.is_some());
    assert_eq!(piece.unwrap(), (Army::Blue, PieceKind::Queen));
}

#[test]
fn test_cannot_capture_own_piece() {
    let mut game = Game::default();
    let mut board = Board::new(&[]);

    board.place_piece(Army::Blue, PieceKind::Rook, square('e', 4));
    board.place_piece(Army::Blue, PieceKind::Pawn, square('e', 6));
    game.board = board;
    game.state.sync_with_board(&game.board);

    // Try to capture own piece
    let result = game.apply_move(Army::Blue, square('e', 4), square('e', 6), None);
    assert!(result.is_err());
}

#[test]
fn test_queen_cannot_capture_queen() {
    let mut game = Game::default();
    let mut board = Board::new(&[]);

    board.place_piece(Army::Blue, PieceKind::Queen, square('e', 4));
    board.place_piece(Army::Red, PieceKind::Queen, square('e', 6));
    game.board = board;
    game.state.sync_with_board(&game.board);

    let moves = game.generate_legal_moves(Army::Blue);

    // Queen should not be able to capture enemy queen
    let can_capture_queen = moves.iter().any(|m| m.from == square('e', 4) && m.to == square('e', 6));
    assert!(!can_capture_queen, "Queens cannot capture each other");
}

#[test]
fn test_turn_advances_after_move() {
    let mut game = Game::default();

    assert_eq!(game.current_army(), Army::Blue);

    // Make a move
    let result = game.apply_move(Army::Blue, square('e', 2), square('e', 3), None);
    assert!(result.is_ok());

    // Turn should advance to next army (Red in default turn order: Blue, Red, Black, Yellow)
    assert_eq!(game.current_army(), Army::Red);
}

#[test]
fn test_multiple_armies_on_board() {
    let game = Game::default();

    // Check that all four armies have pieces
    for &army in Army::all().iter() {
        let has_pieces = game.board.by_army_kind[army.index()].iter().any(|&bb| bb != 0);
        assert!(has_pieces, "{} should have pieces on the board", army.display_name());
    }
}
