use chess_backend::board::{Board, Color, Piece, PieceType};
use chess_backend::move_gen::generate_moves;

fn empty_board() -> Board {
    let mut b = Board::new();
    for rank in 0..8 {
        for file in 0..8 {
            b.set_piece(rank, file, None);
        }
    }
    b
}

#[test]
fn test_pawn_double_push_from_start() {
    // Standard start, the pawn at (1, 0): single and double push, nothing else.
    let board = Board::new();
    let moves = generate_moves(&board, 1, 0);
    assert_eq!(moves, vec![(2, 0), (3, 0)]);
}

#[test]
fn test_rook_blocked_at_start() {
    // Standard start, the rook at (0, 0) is boxed in by its own side.
    let board = Board::new();
    let moves = generate_moves(&board, 0, 0);
    assert!(moves.is_empty());
}

#[test]
fn test_rook_rays_with_capture() {
    // Empty board except a White rook at (3, 3) and a Black pawn at (3, 6):
    // the increasing-file ray stops at the capture; the other three rays run
    // to the board edge.
    let mut board = empty_board();
    board.set_piece(3, 3, Some(Piece { piece_type: PieceType::Rook, color: Color::White }));
    board.set_piece(3, 6, Some(Piece { piece_type: PieceType::Pawn, color: Color::Black }));
    let moves = generate_moves(&board, 3, 3);
    let expected = vec![
        (4, 3),
        (5, 3),
        (6, 3),
        (7, 3),
        (2, 3),
        (1, 3),
        (0, 3),
        (3, 4),
        (3, 5),
        (3, 6),
        (3, 2),
        (3, 1),
        (3, 0),
    ];
    assert_eq!(moves, expected);
}

#[test]
fn test_generate_out_of_range_or_empty_is_empty() {
    let board = Board::new();
    assert!(generate_moves(&board, 8, 0).is_empty());
    assert!(generate_moves(&board, 0, 8).is_empty());
    assert!(generate_moves(&board, 4, 4).is_empty());
}

#[test]
fn test_knight_offsets_inclusion() {
    // A fixed-offset target is included exactly when it is on the board and
    // not occupied by a same-side piece.
    let mut board = empty_board();
    board.set_piece(3, 3, Some(Piece { piece_type: PieceType::Knight, color: Color::White }));
    board.set_piece(1, 2, Some(Piece { piece_type: PieceType::Pawn, color: Color::White }));
    board.set_piece(5, 4, Some(Piece { piece_type: PieceType::Pawn, color: Color::Black }));
    let moves = generate_moves(&board, 3, 3);
    assert_eq!(moves, vec![(1, 4), (2, 1), (2, 5), (4, 1), (4, 5), (5, 2), (5, 4)]);
}

#[test]
fn test_king_moves_edge_and_blocking() {
    let mut board = empty_board();
    board.set_piece(0, 0, Some(Piece { piece_type: PieceType::King, color: Color::White }));
    board.set_piece(0, 1, Some(Piece { piece_type: PieceType::Rook, color: Color::White }));
    board.set_piece(1, 1, Some(Piece { piece_type: PieceType::Pawn, color: Color::Black }));
    let moves = generate_moves(&board, 0, 0);
    assert_eq!(moves, vec![(1, 0), (1, 1)]);
}

#[test]
fn test_pawn_capture_and_blocked_push() {
    let mut board = empty_board();
    board.set_piece(4, 4, Some(Piece { piece_type: PieceType::Pawn, color: Color::White }));
    board.set_piece(5, 4, Some(Piece { piece_type: PieceType::Knight, color: Color::Black }));
    board.set_piece(5, 3, Some(Piece { piece_type: PieceType::Bishop, color: Color::Black }));
    board.set_piece(5, 5, Some(Piece { piece_type: PieceType::Rook, color: Color::White }));
    let moves = generate_moves(&board, 4, 4);
    assert_eq!(moves, vec![(5, 3)]);
}

#[test]
fn test_black_pawn_moves_down() {
    let board = Board::new();
    let moves = generate_moves(&board, 6, 3);
    assert_eq!(moves, vec![(5, 3), (4, 3)]);
}

#[test]
fn test_double_push_blocked_at_destination() {
    let mut board = empty_board();
    board.set_piece(1, 0, Some(Piece { piece_type: PieceType::Pawn, color: Color::White }));
    board.set_piece(3, 0, Some(Piece { piece_type: PieceType::Knight, color: Color::Black }));
    let moves = generate_moves(&board, 1, 0);
    assert_eq!(moves, vec![(2, 0)]);
}

#[test]
fn test_no_target_is_the_source_cell() {
    // Over the whole start position, no generated target equals its source.
    let board = Board::new();
    for rank in 0..8 {
        for file in 0..8 {
            for target in generate_moves(&board, rank, file) {
                assert_ne!(target, (rank, file));
                assert!(target.0 < 8 && target.1 < 8);
            }
        }
    }
}

#[test]
fn test_queen_is_rook_plus_bishop() {
    let mut with_queen = empty_board();
    with_queen.set_piece(3, 3, Some(Piece { piece_type: PieceType::Queen, color: Color::White }));
    let mut with_rook = empty_board();
    with_rook.set_piece(3, 3, Some(Piece { piece_type: PieceType::Rook, color: Color::White }));
    let mut with_bishop = empty_board();
    with_bishop.set_piece(3, 3, Some(Piece { piece_type: PieceType::Bishop, color: Color::White }));
    let mut expected = generate_moves(&with_rook, 3, 3);
    expected.extend(generate_moves(&with_bishop, 3, 3));
    assert_eq!(generate_moves(&with_queen, 3, 3), expected);
}
