use chess_backend::board::PieceType;
use chess_backend::engine::ChessEngine;

#[test]
fn test_engine_initialization() {
    let engine = ChessEngine::new();
    let board = engine.get_board();
    assert_eq!(board.get_piece(0, 0).unwrap().piece_type, PieceType::Rook);
}

#[test]
fn test_engine_search_no_moves() {
    let mut engine = ChessEngine::new();
    engine.get_board_mut().pieces = vec![None; 64];
    let best_move = engine.search();
    assert_eq!(best_move, None);
}

#[test]
fn test_engine_apply_move() {
    let mut engine = ChessEngine::new();
    let initial_board = engine.get_board().clone();
    let from = (0, 0);
    let to = (0, 1);
    engine.apply_move(from, to);
    let moved_board = engine.get_board();
    assert_ne!(&initial_board, moved_board);
    assert_eq!(moved_board.get_piece(to.0, to.1), initial_board.get_piece(from.0, from.1));
    assert_eq!(moved_board.get_piece(from.0, from.1), None);
}

#[test]
fn test_search_start_position_first_move() {
    // Rank-major, file-minor: the rook at (0,0) is blocked, so the first
    // target comes from the knight at (0,1), whose first in-order offset
    // landing on the board and off its own side is (2,0).
    let mut engine = ChessEngine::new();
    assert_eq!(engine.search(), Some((2, 0)));
}

#[test]
fn test_apply_move_from_empty_cell_clears_target() {
    let mut engine = ChessEngine::new();
    engine.apply_move((3, 3), (0, 0));
    assert_eq!(engine.get_board().get_piece(0, 0), None);
    assert_eq!(engine.get_board().get_piece(3, 3), None);
}
