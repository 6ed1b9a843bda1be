use chess_backend::board::{Board, Color, Piece, PieceType};

#[test]
fn test_board_initialization() {
    let board = Board::new();
    assert_eq!(
        board.get_piece(0, 0),
        Some(Piece { piece_type: PieceType::Rook, color: Color::White })
    );
    assert_eq!(
        board.get_piece(0, 1),
        Some(Piece { piece_type: PieceType::Knight, color: Color::White })
    );
    assert_eq!(
        board.get_piece(7, 0),
        Some(Piece { piece_type: PieceType::Rook, color: Color::Black })
    );
    assert_eq!(
        board.get_piece(7, 7),
        Some(Piece { piece_type: PieceType::Rook, color: Color::Black })
    );
    assert_eq!(board.get_piece(3, 3), None);
}

#[test]
fn test_set_and_get_piece() {
    let mut board = Board::new();
    let new_piece = Piece { piece_type: PieceType::Queen, color: Color::White };
    board.set_piece(4, 4, Some(new_piece));
    assert_eq!(board.get_piece(4, 4), Some(new_piece));
    board.set_piece(4, 4, None);
    assert_eq!(board.get_piece(4, 4), None);
}

#[test]
fn test_display_board() {
    let board = Board::new();
    let display_string = board.display();
    println!("{}", display_string);
    assert!(display_string.len() > 0);
}

#[test]
fn test_display_start_layout() {
    let board = Board::new();
    let expected = "r n b q k b n r \n\
                    p p p p p p p p \n\
                    . . . . . . . . \n\
                    . . . . . . . . \n\
                    . . . . . . . . \n\
                    . . . . . . . . \n\
                    P P P P P P P P \n\
                    R N B Q K B N R \n";
    assert_eq!(board.display(), expected);
}

#[test]
fn test_out_of_range_access_is_no_cell() {
    let mut board = Board::new();
    assert_eq!(board.get_piece(8, 0), None);
    assert_eq!(board.get_piece(0, 8), None);
    board.set_piece(9, 9, Some(Piece { piece_type: PieceType::Queen, color: Color::White }));
    assert_eq!(board.get_piece(9, 9), None);
    assert_eq!(board, Board::new());
}
