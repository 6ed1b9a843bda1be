//! Per-piece pseudo-legal move enumeration.
//!
//! `generate_moves` returns the target cells reachable from one cell, in a
//! fixed order, without any check or pin filtering. The spec functions below
//! give the exact sequence for each piece kind; `moves_for` is the dispatch
//! that `generate_moves` is proved against.

use vstd::prelude::*;
use vstd::seq_lib::lemma_concat_associative;
use crate::board::{Board, Color, Piece, PieceType, in_bounds};

verus! {

broadcast use vstd::seq_lib::group_seq_lib_default;

/// A target cell as the generator returns it; meaningful for in-range values.
pub open spec fn cell(rank: int, file: int) -> (usize, usize) {
    (rank as usize, file as usize)
}

/// True when the cell content `p` is a piece of side `c`.
pub open spec fn same_side(p: Option<Piece>, c: Color) -> bool {
    match p {
        Some(q) => q.color == c,
        None => false,
    }
}

/// True when the cell content `p` is a piece of the side opposing `c`.
pub open spec fn opposing(p: Option<Piece>, c: Color) -> bool {
    match p {
        Some(q) => q.color != c,
        None => false,
    }
}

/// Rank step of a pawn: White advances toward higher ranks, Black toward lower.
pub open spec fn pawn_dir(c: Color) -> int {
    match c {
        Color::White => 1,
        Color::Black => -1,
    }
}

/// Forward pushes of a pawn: a single push onto an empty forward cell and,
/// from the side's start rank, a double push. The double push is offered only
/// when the single push is (so the cell stepped over is the empty single-push
/// target) and its own destination cell is empty.
pub open spec fn pawn_push_targets(b: Board, rank: int, file: int, c: Color) -> Seq<
    (usize, usize),
> {
    let nr = rank + pawn_dir(c);
    if in_bounds(nr, file) && b.piece_at(nr, file) is None {
        if (rank == 1 && c == Color::White) || (rank == 6 && c == Color::Black) {
            let dr = rank + 2 * pawn_dir(c);
            if b.piece_at(dr, file) is None {
                seq![cell(nr, file), cell(dr, file)]
            } else {
                seq![cell(nr, file)]
            }
        } else {
            seq![cell(nr, file)]
        }
    } else {
        Seq::empty()
    }
}

/// Diagonal capture of a pawn toward file offset `df`: present exactly when
/// the forward-diagonal cell is on the board and holds an opposing piece.
pub open spec fn pawn_capture_target(b: Board, rank: int, file: int, c: Color, df: int) -> Seq<
    (usize, usize),
> {
    let nr = rank + pawn_dir(c);
    let nf = file + df;
    if in_bounds(nr, nf) && opposing(b.piece_at(nr, nf), c) {
        seq![cell(nr, nf)]
    } else {
        Seq::empty()
    }
}

/// All pawn targets: pushes, then the lower-file capture, then the higher-file
/// capture.
pub open spec fn pawn_targets(b: Board, rank: int, file: int, c: Color) -> Seq<(usize, usize)> {
    pawn_push_targets(b, rank, file, c) + pawn_capture_target(b, rank, file, c, -1)
        + pawn_capture_target(b, rank, file, c, 1)
}

/// A fixed-offset target (knight or king): present exactly when the cell is on
/// the board and is not occupied by a same-side piece.
pub open spec fn offset_target(b: Board, rank: int, file: int, c: Color, dr: int, df: int) -> Seq<
    (usize, usize),
> {
    let nr = rank + dr;
    let nf = file + df;
    if in_bounds(nr, nf) && !same_side(b.piece_at(nr, nf), c) {
        seq![cell(nr, nf)]
    } else {
        Seq::empty()
    }
}

/// The knight's eight offsets, in generation order.
pub open spec fn knight_targets(b: Board, rank: int, file: int, c: Color) -> Seq<(usize, usize)> {
    offset_target(b, rank, file, c, -2, -1) + offset_target(b, rank, file, c, -2, 1)
        + offset_target(b, rank, file, c, -1, -2) + offset_target(b, rank, file, c, -1, 2)
        + offset_target(b, rank, file, c, 1, -2) + offset_target(b, rank, file, c, 1, 2)
        + offset_target(b, rank, file, c, 2, -1) + offset_target(b, rank, file, c, 2, 1)
}

/// The king's eight unit offsets, in generation order.
pub open spec fn king_targets(b: Board, rank: int, file: int, c: Color) -> Seq<(usize, usize)> {
    offset_target(b, rank, file, c, -1, -1) + offset_target(b, rank, file, c, -1, 0)
        + offset_target(b, rank, file, c, -1, 1) + offset_target(b, rank, file, c, 0, -1)
        + offset_target(b, rank, file, c, 0, 1) + offset_target(b, rank, file, c, 1, -1)
        + offset_target(b, rank, file, c, 1, 0) + offset_target(b, rank, file, c, 1, 1)
}

/// True for the eight unit directions a ray can walk.
pub open spec fn is_ray_dir(dr: int, df: int) -> bool {
    -1 <= dr <= 1 && -1 <= df <= 1 && !(dr == 0 && df == 0)
}

/// Steps left before a walk in direction (dr, df) must leave the board.
pub open spec fn ray_fuel(rank: int, file: int, dr: int, df: int) -> int {
    (if dr == 1 {
        8 - rank
    } else if dr == -1 {
        rank + 1
    } else {
        0
    }) + (if df == 1 {
        8 - file
    } else if df == -1 {
        file + 1
    } else {
        0
    })
}

/// The cells of one ray-walk from (rank, file) in direction (dr, df): empty
/// cells are taken and the walk continues; a cell held by the opposing side is
/// taken and ends the walk; a same-side cell or the board edge ends the walk
/// without being taken.
pub open spec fn ray_targets(b: Board, rank: int, file: int, c: Color, dr: int, df: int) -> Seq<
    (usize, usize),
>
    decreases ray_fuel(rank, file, dr, df),
        when is_ray_dir(dr, df) && in_bounds(rank, file)
{
    let nr = rank + dr;
    let nf = file + df;
    if !in_bounds(nr, nf) {
        Seq::empty()
    } else if same_side(b.piece_at(nr, nf), c) {
        Seq::empty()
    } else if b.piece_at(nr, nf) is Some {
        seq![cell(nr, nf)]
    } else {
        seq![cell(nr, nf)] + ray_targets(b, nr, nf, c, dr, df)
    }
}

/// The rook's four orthogonal rays, in generation order.
pub open spec fn rook_targets(b: Board, rank: int, file: int, c: Color) -> Seq<(usize, usize)> {
    ray_targets(b, rank, file, c, 1, 0) + ray_targets(b, rank, file, c, -1, 0)
        + ray_targets(b, rank, file, c, 0, 1) + ray_targets(b, rank, file, c, 0, -1)
}

/// The bishop's four diagonal rays, in generation order.
pub open spec fn bishop_targets(b: Board, rank: int, file: int, c: Color) -> Seq<(usize, usize)> {
    ray_targets(b, rank, file, c, 1, 1) + ray_targets(b, rank, file, c, 1, -1)
        + ray_targets(b, rank, file, c, -1, 1) + ray_targets(b, rank, file, c, -1, -1)
}

/// The queen's targets: the rook rays followed by the bishop rays.
pub open spec fn queen_targets(b: Board, rank: int, file: int, c: Color) -> Seq<(usize, usize)> {
    rook_targets(b, rank, file, c) + bishop_targets(b, rank, file, c)
}

/// What `generate_moves` returns: empty for an out-of-range or empty cell,
/// otherwise the targets of the piece found there.
pub open spec fn moves_for(b: Board, rank: int, file: int) -> Seq<(usize, usize)> {
    if !in_bounds(rank, file) {
        Seq::empty()
    } else {
        match b.piece_at(rank, file) {
            None => Seq::empty(),
            Some(p) => match p.piece_type {
                PieceType::Pawn => pawn_targets(b, rank, file, p.color),
                PieceType::Rook => rook_targets(b, rank, file, p.color),
                PieceType::Knight => knight_targets(b, rank, file, p.color),
                PieceType::Bishop => bishop_targets(b, rank, file, p.color),
                PieceType::Queen => queen_targets(b, rank, file, p.color),
                PieceType::King => king_targets(b, rank, file, p.color),
            },
        }
    }
}

pub fn generate_moves(board: &Board, rank: usize, file: usize) -> (moves: Vec<(usize, usize)>)
    ensures
        moves@ == moves_for(*board, rank as int, file as int),
{
    let mut moves: Vec<(usize, usize)> = Vec::new();

    if rank > 7 || file > 7 {
        return moves;
    }
    let piece_option = board.get_piece(rank, file);
    if piece_option.is_none() {
        return moves;
    }
    let piece = piece_option.unwrap();

    match piece.piece_type {
        PieceType::Pawn => {
            generate_pawn_moves(board, rank, file, piece.color, &mut moves);
        },
        PieceType::Rook => {
            generate_rook_moves(board, rank, file, piece.color, &mut moves);
        },
        PieceType::Knight => {
            generate_knight_moves(board, rank, file, piece.color, &mut moves);
        },
        PieceType::Bishop => {
            generate_bishop_moves(board, rank, file, piece.color, &mut moves);
        },
        PieceType::Queen => {
            generate_queen_moves(board, rank, file, piece.color, &mut moves);
        },
        PieceType::King => {
            generate_king_moves(board, rank, file, piece.color, &mut moves);
        },
    }

    assert(moves@ =~= moves_for(*board, rank as int, file as int));
    moves
}

#[verifier::rlimit(50)]
fn generate_pawn_moves(
    board: &Board,
    rank: usize,
    file: usize,
    color: Color,
    moves: &mut Vec<(usize, usize)>,
)
    requires
        rank < 8,
        file < 8,
    ensures
        final(moves)@ == old(moves)@ + pawn_targets(*board, rank as int, file as int, color),
{
    let forward: Option<usize> = match color {
        Color::White => if rank + 1 < 8 {
            Some(rank + 1)
        } else {
            None
        },
        Color::Black => if rank >= 1 {
            Some(rank - 1)
        } else {
            None
        },
    };

    if let Some(new_rank) = forward {
        if board.get_piece(new_rank, file).is_none() {
            moves.push((new_rank, file));

            if (rank == 1 && color == Color::White) || (rank == 6 && color == Color::Black) {
                let double_new_rank = if rank == 1 {
                    rank + 2
                } else {
                    rank - 2
                };
                if board.get_piece(double_new_rank, file).is_none() {
                    moves.push((double_new_rank, file));
                }
            }
        }
        if file >= 1 {
            if let Some(captured_piece) = board.get_piece(new_rank, file - 1) {
                if captured_piece.color != color {
                    moves.push((new_rank, file - 1));
                }
            }
        }
        if file + 1 < 8 {
            if let Some(captured_piece) = board.get_piece(new_rank, file + 1) {
                if captured_piece.color != color {
                    moves.push((new_rank, file + 1));
                }
            }
        }
    }
    assert(moves@ =~= old(moves)@ + pawn_targets(
        *board,
        rank as int,
        file as int,
        color,
    ));
}

fn generate_rook_moves(
    board: &Board,
    rank: usize,
    file: usize,
    color: Color,
    moves: &mut Vec<(usize, usize)>,
)
    requires
        rank < 8,
        file < 8,
    ensures
        final(moves)@ == old(moves)@ + rook_targets(*board, rank as int, file as int, color),
{
    generate_straight_moves(board, rank, file, color, moves, 1, 0);
    generate_straight_moves(board, rank, file, color, moves, -1, 0);
    generate_straight_moves(board, rank, file, color, moves, 0, 1);
    generate_straight_moves(board, rank, file, color, moves, 0, -1);
    assert(moves@ =~= old(moves)@ + rook_targets(*board, rank as int, file as int, color));
}

fn generate_bishop_moves(
    board: &Board,
    rank: usize,
    file: usize,
    color: Color,
    moves: &mut Vec<(usize, usize)>,
)
    requires
        rank < 8,
        file < 8,
    ensures
        final(moves)@ == old(moves)@ + bishop_targets(*board, rank as int, file as int, color),
{
    generate_diagonal_moves(board, rank, file, color, moves, 1, 1);
    generate_diagonal_moves(board, rank, file, color, moves, 1, -1);
    generate_diagonal_moves(board, rank, file, color, moves, -1, 1);
    generate_diagonal_moves(board, rank, file, color, moves, -1, -1);
    assert(moves@ =~= old(moves)@ + bishop_targets(
        *board,
        rank as int,
        file as int,
        color,
    ));
}

#[verifier::rlimit(50)]
fn generate_queen_moves(
    board: &Board,
    rank: usize,
    file: usize,
    color: Color,
    moves: &mut Vec<(usize, usize)>,
)
    requires
        rank < 8,
        file < 8,
    ensures
        final(moves)@ == old(moves)@ + queen_targets(*board, rank as int, file as int, color),
{
    generate_straight_moves(board, rank, file, color, moves, 1, 0);
    generate_straight_moves(board, rank, file, color, moves, -1, 0);
    generate_straight_moves(board, rank, file, color, moves, 0, 1);
    generate_straight_moves(board, rank, file, color, moves, 0, -1);
    generate_diagonal_moves(board, rank, file, color, moves, 1, 1);
    generate_diagonal_moves(board, rank, file, color, moves, 1, -1);
    generate_diagonal_moves(board, rank, file, color, moves, -1, 1);
    generate_diagonal_moves(board, rank, file, color, moves, -1, -1);
    proof {
        let r1 = ray_targets(*board, rank as int, file as int, color, 1, 0);
        let r2 = ray_targets(*board, rank as int, file as int, color, -1, 0);
        let r3 = ray_targets(*board, rank as int, file as int, color, 0, 1);
        let r4 = ray_targets(*board, rank as int, file as int, color, 0, -1);
        let d1 = ray_targets(*board, rank as int, file as int, color, 1, 1);
        let d2 = ray_targets(*board, rank as int, file as int, color, 1, -1);
        let d3 = ray_targets(*board, rank as int, file as int, color, -1, 1);
        let d4 = ray_targets(*board, rank as int, file as int, color, -1, -1);
        lemma_concat_associative(old(moves)@, r1, r2);
        lemma_concat_associative(old(moves)@, r1 + r2, r3);
        lemma_concat_associative(old(moves)@, r1 + r2 + r3, r4);
        lemma_concat_associative(old(moves)@, r1 + r2 + r3 + r4, d1);
        lemma_concat_associative(old(moves)@, r1 + r2 + r3 + r4 + d1, d2);
        lemma_concat_associative(old(moves)@, r1 + r2 + r3 + r4 + d1 + d2, d3);
        lemma_concat_associative(old(moves)@, r1 + r2 + r3 + r4 + d1 + d2 + d3, d4);
        lemma_concat_associative(r1 + r2 + r3 + r4, d1, d2);
        lemma_concat_associative(r1 + r2 + r3 + r4, d1 + d2, d3);
        lemma_concat_associative(r1 + r2 + r3 + r4, d1 + d2 + d3, d4);
    }
}

#[verifier::rlimit(50)]
fn generate_king_moves(
    board: &Board,
    rank: usize,
    file: usize,
    color: Color,
    moves: &mut Vec<(usize, usize)>,
)
    requires
        rank < 8,
        file < 8,
    ensures
        final(moves)@ == old(moves)@ + king_targets(*board, rank as int, file as int, color),
{
    generate_offset_move(board, rank, file, color, moves, -1, -1);
    generate_offset_move(board, rank, file, color, moves, -1, 0);
    generate_offset_move(board, rank, file, color, moves, -1, 1);
    generate_offset_move(board, rank, file, color, moves, 0, -1);
    generate_offset_move(board, rank, file, color, moves, 0, 1);
    generate_offset_move(board, rank, file, color, moves, 1, -1);
    generate_offset_move(board, rank, file, color, moves, 1, 0);
    generate_offset_move(board, rank, file, color, moves, 1, 1);
    proof {
        let b0 = offset_target(*board, rank as int, file as int, color, -1, -1);
        let b1 = offset_target(*board, rank as int, file as int, color, -1, 0);
        let b2 = offset_target(*board, rank as int, file as int, color, -1, 1);
        let b3 = offset_target(*board, rank as int, file as int, color, 0, -1);
        let b4 = offset_target(*board, rank as int, file as int, color, 0, 1);
        let b5 = offset_target(*board, rank as int, file as int, color, 1, -1);
        let b6 = offset_target(*board, rank as int, file as int, color, 1, 0);
        let b7 = offset_target(*board, rank as int, file as int, color, 1, 1);
        lemma_concat_associative(old(moves)@, b0, b1);
        lemma_concat_associative(old(moves)@, b0 + b1, b2);
        lemma_concat_associative(old(moves)@, b0 + b1 + b2, b3);
        lemma_concat_associative(old(moves)@, b0 + b1 + b2 + b3, b4);
        lemma_concat_associative(old(moves)@, b0 + b1 + b2 + b3 + b4, b5);
        lemma_concat_associative(old(moves)@, b0 + b1 + b2 + b3 + b4 + b5, b6);
        lemma_concat_associative(old(moves)@, b0 + b1 + b2 + b3 + b4 + b5 + b6, b7);
    }
}

#[verifier::rlimit(50)]
fn generate_knight_moves(
    board: &Board,
    rank: usize,
    file: usize,
    color: Color,
    moves: &mut Vec<(usize, usize)>,
)
    requires
        rank < 8,
        file < 8,
    ensures
        final(moves)@ == old(moves)@ + knight_targets(*board, rank as int, file as int, color),
{
    generate_offset_move(board, rank, file, color, moves, -2, -1);
    generate_offset_move(board, rank, file, color, moves, -2, 1);
    generate_offset_move(board, rank, file, color, moves, -1, -2);
    generate_offset_move(board, rank, file, color, moves, -1, 2);
    generate_offset_move(board, rank, file, color, moves, 1, -2);
    generate_offset_move(board, rank, file, color, moves, 1, 2);
    generate_offset_move(board, rank, file, color, moves, 2, -1);
    generate_offset_move(board, rank, file, color, moves, 2, 1);
    proof {
        let b0 = offset_target(*board, rank as int, file as int, color, -2, -1);
        let b1 = offset_target(*board, rank as int, file as int, color, -2, 1);
        let b2 = offset_target(*board, rank as int, file as int, color, -1, -2);
        let b3 = offset_target(*board, rank as int, file as int, color, -1, 2);
        let b4 = offset_target(*board, rank as int, file as int, color, 1, -2);
        let b5 = offset_target(*board, rank as int, file as int, color, 1, 2);
        let b6 = offset_target(*board, rank as int, file as int, color, 2, -1);
        let b7 = offset_target(*board, rank as int, file as int, color, 2, 1);
        lemma_concat_associative(old(moves)@, b0, b1);
        lemma_concat_associative(old(moves)@, b0 + b1, b2);
        lemma_concat_associative(old(moves)@, b0 + b1 + b2, b3);
        lemma_concat_associative(old(moves)@, b0 + b1 + b2 + b3, b4);
        lemma_concat_associative(old(moves)@, b0 + b1 + b2 + b3 + b4, b5);
        lemma_concat_associative(old(moves)@, b0 + b1 + b2 + b3 + b4 + b5, b6);
        lemma_concat_associative(old(moves)@, b0 + b1 + b2 + b3 + b4 + b5 + b6, b7);
    }
}

/// One fixed-offset candidate, shared by the knight and king generators.
fn generate_offset_move(
    board: &Board,
    rank: usize,
    file: usize,
    color: Color,
    moves: &mut Vec<(usize, usize)>,
    delta_rank: i8,
    delta_file: i8,
)
    requires
        rank < 8,
        file < 8,
        -2 <= delta_rank <= 2,
        -2 <= delta_file <= 2,
    ensures
        final(moves)@ == old(moves)@ + offset_target(
            *board,
            rank as int,
            file as int,
            color,
            delta_rank as int,
            delta_file as int,
        ),
{
    let new_rank = rank as i8 + delta_rank;
    let new_file = file as i8 + delta_file;

    if 0 <= new_rank && new_rank < 8 && 0 <= new_file && new_file < 8 {
        match board.get_piece(new_rank as usize, new_file as usize) {
            Some(target_piece) => {
                if target_piece.color != color {
                    moves.push((new_rank as usize, new_file as usize));
                }
            },
            None => {
                moves.push((new_rank as usize, new_file as usize));
            },
        }
    }
    assert(moves@ =~= old(moves)@ + offset_target(
        *board,
        rank as int,
        file as int,
        color,
        delta_rank as int,
        delta_file as int,
    ));
}

fn generate_straight_moves(
    board: &Board,
    rank: usize,
    file: usize,
    color: Color,
    moves: &mut Vec<(usize, usize)>,
    rank_direction: i8,
    file_direction: i8,
)
    requires
        rank < 8,
        file < 8,
        is_ray_dir(rank_direction as int, file_direction as int),
    ensures
        final(moves)@ == old(moves)@ + ray_targets(
            *board,
            rank as int,
            file as int,
            color,
            rank_direction as int,
            file_direction as int,
        ),
{
    let mut current_rank: i8 = rank as i8 + rank_direction;
    let mut current_file: i8 = file as i8 + file_direction;

    while 0 <= current_rank && current_rank < 8 && 0 <= current_file && current_file < 8
        invariant_except_break
            is_ray_dir(rank_direction as int, file_direction as int),
            in_bounds(
                current_rank as int - rank_direction as int,
                current_file as int - file_direction as int,
            ),
            -1 <= current_rank as int <= 8,
            -1 <= current_file as int <= 8,
            old(moves)@ + ray_targets(
                *board,
                rank as int,
                file as int,
                color,
                rank_direction as int,
                file_direction as int,
            ) == moves@ + ray_targets(
                *board,
                current_rank as int - rank_direction as int,
                current_file as int - file_direction as int,
                color,
                rank_direction as int,
                file_direction as int,
            ),
        ensures
            moves@ == old(moves)@ + ray_targets(
                *board,
                rank as int,
                file as int,
                color,
                rank_direction as int,
                file_direction as int,
            ),
        decreases ray_fuel(
            current_rank as int - rank_direction as int,
            current_file as int - file_direction as int,
            rank_direction as int,
            file_direction as int,
        ),
    {
        let new_rank = current_rank as usize;
        let new_file = current_file as usize;
        if let Some(target_piece) = board.get_piece(new_rank, new_file) {
            if target_piece.color != color {
                moves.push((new_rank, new_file));
            }
            break ;
        } else {
            moves.push((new_rank, new_file));
        }
        current_rank = current_rank + rank_direction;
        current_file = current_file + file_direction;
    }
}

fn generate_diagonal_moves(
    board: &Board,
    rank: usize,
    file: usize,
    color: Color,
    moves: &mut Vec<(usize, usize)>,
    rank_direction: i8,
    file_direction: i8,
)
    requires
        rank < 8,
        file < 8,
        is_ray_dir(rank_direction as int, file_direction as int),
    ensures
        final(moves)@ == old(moves)@ + ray_targets(
            *board,
            rank as int,
            file as int,
            color,
            rank_direction as int,
            file_direction as int,
        ),
{
    let mut current_rank: i8 = rank as i8 + rank_direction;
    let mut current_file: i8 = file as i8 + file_direction;

    while 0 <= current_rank && current_rank < 8 && 0 <= current_file && current_file < 8
        invariant_except_break
            is_ray_dir(rank_direction as int, file_direction as int),
            in_bounds(
                current_rank as int - rank_direction as int,
                current_file as int - file_direction as int,
            ),
            -1 <= current_rank as int <= 8,
            -1 <= current_file as int <= 8,
            old(moves)@ + ray_targets(
                *board,
                rank as int,
                file as int,
                color,
                rank_direction as int,
                file_direction as int,
            ) == moves@ + ray_targets(
                *board,
                current_rank as int - rank_direction as int,
                current_file as int - file_direction as int,
                color,
                rank_direction as int,
                file_direction as int,
            ),
        ensures
            moves@ == old(moves)@ + ray_targets(
                *board,
                rank as int,
                file as int,
                color,
                rank_direction as int,
                file_direction as int,
            ),
        decreases ray_fuel(
            current_rank as int - rank_direction as int,
            current_file as int - file_direction as int,
            rank_direction as int,
            file_direction as int,
        ),
    {
        let new_rank = current_rank as usize;
        let new_file = current_file as usize;
        if let Some(target_piece) = board.get_piece(new_rank, new_file) {
            if target_piece.color != color {
                moves.push((new_rank, new_file));
            }
            break ;
        } else {
            moves.push((new_rank, new_file));
        }
        current_rank = current_rank + rank_direction;
        current_file = current_file + file_direction;
    }
}

/// The cell `k` steps from (rank, file) along direction (dr, df).
pub open spec fn ray_cell(rank: int, file: int, dr: int, df: int, k: int) -> (int, int)
    decreases k,
        when k >= 0
{
    if k <= 0 {
        (rank, file)
    } else {
        ray_cell(rank + dr, file + df, dr, df, k - 1)
    }
}

proof fn lemma_ray_cell_bounds(rank: int, file: int, dr: int, df: int, k: int)
    requires
        k >= 1,
        is_ray_dir(dr, df),
    ensures
        dr == 1 ==> ray_cell(rank, file, dr, df, k).0 >= rank + 1,
        dr == -1 ==> ray_cell(rank, file, dr, df, k).0 <= rank - 1,
        dr == 0 ==> ray_cell(rank, file, dr, df, k).0 == rank,
        df == 1 ==> ray_cell(rank, file, dr, df, k).1 >= file + 1,
        df == -1 ==> ray_cell(rank, file, dr, df, k).1 <= file - 1,
        df == 0 ==> ray_cell(rank, file, dr, df, k).1 == file,
    decreases k,
{
    if k == 1 {
        assert(ray_cell(rank + dr, file + df, dr, df, 0) == (rank + dr, file + df));
    } else {
        lemma_ray_cell_bounds(rank + dr, file + df, dr, df, k - 1);
    }
}

/// Law: along one ray, generation stops at the first occupied cell. The
/// walk's elements are exactly the consecutive ray cells `1..=len`, all on
/// the board; every element but the last sits on an empty cell; the last
/// element's cell is empty or holds an opposing piece (a capture, included
/// exactly once as the final element, with nothing beyond it); and when the
/// walk did not end in a capture, the next ray cell is off the board or
/// holds a same-side piece (which is excluded, with nothing beyond it).
pub proof fn lemma_ray_shape(b: Board, rank: int, file: int, c: Color, dr: int, df: int)
    requires
        is_ray_dir(dr, df),
        in_bounds(rank, file),
    ensures
        forall|k: int| 1 <= k <= ray_targets(b, rank, file, c, dr, df).len() ==> {
            let t = #[trigger] ray_cell(rank, file, dr, df, k);
            in_bounds(t.0, t.1) && ray_targets(b, rank, file, c, dr, df)[k - 1] == cell(t.0, t.1)
        },
        forall|k: int| 1 <= k < ray_targets(b, rank, file, c, dr, df).len() ==> {
            let t = #[trigger] ray_cell(rank, file, dr, df, k);
            b.piece_at(t.0, t.1) is None
        },
        ray_targets(b, rank, file, c, dr, df).len() > 0 ==> {
            let t = ray_cell(
                rank,
                file,
                dr,
                df,
                ray_targets(b, rank, file, c, dr, df).len() as int,
            );
            !same_side(b.piece_at(t.0, t.1), c)
        },
        ({
            let l = ray_targets(b, rank, file, c, dr, df).len() as int;
            let last = ray_cell(rank, file, dr, df, l);
            let beyond = ray_cell(rank, file, dr, df, l + 1);
            (l == 0 || b.piece_at(last.0, last.1) is None) ==> (!in_bounds(beyond.0, beyond.1)
                || same_side(b.piece_at(beyond.0, beyond.1), c))
        }),
    decreases ray_fuel(rank, file, dr, df),
{
    let s = ray_targets(b, rank, file, c, dr, df);
    let nr = rank + dr;
    let nf = file + df;
    assert(ray_cell(nr, nf, dr, df, 0) == (nr, nf));
    assert(ray_cell(rank, file, dr, df, 1) == (nr, nf));
    assert(forall|k: int|
        k >= 1 ==> #[trigger] ray_cell(rank, file, dr, df, k) == ray_cell(nr, nf, dr, df, k - 1));
    if !in_bounds(nr, nf) {
    } else if same_side(b.piece_at(nr, nf), c) {
    } else if b.piece_at(nr, nf) is Some {
        assert(s =~= seq![cell(nr, nf)]);
    } else {
        lemma_ray_shape(b, nr, nf, c, dr, df);
        let s2 = ray_targets(b, nr, nf, c, dr, df);
        assert(s == seq![cell(nr, nf)] + s2);
        assert forall|k: int| 1 <= k <= s.len() implies {
            let t = #[trigger] ray_cell(rank, file, dr, df, k);
            in_bounds(t.0, t.1) && s[k - 1] == cell(t.0, t.1)
        } by {
            if k > 1 {
                assert(s[k - 1] == s2[k - 2]);
                assert(ray_cell(rank, file, dr, df, k) == ray_cell(nr, nf, dr, df, k - 1));
            }
        }
        assert forall|k: int| 1 <= k < s.len() implies {
            let t = #[trigger] ray_cell(rank, file, dr, df, k);
            b.piece_at(t.0, t.1) is None
        } by {
            if k > 1 {
                assert(ray_cell(rank, file, dr, df, k) == ray_cell(nr, nf, dr, df, k - 1));
            }
        }
    }
}

/// All the per-target facts the laws need of one generated target `t` of a
/// piece of side `c` standing at (rank, file).
pub open spec fn good_target(b: Board, rank: int, file: int, c: Color, t: (usize, usize)) -> bool {
    &&& t.0 < 8
    &&& t.1 < 8
    &&& t != cell(rank, file)
    &&& !same_side(b.piece_at(t.0 as int, t.1 as int), c)
}

proof fn lemma_add_all<A>(a: Seq<A>, b: Seq<A>, pred: spec_fn(A) -> bool)
    requires
        forall|i: int| 0 <= i < a.len() ==> pred(#[trigger] a[i]),
        forall|i: int| 0 <= i < b.len() ==> pred(#[trigger] b[i]),
    ensures
        forall|i: int| 0 <= i < (a + b).len() ==> pred(#[trigger] (a + b)[i]),
{
    assert forall|i: int| 0 <= i < (a + b).len() implies pred((a + b)[i]) by {
        if i < a.len() {
            assert((a + b)[i] == a[i]);
        } else {
            assert((a + b)[i] == b[i - a.len()]);
        }
    }
}

proof fn lemma_ray_elements(b: Board, rank: int, file: int, c: Color, dr: int, df: int)
    requires
        is_ray_dir(dr, df),
        in_bounds(rank, file),
    ensures
        forall|k: int| 0 <= k < ray_targets(b, rank, file, c, dr, df).len() ==> good_target(
            b,
            rank,
            file,
            c,
            #[trigger] ray_targets(b, rank, file, c, dr, df)[k],
        ),
{
    lemma_ray_shape(b, rank, file, c, dr, df);
    let s = ray_targets(b, rank, file, c, dr, df);
    assert forall|k: int| 0 <= k < s.len() implies good_target(b, rank, file, c, s[k]) by {
        let rc = ray_cell(rank, file, dr, df, k + 1);
        assert(in_bounds(rc.0, rc.1) && s[k] == cell(rc.0, rc.1));
        lemma_ray_cell_bounds(rank, file, dr, df, k + 1);
        if k + 1 < s.len() {
            assert(b.piece_at(rc.0, rc.1) is None);
        } else {
            assert(!same_side(b.piece_at(rc.0, rc.1), c));
        }
    }
}

proof fn lemma_pawn_push_elements(b: Board, rank: int, file: int, c: Color)
    requires
        in_bounds(rank, file),
    ensures
        forall|i: int| 0 <= i < pawn_push_targets(b, rank, file, c).len() ==> good_target(
            b,
            rank,
            file,
            c,
            #[trigger] pawn_push_targets(b, rank, file, c)[i],
        ),
{
}

proof fn lemma_pawn_capture_elements(b: Board, rank: int, file: int, c: Color, df: int)
    requires
        in_bounds(rank, file),
    ensures
        forall|i: int| 0 <= i < pawn_capture_target(b, rank, file, c, df).len() ==> good_target(
            b,
            rank,
            file,
            c,
            #[trigger] pawn_capture_target(b, rank, file, c, df)[i],
        ),
{
}

proof fn lemma_offset_elements(b: Board, rank: int, file: int, c: Color, dr: int, df: int)
    requires
        in_bounds(rank, file),
        -2 <= dr <= 2,
        -2 <= df <= 2,
        !(dr == 0 && df == 0),
    ensures
        forall|i: int| 0 <= i < offset_target(b, rank, file, c, dr, df).len() ==> good_target(
            b,
            rank,
            file,
            c,
            #[trigger] offset_target(b, rank, file, c, dr, df)[i],
        ),
{
}

proof fn lemma_moves_elements(b: Board, rank: int, file: int, p: Piece)
    requires
        b.piece_at(rank, file) == Some(p),
    ensures
        forall|k: int| 0 <= k < moves_for(b, rank, file).len() ==> good_target(
            b,
            rank,
            file,
            p.color,
            #[trigger] moves_for(b, rank, file)[k],
        ),
{
    let c = p.color;
    let pred = |t: (usize, usize)| good_target(b, rank, file, c, t);
    assert(in_bounds(rank, file));
    match p.piece_type {
        PieceType::Pawn => {
            let push = pawn_push_targets(b, rank, file, c);
            let capm = pawn_capture_target(b, rank, file, c, -1);
            let capp = pawn_capture_target(b, rank, file, c, 1);
            lemma_pawn_push_elements(b, rank, file, c);
            lemma_pawn_capture_elements(b, rank, file, c, -1);
            lemma_pawn_capture_elements(b, rank, file, c, 1);
            lemma_add_all(push, capm, pred);
            lemma_add_all(push + capm, capp, pred);
            assert(moves_for(b, rank, file) == push + capm + capp);
        },
        PieceType::Knight => {
            let o0 = offset_target(b, rank, file, c, -2, -1);
            let o1 = offset_target(b, rank, file, c, -2, 1);
            let o2 = offset_target(b, rank, file, c, -1, -2);
            let o3 = offset_target(b, rank, file, c, -1, 2);
            let o4 = offset_target(b, rank, file, c, 1, -2);
            let o5 = offset_target(b, rank, file, c, 1, 2);
            let o6 = offset_target(b, rank, file, c, 2, -1);
            let o7 = offset_target(b, rank, file, c, 2, 1);
            lemma_offset_elements(b, rank, file, c, -2, -1);
            lemma_offset_elements(b, rank, file, c, -2, 1);
            lemma_offset_elements(b, rank, file, c, -1, -2);
            lemma_offset_elements(b, rank, file, c, -1, 2);
            lemma_offset_elements(b, rank, file, c, 1, -2);
            lemma_offset_elements(b, rank, file, c, 1, 2);
            lemma_offset_elements(b, rank, file, c, 2, -1);
            lemma_offset_elements(b, rank, file, c, 2, 1);
            lemma_add_all(o0, o1, pred);
            lemma_add_all(o0 + o1, o2, pred);
            lemma_add_all(o0 + o1 + o2, o3, pred);
            lemma_add_all(o0 + o1 + o2 + o3, o4, pred);
            lemma_add_all(o0 + o1 + o2 + o3 + o4, o5, pred);
            lemma_add_all(o0 + o1 + o2 + o3 + o4 + o5, o6, pred);
            lemma_add_all(o0 + o1 + o2 + o3 + o4 + o5 + o6, o7, pred);
            assert(moves_for(b, rank, file) == o0 + o1 + o2 + o3 + o4 + o5 + o6 + o7);
        },
        PieceType::King => {
            let o0 = offset_target(b, rank, file, c, -1, -1);
            let o1 = offset_target(b, rank, file, c, -1, 0);
            let o2 = offset_target(b, rank, file, c, -1, 1);
            let o3 = offset_target(b, rank, file, c, 0, -1);
            let o4 = offset_target(b, rank, file, c, 0, 1);
            let o5 = offset_target(b, rank, file, c, 1, -1);
            let o6 = offset_target(b, rank, file, c, 1, 0);
            let o7 = offset_target(b, rank, file, c, 1, 1);
            lemma_offset_elements(b, rank, file, c, -1, -1);
            lemma_offset_elements(b, rank, file, c, -1, 0);
            lemma_offset_elements(b, rank, file, c, -1, 1);
            lemma_offset_elements(b, rank, file, c, 0, -1);
            lemma_offset_elements(b, rank, file, c, 0, 1);
            lemma_offset_elements(b, rank, file, c, 1, -1);
            lemma_offset_elements(b, rank, file, c, 1, 0);
            lemma_offset_elements(b, rank, file, c, 1, 1);
            lemma_add_all(o0, o1, pred);
            lemma_add_all(o0 + o1, o2, pred);
            lemma_add_all(o0 + o1 + o2, o3, pred);
            lemma_add_all(o0 + o1 + o2 + o3, o4, pred);
            lemma_add_all(o0 + o1 + o2 + o3 + o4, o5, pred);
            lemma_add_all(o0 + o1 + o2 + o3 + o4 + o5, o6, pred);
            lemma_add_all(o0 + o1 + o2 + o3 + o4 + o5 + o6, o7, pred);
            assert(moves_for(b, rank, file) == o0 + o1 + o2 + o3 + o4 + o5 + o6 + o7);
        },
        PieceType::Rook => {
            lemma_rook_elements(b, rank, file, c);
        },
        PieceType::Bishop => {
            lemma_bishop_elements(b, rank, file, c);
        },
        PieceType::Queen => {
            let pred2 = |t: (usize, usize)| good_target(b, rank, file, c, t);
            lemma_rook_elements(b, rank, file, c);
            lemma_bishop_elements(b, rank, file, c);
            lemma_add_all(
                rook_targets(b, rank, file, c),
                bishop_targets(b, rank, file, c),
                pred2,
            );
            assert(moves_for(b, rank, file) == rook_targets(b, rank, file, c) + bishop_targets(
                b,
                rank,
                file,
                c,
            ));
        },
    }
}

proof fn lemma_rook_elements(b: Board, rank: int, file: int, c: Color)
    requires
        in_bounds(rank, file),
    ensures
        forall|k: int| 0 <= k < rook_targets(b, rank, file, c).len() ==> good_target(
            b,
            rank,
            file,
            c,
            #[trigger] rook_targets(b, rank, file, c)[k],
        ),
{
    let pred = |t: (usize, usize)| good_target(b, rank, file, c, t);
    let r0 = ray_targets(b, rank, file, c, 1, 0);
    let r1 = ray_targets(b, rank, file, c, -1, 0);
    let r2 = ray_targets(b, rank, file, c, 0, 1);
    let r3 = ray_targets(b, rank, file, c, 0, -1);
    lemma_ray_elements(b, rank, file, c, 1, 0);
    lemma_ray_elements(b, rank, file, c, -1, 0);
    lemma_ray_elements(b, rank, file, c, 0, 1);
    lemma_ray_elements(b, rank, file, c, 0, -1);
    lemma_add_all(r0, r1, pred);
    lemma_add_all(r0 + r1, r2, pred);
    lemma_add_all(r0 + r1 + r2, r3, pred);
}

proof fn lemma_bishop_elements(b: Board, rank: int, file: int, c: Color)
    requires
        in_bounds(rank, file),
    ensures
        forall|k: int| 0 <= k < bishop_targets(b, rank, file, c).len() ==> good_target(
            b,
            rank,
            file,
            c,
            #[trigger] bishop_targets(b, rank, file, c)[k],
        ),
{
    let pred = |t: (usize, usize)| good_target(b, rank, file, c, t);
    let r0 = ray_targets(b, rank, file, c, 1, 1);
    let r1 = ray_targets(b, rank, file, c, 1, -1);
    let r2 = ray_targets(b, rank, file, c, -1, 1);
    let r3 = ray_targets(b, rank, file, c, -1, -1);
    lemma_ray_elements(b, rank, file, c, 1, 1);
    lemma_ray_elements(b, rank, file, c, 1, -1);
    lemma_ray_elements(b, rank, file, c, -1, 1);
    lemma_ray_elements(b, rank, file, c, -1, -1);
    lemma_add_all(r0, r1, pred);
    lemma_add_all(r0 + r1, r2, pred);
    lemma_add_all(r0 + r1 + r2, r3, pred);
}

/// The knight's eight move offsets.
/// The knight's eight move offsets.
pub open spec fn is_knight_offset(dr: int, df: int) -> bool {
    (dr == -2 && df == -1) || (dr == -2 && df == 1) || (dr == -1 && df == -2) || (dr == -1 && df
        == 2) || (dr == 1 && df == -2) || (dr == 1 && df == 2) || (dr == 2 && df == -1) || (dr == 2
        && df == 1)
}

/// The king's eight move offsets: the unit directions.
pub open spec fn is_king_offset(dr: int, df: int) -> bool {
    is_ray_dir(dr, df)
}

/// Law: for every cell and board, `generate` never returns the source cell
/// among its targets.
pub proof fn lemma_no_self_target(b: Board, rank: usize, file: usize)
    ensures
        forall|k: int| 0 <= k < moves_for(b, rank as int, file as int).len()
            ==> #[trigger] moves_for(b, rank as int, file as int)[k] != (rank, file),
{
    if in_bounds(rank as int, file as int) {
        match b.piece_at(rank as int, file as int) {
            Some(p) => {
                lemma_moves_elements(b, rank as int, file as int, p);
            },
            None => {},
        }
    }
}

/// Law: every generated target satisfies `rank < 8` and `file < 8`.
pub proof fn lemma_targets_in_bounds(b: Board, rank: usize, file: usize)
    ensures
        forall|k: int| 0 <= k < moves_for(b, rank as int, file as int).len() ==> {
            let t = #[trigger] moves_for(b, rank as int, file as int)[k];
            t.0 < 8 && t.1 < 8
        },
{
    if in_bounds(rank as int, file as int) {
        match b.piece_at(rank as int, file as int) {
            Some(p) => {
                lemma_moves_elements(b, rank as int, file as int, p);
            },
            None => {},
        }
    }
}

/// Law: a knight's fixed-offset target on the board is included exactly when
/// its cell is not occupied by a same-side piece. (That every included
/// target lies on the board is `lemma_targets_in_bounds`.)
pub proof fn lemma_knight_inclusion(b: Board, rank: usize, file: usize, dr: int, df: int, p: Piece)
    requires
        b.piece_at(rank as int, file as int) == Some(p),
        p.piece_type == PieceType::Knight,
        is_knight_offset(dr, df),
        in_bounds(rank as int + dr, file as int + df),
    ensures
        moves_for(b, rank as int, file as int).contains(cell(rank as int + dr, file as int + df))
            <==> !same_side(b.piece_at(rank as int + dr, file as int + df), p.color),
{
    broadcast use vstd::seq_lib::lemma_seq_concat_contains_all_elements;

    let r = rank as int;
    let f = file as int;
    let s = moves_for(b, r, f);
    let tr = r + dr;
    let tf = f + df;
    let target = cell(tr, tf);
    assert(in_bounds(r, f));
    assert(s == knight_targets(b, r, f, p.color));
    if !same_side(b.piece_at(tr, tf), p.color) {
        assert(offset_target(b, r, f, p.color, dr, df).contains(target)) by {
            assert(offset_target(b, r, f, p.color, dr, df)[0] == target);
        }
        assert(s.contains(target));
    } else {
        assert forall|dr2: int, df2: int| is_knight_offset(dr2, df2) implies !(
        #[trigger] offset_target(b, r, f, p.color, dr2, df2)).contains(target) by {
            let o = offset_target(b, r, f, p.color, dr2, df2);
            if o.contains(target) {
                assert(o[0] == target);
                assert(r + dr2 == tr && f + df2 == tf);
                assert(false);
            }
        }
        assert(!s.contains(target));
    }
}

/// Law: a king's fixed-offset target on the board is included exactly when
/// its cell is not occupied by a same-side piece. (That every included
/// target lies on the board is `lemma_targets_in_bounds`.)
pub proof fn lemma_king_inclusion(b: Board, rank: usize, file: usize, dr: int, df: int, p: Piece)
    requires
        b.piece_at(rank as int, file as int) == Some(p),
        p.piece_type == PieceType::King,
        is_king_offset(dr, df),
        in_bounds(rank as int + dr, file as int + df),
    ensures
        moves_for(b, rank as int, file as int).contains(cell(rank as int + dr, file as int + df))
            <==> !same_side(b.piece_at(rank as int + dr, file as int + df), p.color),
{
    broadcast use vstd::seq_lib::lemma_seq_concat_contains_all_elements;

    let r = rank as int;
    let f = file as int;
    let s = moves_for(b, r, f);
    let tr = r + dr;
    let tf = f + df;
    let target = cell(tr, tf);
    assert(in_bounds(r, f));
    assert(s == king_targets(b, r, f, p.color));
    if !same_side(b.piece_at(tr, tf), p.color) {
        assert(offset_target(b, r, f, p.color, dr, df).contains(target)) by {
            assert(offset_target(b, r, f, p.color, dr, df)[0] == target);
        }
        assert(s.contains(target));
    } else {
        assert forall|dr2: int, df2: int| is_king_offset(dr2, df2) implies !(
        #[trigger] offset_target(b, r, f, p.color, dr2, df2)).contains(target) by {
            let o = offset_target(b, r, f, p.color, dr2, df2);
            if o.contains(target) {
                assert(o[0] == target);
                assert(r + dr2 == tr && f + df2 == tf);
                assert(false);
            }
        }
        assert(!s.contains(target));
    }
}

} // verus!
