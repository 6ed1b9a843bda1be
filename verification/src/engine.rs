//! The position engine facade: aggregates the move generator over all 64
//! cells in a fixed rank-major, file-minor order, selects the first move of
//! that deterministic sequence (a placeholder policy, not search), and applies
//! moves by unconditional relocation.

use vstd::prelude::*;
use vstd::seq_lib::lemma_concat_associative;
use crate::board::{Board, in_bounds, start_piece, updated_at};
use crate::move_gen::{generate_moves, moves_for};

verus! {

broadcast use vstd::seq_lib::group_seq_lib_default;

/// The moves of all cells from (rank, file) onward, rank-major, file-minor.
pub open spec fn moves_from_cell(b: Board, rank: int, file: int) -> Seq<(usize, usize)>
    decreases 8 - rank, 8 - file,
        when 0 <= rank <= 8 && 0 <= file <= 8
{
    if rank >= 8 {
        Seq::empty()
    } else if file >= 8 {
        moves_from_cell(b, rank + 1, 0)
    } else {
        moves_for(b, rank, file) + moves_from_cell(b, rank, file + 1)
    }
}

/// Every pseudo-legal target on the board, in the fixed traversal order.
pub open spec fn all_moves(b: Board) -> Seq<(usize, usize)> {
    moves_from_cell(b, 0, 0)
}

pub struct ChessEngine {
    board: Board,
}

impl ChessEngine {
    /// The position the engine currently holds.
    pub closed spec fn spec_board(self) -> Board {
        self.board
    }

    pub fn new() -> (r: ChessEngine)
        ensures
            r.spec_board().wf(),
            forall|i: int| 0 <= i < 64 ==> r.spec_board()@[i] == start_piece(i),
    {
        ChessEngine { board: Board::new() }
    }

    /// The placeholder selection policy: the first entry of the deterministic
    /// move sequence, or `None` when there is none.
    pub fn search(&mut self) -> (r: Option<(usize, usize)>)
        ensures
            *final(self) == *old(self),
            all_moves(old(self).spec_board()).len() == 0 ==> r is None,
            all_moves(old(self).spec_board()).len() > 0 ==> r == Some(all_moves(old(self).spec_board())[0]),
    {
        let legal_moves = self.generate_all_legal_moves();

        if legal_moves.is_empty() {
            return None;
        }

        Some(legal_moves[0])
    }

    fn generate_all_legal_moves(&self) -> (r: Vec<(usize, usize)>)
        ensures
            r@ == all_moves(self.board),
    {
        let mut all_legal_moves: Vec<(usize, usize)> = Vec::new();
        let mut rank: usize = 0;
        while rank < 8
            invariant
                rank <= 8,
                all_legal_moves@ + moves_from_cell(self.board, rank as int, 0) == all_moves(
                    self.board,
                ),
            decreases 8 - rank,
        {
            let mut file: usize = 0;
            while file < 8
                invariant
                    rank < 8,
                    file <= 8,
                    all_legal_moves@ + moves_from_cell(self.board, rank as int, file as int)
                        == all_moves(self.board),
                decreases 8 - file,
            {
                let mut moves = generate_moves(&self.board, rank, file);
                proof {
                    lemma_concat_associative(
                        all_legal_moves@,
                        moves@,
                        moves_from_cell(self.board, rank as int, file as int + 1),
                    );
                }
                all_legal_moves.append(&mut moves);
                file = file + 1;
            }
            rank = rank + 1;
        }
        all_legal_moves
    }

    /// Unconditional relocation: whatever occupies `from` is written to `to`
    /// and `from` is cleared. The move is not validated; applying from an
    /// empty cell empties `to` as well.
    pub fn apply_move(&mut self, from: (usize, usize), to: (usize, usize))
        ensures
            final(self).spec_board()@ == updated_at(
                updated_at(old(self).spec_board()@, from.0 as int, from.1 as int, None),
                to.0 as int,
                to.1 as int,
                old(self).spec_board().piece_at(from.0 as int, from.1 as int),
            ),
            old(self).spec_board().wf() ==> final(self).spec_board().wf(),
            (old(self).spec_board().wf() && in_bounds(from.0 as int, from.1 as int) && in_bounds(
                to.0 as int,
                to.1 as int,
            ) && from != to) ==> {
                &&& final(self).spec_board().piece_at(to.0 as int, to.1 as int) == old(
                    self,
                ).spec_board().piece_at(from.0 as int, from.1 as int)
                &&& final(self).spec_board().piece_at(from.0 as int, from.1 as int) is None
            },
    {
        let piece = self.board.get_piece(from.0, from.1);
        self.board.set_piece(from.0, from.1, None);
        self.board.set_piece(to.0, to.1, piece);
    }

    pub fn get_board(&self) -> (r: &Board)
        ensures
            *r == self.spec_board(),
    {
        &self.board
    }

    pub fn get_board_mut(&mut self) -> (r: &mut Board)
        ensures
            *r == old(self).spec_board(),
            final(self).spec_board() == *final(r),
    {
        &mut self.board
    }
}

} // verus!
