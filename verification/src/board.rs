//! The position model: 64 optional-piece slots, rank-major.
//!
//! A cell is addressed as (rank, file) with both in 0..8; the packed index is
//! `rank * 8 + file`. Any access outside that range is treated as "no cell":
//! reads return `None` and writes are no-ops, never a fault.

use vstd::prelude::*;
use vstd::seq_lib::lemma_concat_associative;
use vstd::string::StringExecFns;

verus! {

broadcast use vstd::seq_lib::group_seq_lib_default;

#[derive(Debug, Clone, Copy, PartialEq, Eq, Structural)]
pub enum PieceType {
    Pawn,
    Knight,
    Bishop,
    Rook,
    Queen,
    King,
}

#[derive(Debug, Clone, Copy, PartialEq, Eq, Structural)]
pub enum Color {
    White,
    Black,
}

#[derive(Debug, Clone, Copy, PartialEq, Eq, Structural)]
pub struct Piece {
    pub piece_type: PieceType,
    pub color: Color,
}

#[derive(Debug, Clone, PartialEq, Eq)]
pub struct Board {
    pub pieces: Vec<Option<Piece>>,
}

/// True when (rank, file) addresses one of the 64 cells.
pub open spec fn in_bounds(rank: int, file: int) -> bool {
    0 <= rank < 8 && 0 <= file < 8
}

/// The piece kind on the back rank of either side, by file.
pub open spec fn back_rank_kind(file: int) -> PieceType {
    if file == 0 || file == 7 {
        PieceType::Rook
    } else if file == 1 || file == 6 {
        PieceType::Knight
    } else if file == 2 || file == 5 {
        PieceType::Bishop
    } else if file == 3 {
        PieceType::Queen
    } else {
        PieceType::King
    }
}

/// The standard start layout, by packed index.
pub open spec fn start_piece(idx: int) -> Option<Piece> {
    let rank = idx / 8;
    let file = idx % 8;
    if rank == 0 {
        Some(Piece { piece_type: back_rank_kind(file), color: Color::White })
    } else if rank == 1 {
        Some(Piece { piece_type: PieceType::Pawn, color: Color::White })
    } else if rank == 6 {
        Some(Piece { piece_type: PieceType::Pawn, color: Color::Black })
    } else if rank == 7 {
        Some(Piece { piece_type: back_rank_kind(file), color: Color::Black })
    } else {
        None
    }
}

impl View for Board {
    type V = Seq<Option<Piece>>;

    open spec fn view(&self) -> Seq<Option<Piece>> {
        self.pieces@
    }
}

/// The slots after writing `piece` at (rank, file); unchanged when the cell is
/// out of range.
pub open spec fn updated_at(
    s: Seq<Option<Piece>>,
    rank: int,
    file: int,
    piece: Option<Piece>,
) -> Seq<Option<Piece>> {
    if in_bounds(rank, file) && rank * 8 + file < s.len() {
        s.update(rank * 8 + file, piece)
    } else {
        s
    }
}

impl Board {
    /// A board holds exactly 64 slots.
    pub open spec fn wf(self) -> bool {
        self@.len() == 64
    }

    /// The piece at (rank, file); `None` for an empty or out-of-range cell.
    pub open spec fn piece_at(self, rank: int, file: int) -> Option<Piece> {
        if in_bounds(rank, file) && rank * 8 + file < self@.len() {
            self@[rank * 8 + file]
        } else {
            None
        }
    }

    pub fn new() -> (r: Board)
        ensures
            r.wf(),
            forall|i: int| 0 <= i < 64 ==> r@[i] == start_piece(i),
    {
        let mut pieces: Vec<Option<Piece>> = Vec::new();
        let mut i: usize = 0;
        while i < 64
            invariant
                i <= 64,
                pieces@.len() == i,
                forall|j: int| 0 <= j < i ==> pieces@[j] == start_piece(j),
            decreases 64 - i,
        {
            pieces.push(start_cell(i));
            i = i + 1;
        }
        Board { pieces }
    }

    pub fn get_piece(&self, rank: usize, file: usize) -> (r: Option<Piece>)
        ensures
            r == self.piece_at(rank as int, file as int),
    {
        if rank < 8 && file < 8 && rank * 8 + file < self.pieces.len() {
            self.pieces[rank * 8 + file]
        } else {
            None
        }
    }

    pub fn set_piece(&mut self, rank: usize, file: usize, piece: Option<Piece>)
        ensures
            final(self)@ == updated_at(old(self)@, rank as int, file as int, piece),
    {
        if rank < 8 && file < 8 && rank * 8 + file < self.pieces.len() {
            self.pieces.set(rank * 8 + file, piece);
        }
    }

    /// One text line per rank, highest rank first: a letter or `.` and a
    /// space for each cell, upper case for White, lower case for Black.
    pub fn display(&self) -> (s: String)
        ensures
            s@ == board_text(*self),
    {
        let mut s = String::new();
        let mut r: usize = 8;
        while r > 0
            invariant
                r <= 8,
                s@ + board_text_from(*self, r as int - 1) == board_text(*self),
            decreases r,
        {
            let rank = r - 1;
            proof {
                lemma_concat_associative(
                    s@,
                    row_text(*self, rank as int, 0),
                    board_text_from(*self, rank as int - 1),
                );
            }
            let mut file: usize = 0;
            while file < 8
                invariant
                    file <= 8,
                    r >= 1,
                    r <= 8,
                    rank == r - 1,
                    s@ + row_text(*self, rank as int, file as int) + board_text_from(
                        *self,
                        rank as int - 1,
                    ) == board_text(*self),
                decreases 8 - file,
            {
                let piece = self.get_piece(rank, file);
                proof {
                    lemma_concat_associative(
                        s@,
                        seq![piece_char(piece), ' '],
                        row_text(*self, rank as int, file as int + 1),
                    );
                }
                s.append(cell_text(piece));
                file = file + 1;
            }
            proof {
                reveal_strlit("\n");
                assert("\n"@ =~= seq!['\n']);
            }
            s.append("\n");
            r = r - 1;
        }
        s
    }
}

/// The character `display` prints for the content of one cell.
pub open spec fn piece_char(p: Option<Piece>) -> char {
    match p {
        None => '.',
        Some(q) => match q.color {
            Color::White => match q.piece_type {
                PieceType::Pawn => 'P',
                PieceType::Knight => 'N',
                PieceType::Bishop => 'B',
                PieceType::Rook => 'R',
                PieceType::Queen => 'Q',
                PieceType::King => 'K',
            },
            Color::Black => match q.piece_type {
                PieceType::Pawn => 'p',
                PieceType::Knight => 'n',
                PieceType::Bishop => 'b',
                PieceType::Rook => 'r',
                PieceType::Queen => 'q',
                PieceType::King => 'k',
            },
        },
    }
}

/// The text of one rank from `file` onward, ending in a newline.
pub open spec fn row_text(b: Board, rank: int, file: int) -> Seq<char>
    decreases 8 - file,
        when 0 <= file <= 8
{
    if file >= 8 {
        seq!['\n']
    } else {
        seq![piece_char(b.piece_at(rank, file)), ' '] + row_text(b, rank, file + 1)
    }
}

/// The text of the ranks from `rank` down to rank 0.
pub open spec fn board_text_from(b: Board, rank: int) -> Seq<char>
    decreases rank + 1,
        when -1 <= rank <= 7
{
    if rank < 0 {
        Seq::empty()
    } else {
        row_text(b, rank, 0) + board_text_from(b, rank - 1)
    }
}

/// The whole board as text, rank 7 first.
pub open spec fn board_text(b: Board) -> Seq<char> {
    board_text_from(b, 7)
}

/// The two characters `display` appends for one cell.
fn cell_text(piece: Option<Piece>) -> (r: &'static str)
    ensures
        r@ == seq![piece_char(piece), ' '],
{
    match piece {
        Some(Piece { piece_type: PieceType::Pawn, color: Color::White }) => {
            proof {
                reveal_strlit("P ");
                assert("P "@ =~= seq!['P', ' ']);
            }
            "P "
        },
        Some(Piece { piece_type: PieceType::Knight, color: Color::White }) => {
            proof {
                reveal_strlit("N ");
                assert("N "@ =~= seq!['N', ' ']);
            }
            "N "
        },
        Some(Piece { piece_type: PieceType::Bishop, color: Color::White }) => {
            proof {
                reveal_strlit("B ");
                assert("B "@ =~= seq!['B', ' ']);
            }
            "B "
        },
        Some(Piece { piece_type: PieceType::Rook, color: Color::White }) => {
            proof {
                reveal_strlit("R ");
                assert("R "@ =~= seq!['R', ' ']);
            }
            "R "
        },
        Some(Piece { piece_type: PieceType::Queen, color: Color::White }) => {
            proof {
                reveal_strlit("Q ");
                assert("Q "@ =~= seq!['Q', ' ']);
            }
            "Q "
        },
        Some(Piece { piece_type: PieceType::King, color: Color::White }) => {
            proof {
                reveal_strlit("K ");
                assert("K "@ =~= seq!['K', ' ']);
            }
            "K "
        },
        Some(Piece { piece_type: PieceType::Pawn, color: Color::Black }) => {
            proof {
                reveal_strlit("p ");
                assert("p "@ =~= seq!['p', ' ']);
            }
            "p "
        },
        Some(Piece { piece_type: PieceType::Knight, color: Color::Black }) => {
            proof {
                reveal_strlit("n ");
                assert("n "@ =~= seq!['n', ' ']);
            }
            "n "
        },
        Some(Piece { piece_type: PieceType::Bishop, color: Color::Black }) => {
            proof {
                reveal_strlit("b ");
                assert("b "@ =~= seq!['b', ' ']);
            }
            "b "
        },
        Some(Piece { piece_type: PieceType::Rook, color: Color::Black }) => {
            proof {
                reveal_strlit("r ");
                assert("r "@ =~= seq!['r', ' ']);
            }
            "r "
        },
        Some(Piece { piece_type: PieceType::Queen, color: Color::Black }) => {
            proof {
                reveal_strlit("q ");
                assert("q "@ =~= seq!['q', ' ']);
            }
            "q "
        },
        Some(Piece { piece_type: PieceType::King, color: Color::Black }) => {
            proof {
                reveal_strlit("k ");
                assert("k "@ =~= seq!['k', ' ']);
            }
            "k "
        },
        None => {
            proof {
                reveal_strlit(". ");
                assert(". "@ =~= seq!['.', ' ']);
            }
            ". "
        },
    }
}

fn back_rank_cell(file: usize) -> (r: PieceType)
    requires
        file < 8,
    ensures
        r == back_rank_kind(file as int),
{
    if file == 0 || file == 7 {
        PieceType::Rook
    } else if file == 1 || file == 6 {
        PieceType::Knight
    } else if file == 2 || file == 5 {
        PieceType::Bishop
    } else if file == 3 {
        PieceType::Queen
    } else {
        PieceType::King
    }
}

fn start_cell(idx: usize) -> (r: Option<Piece>)
    requires
        idx < 64,
    ensures
        r == start_piece(idx as int),
{
    let rank = idx / 8;
    let file = idx % 8;
    if rank == 0 {
        Some(Piece { piece_type: back_rank_cell(file), color: Color::White })
    } else if rank == 1 {
        Some(Piece { piece_type: PieceType::Pawn, color: Color::White })
    } else if rank == 6 {
        Some(Piece { piece_type: PieceType::Pawn, color: Color::Black })
    } else if rank == 7 {
        Some(Piece { piece_type: back_rank_cell(file), color: Color::Black })
    } else {
        None
    }
}

} // verus!
