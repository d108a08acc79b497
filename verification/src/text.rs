use crate::board::{BoardModel, ChessBoard, ChessPiece, PieceColor, PieceType};
use vstd::prelude::*;
use vstd::string::StringExecFns;

verus! {

/// The letter that stands for a colour.
pub open spec fn color_letter(color: PieceColor) -> char {
    match color {
        PieceColor::Black => 'B',
        PieceColor::White => 'W',
    }
}

/// The letter that stands for a kind. The knight has the small `k`, the
/// king the capital.
pub open spec fn kind_letter(kind: PieceType) -> char {
    match kind {
        PieceType::Pawn => 'P',
        PieceType::Knight => 'k',
        PieceType::Bishop => 'B',
        PieceType::Rook => 'R',
        PieceType::Queen => 'Q',
        PieceType::King => 'K',
    }
}

/// The two letters that stand for a piece: its colour, then its kind.
pub open spec fn piece_text(p: ChessPiece) -> Seq<char> {
    seq![color_letter(p.piece_color), kind_letter(p.piece_type)]
}

/// The two characters of the cell at file `x`, rank `y`: those of the piece
/// on it, or two blanks.
pub open spec fn cell_text(b: BoardModel, x: int, y: int) -> Seq<char> {
    match b.piece_at(x, y) {
        Some(p) => piece_text(p),
        None => seq![' ', ' '],
    }
}

/// The first `n` cells of rank `y`, each closed by a bar, after the bar that
/// opens the line.
pub open spec fn row_text(b: BoardModel, y: int, n: int) -> Seq<char>
    decreases n,
{
    if n <= 0 {
        seq!['|']
    } else {
        row_text(b, y, n - 1) + cell_text(b, n - 1, y) + seq!['|']
    }
}

/// The line that is drawn between two ranks, with its line break.
pub open spec fn rule_text() -> Seq<char> {
    "|--|--|--|--|--|--|--|--|\n"@
}

/// The first `n` ranks as text: a rule, then for each rank its line, a line
/// break and a rule.
pub open spec fn board_text(b: BoardModel, n: int) -> Seq<char>
    decreases n,
{
    if n <= 0 {
        rule_text()
    } else {
        board_text(b, n - 1) + row_text(b, n - 1, 8) + seq!['\n'] + rule_text()
    }
}

impl ChessPiece {
    /// The piece in two letters: `B` or `W` for its colour, then `P`, `k`,
    /// `B`, `R`, `Q` or `K` for its kind.
    pub fn to_string(&self) -> (s: String)
        ensures
            s@ == piece_text(*self),
    {
        let mut s = String::new();
        proof {
            reveal_strlit("B");
            reveal_strlit("W");
            reveal_strlit("P");
            reveal_strlit("k");
            reveal_strlit("R");
            reveal_strlit("Q");
            reveal_strlit("K");
        }
        match self.piece_color {
            PieceColor::Black => s.append("B"),
            PieceColor::White => s.append("W"),
        }
        match self.piece_type {
            PieceType::Pawn => s.append("P"),
            PieceType::Knight => s.append("k"),
            PieceType::Bishop => s.append("B"),
            PieceType::Rook => s.append("R"),
            PieceType::Queen => s.append("Q"),
            PieceType::King => s.append("K"),
        }
        assert(s@ =~= piece_text(*self));
        s
    }
}

impl ChessBoard {
    /// The board as text, rank 0 first: every cell two characters wide,
    /// cells set apart by bars and ranks by rules.
    pub fn to_string(&self) -> (buffer: String)
        requires
            self@.wf(),
        ensures
            buffer@ == board_text(self@, 8),
    {
        let mut buffer = String::new();
        buffer.append("|--|--|--|--|--|--|--|--|\n");
        assert(buffer@ =~= board_text(self@, 0));
        let mut y: usize = 0;
        while y < 8
            invariant
                y <= 8,
                self@.wf(),
                buffer@ == board_text(self@, y as int),
            decreases 8 - y,
        {
            let ghost above = buffer@;
            buffer.append("|");
            proof {
                reveal_strlit("|");
            }
            assert(buffer@ =~= above + row_text(self@, y as int, 0));
            let mut x: usize = 0;
            while x < 8
                invariant
                    x <= 8,
                    y < 8,
                    self@.wf(),
                    buffer@ == above + row_text(self@, y as int, x as int),
                decreases 8 - x,
            {
                let ghost left = buffer@;
                match self.get(x, y) {
                    Some(p) => {
                        let t = p.to_string();
                        buffer.append(t.as_str());
                    },
                    None => {
                        proof {
                            reveal_strlit("  ");
                        }
                        buffer.append("  ");
                    },
                }
                assert(buffer@ =~= left + cell_text(self@, x as int, y as int));
                buffer.append("|");
                proof {
                    reveal_strlit("|");
                }
                assert(buffer@ =~= above + row_text(self@, y as int, x + 1));
                x += 1;
            }
            buffer.append("\n|--|--|--|--|--|--|--|--|\n");
            proof {
                reveal_strlit("\n|--|--|--|--|--|--|--|--|\n");
                reveal_strlit("|--|--|--|--|--|--|--|--|\n");
                assert(buffer@ =~= board_text(self@, y + 1));
            }
            y += 1;
        }
        buffer
    }
}

} // verus!
