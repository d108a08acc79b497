use crate::board::{in_range, ChessBoard, PieceColor};
use crate::rules::moves;
use vstd::prelude::*;

verus! {

/// A game between a player, who has White and moves by two clicks, and the
/// search, which has Black: the board and the square that the player has
/// picked, if any.
pub struct Model {
    pub board: ChessBoard,
    pub selected: Option<(usize, usize)>,
}

/// What can happen in a game: the player clicks on a square, or the move
/// that was found for Black arrives.
#[derive(Clone, Copy, Debug)]
pub enum Msg {
    Select(usize, usize),
    EnemyMove(usize, usize, usize, usize),
}

impl Msg {
    /// Every square that the message names is a square of the board.
    pub open spec fn wf(self) -> bool {
        match self {
            Msg::Select(x, y) => in_range(x as int, y as int),
            Msg::EnemyMove(x0, y0, x1, y1) => in_range(x0 as int, y0 as int) && in_range(
                x1 as int,
                y1 as int,
            ),
        }
    }
}

impl Model {
    /// The board is well formed and the picked square is a square of the
    /// board.
    pub open spec fn wf(self) -> bool {
        &&& self.board@.wf()
        &&& self.selected matches Some(s) ==> in_range(s.0 as int, s.1 as int)
    }

    /// A click on `(x, y)` makes a move: another square is picked, a piece
    /// stands on it, and `(x, y)` is one of its destinations.
    pub open spec fn click_moves(self, x: usize, y: usize) -> bool {
        &&& self.selected matches Some(s)
        &&& s != (x, y)
        &&& self.board@.piece_at(s.0 as int, s.1 as int) is Some
        &&& moves(self.board@, s.0 as int, s.1 as int).contains((x, y))
    }

    /// The square that is picked after a click on `(x, y)`. A click on the
    /// picked square lets go of it, and so does a click that moves. Any
    /// other click picks `(x, y)` if a white piece stands there, and else
    /// leaves the pick as it is.
    pub open spec fn picked_after(self, x: usize, y: usize) -> Option<(usize, usize)> {
        if self.selected == Some((x, y)) || self.click_moves(x, y) {
            None
        } else if self.board@.piece_at(x as int, y as int) matches Some(p) && p.piece_color
            == PieceColor::White {
            Some((x, y))
        } else {
            self.selected
        }
    }

    /// A game at its start: the new board, nothing picked.
    pub fn new() -> (m: Model)
        ensures
            m.board@ == crate::board::initial_board(),
            m.selected is None,
            m.wf(),
    {
        Model { board: ChessBoard::new(), selected: None }
    }
}

/// Takes one message into the game and says whether Black is now to be
/// asked for its move. A click that moves puts the picked piece on the
/// clicked square, and only then Black is asked; Black's move is made as it
/// arrives, whatever it is; nothing else changes the board.
pub fn update(msg: Msg, model: &mut Model) -> (ask: bool)
    requires
        old(model).wf(),
        msg.wf(),
    ensures
        final(model).wf(),
        match msg {
            Msg::Select(x, y) => {
                &&& ask == old(model).click_moves(x, y)
                &&& final(model).selected == old(model).picked_after(x, y)
                &&& final(model).board@ == (if old(model).click_moves(x, y) {
                    old(model).board@.moved(old(model).selected->0, (x, y))
                } else {
                    old(model).board@
                })
            },
            Msg::EnemyMove(x0, y0, x1, y1) => {
                &&& !ask
                &&& final(model).selected == old(model).selected
                &&& final(model).board@ == old(model).board@.moved((x0, y0), (x1, y1))
            },
        },
{
    match msg {
        Msg::Select(x, y) => {
            if let Some((x1, y1)) = model.selected {
                if x1 == x && y1 == y {
                    model.selected = None;
                    return false;
                }
                if model.board.get(x1, y1).is_some() {
                    if model.board.can_move(x1, y1, x, y) {
                        model.board.make_move((x1, y1), (x, y));
                        model.selected = None;
                        return true;
                    }
                }
            }
            let white = match model.board.get(x, y) {
                Some(p) => p.piece_color == PieceColor::White,
                None => false,
            };
            if white {
                model.selected = Some((x, y));
            }
            false
        },
        Msg::EnemyMove(x0, y0, x1, y1) => {
            model.board.make_move((x0, y0), (x1, y1));
            false
        },
    }
}

} // verus!
