use crate::rules::{
    all_in_range, bishop_moves, king_moves, knight_moves, lemma_moves_in_range, moves, pawn_moves,
    queen_moves, ray, rook_moves, room, step,
};
use vstd::prelude::*;

verus! {

/// The side a piece belongs to. Black starts on ranks 0 and 1 and its pawns
/// walk towards rank 7; White starts on ranks 6 and 7 and walks towards rank 0.
#[derive(Clone, Copy, Debug, PartialEq, Eq, Structural)]
pub enum PieceColor {
    White,
    Black,
}

/// The kind of a piece.
#[derive(Clone, Copy, Debug, PartialEq, Eq, Structural)]
pub enum PieceType {
    Pawn,
    Bishop,
    Knight,
    Rook,
    Queen,
    King,
}

/// One of the 32 pieces of a game. A captured piece keeps its record and
/// loses its position.
#[derive(Clone, Copy, Debug)]
pub struct ChessPiece {
    pub piece_color: PieceColor,
    pub piece_type: PieceType,
    pub id: usize,
    pub position: Option<(usize, usize)>,
}

/// The grid, indexed by rank and then by file, and the 32 piece records.
/// A grid cell holds the index of the piece that stands on it, which is the
/// piece's `id` less one.
#[derive(Clone, Copy)]
pub struct ChessBoard {
    pub board: [[Option<usize>; 8]; 8],
    pub pieces: [ChessPiece; 32],
}

/// What a board is to the contracts: the grid as a sequence of ranks, each a
/// sequence of cells, and the sequence of piece records.
pub struct BoardModel {
    pub grid: Seq<Seq<Option<usize>>>,
    pub pieces: Seq<ChessPiece>,
}

/// True of the squares of the board: file and rank both in 0..8.
pub open spec fn in_range(x: int, y: int) -> bool {
    0 <= x < 8 && 0 <= y < 8
}

/// The colour of the piece kept at index `i`: the first sixteen records are
/// Black, the last sixteen White.
pub open spec fn roster_color(i: int) -> PieceColor {
    if i < 16 {
        PieceColor::Black
    } else {
        PieceColor::White
    }
}

impl BoardModel {
    /// The content of the cell at file `x`, rank `y`.
    pub open spec fn cell(self, x: int, y: int) -> Option<usize> {
        self.grid[y][x]
    }

    /// The piece that stands on file `x`, rank `y`, if any.
    pub open spec fn piece_at(self, x: int, y: int) -> Option<ChessPiece> {
        match self.cell(x, y) {
            Some(i) => Some(self.pieces[i as int]),
            None => None,
        }
    }

    /// The grid has 8 ranks of 8 cells and there are 32 piece records.
    pub open spec fn well_shaped(self) -> bool {
        &&& self.grid.len() == 8
        &&& forall|y: int| 0 <= y < 8 ==> (#[trigger] self.grid[y]).len() == 8
        &&& self.pieces.len() == 32
    }

    /// Every occupied cell names a piece whose position is that cell.
    pub open spec fn grid_agrees(self) -> bool {
        forall|x: int, y: int|
            in_range(x, y) ==> (#[trigger] self.cell(x, y) matches Some(i) ==> i < 32
                && self.pieces[i as int].position == Some((x as usize, y as usize)))
    }

    /// Every positioned piece stands on a square of the board, and the cell
    /// of that square names it.
    pub open spec fn pieces_agree(self) -> bool {
        forall|i: int|
            0 <= i < 32 ==> ((#[trigger] self.pieces[i]).position matches Some(s) ==> in_range(
                s.0 as int,
                s.1 as int,
            ) && self.cell(s.0 as int, s.1 as int) == Some(i as usize))
    }

    /// The record at index `i` has identity `i + 1` and the colour of its
    /// half of the roster, so there are sixteen pieces of each colour.
    pub open spec fn roster_fixed(self) -> bool {
        forall|i: int|
            0 <= i < 32 ==> (#[trigger] self.pieces[i]).id == i + 1 && self.pieces[i].piece_color
                == roster_color(i)
    }

    /// The invariant of a board: grid and piece records describe the same
    /// placement, and the roster is the one every game starts with.
    pub open spec fn wf(self) -> bool {
        &&& self.well_shaped()
        &&& self.grid_agrees()
        &&& self.pieces_agree()
        &&& self.roster_fixed()
    }

    /// The record at index `i` after whatever stands on `origin` has gone to
    /// `destination`: the mover takes the destination as its position, a
    /// piece that stood there loses its position, all else is kept.
    pub open spec fn moved_piece(
        self,
        origin: (usize, usize),
        destination: (usize, usize),
        i: int,
    ) -> ChessPiece {
        let p = self.pieces[i];
        if self.cell(origin.0 as int, origin.1 as int) == Some(i as usize) {
            ChessPiece { position: Some(destination), ..p }
        } else if self.cell(destination.0 as int, destination.1 as int) == Some(i as usize) {
            ChessPiece { position: None, ..p }
        } else {
            p
        }
    }

    /// The cell at file `x`, rank `y` after whatever stands on `origin` has
    /// gone to `destination`: the destination takes the content of the
    /// origin (nothing, if the origin was empty), the origin is empty, all
    /// else is kept.
    pub open spec fn moved_cell(
        self,
        origin: (usize, usize),
        destination: (usize, usize),
        x: int,
        y: int,
    ) -> Option<usize> {
        if x == destination.0 && y == destination.1 {
            self.cell(origin.0 as int, origin.1 as int)
        } else if x == origin.0 && y == origin.1 {
            None
        } else {
            self.cell(x, y)
        }
    }

    /// The board after an unconditional move from `origin` to `destination`.
    /// A move from a square to itself changes nothing.
    pub open spec fn moved(
        self,
        origin: (usize, usize),
        destination: (usize, usize),
    ) -> BoardModel {
        if origin == destination {
            self
        } else {
            BoardModel {
                grid: Seq::new(
                    8,
                    |y: int| Seq::new(8, |x: int| self.moved_cell(origin, destination, x, y)),
                ),
                pieces: Seq::new(32, |i: int| self.moved_piece(origin, destination, i)),
            }
        }
    }
}

impl View for ChessBoard {
    type V = BoardModel;

    open spec fn view(&self) -> BoardModel {
        BoardModel { grid: Seq::new(8, |y: int| self.board[y]@), pieces: self.pieces@ }
    }
}

/// An unconditional move keeps a board well formed.
pub proof fn lemma_moved_wf(b: BoardModel, origin: (usize, usize), destination: (usize, usize))
    requires
        b.wf(),
        in_range(origin.0 as int, origin.1 as int),
        in_range(destination.0 as int, destination.1 as int),
    ensures
        b.moved(origin, destination).wf(),
{
    let m = b.moved(origin, destination);
    if origin != destination {
        assert(m.well_shaped());
        assert forall|x: int, y: int| in_range(x, y) implies (#[trigger] m.cell(x, y) matches Some(
            i,
        ) ==> i < 32 && m.pieces[i as int].position == Some((x as usize, y as usize))) by {
            assert(m.cell(x, y) == b.moved_cell(origin, destination, x, y));
            if let Some(i) = m.cell(x, y) {
                if x == destination.0 && y == destination.1 {
                    assert(b.cell(origin.0 as int, origin.1 as int) == Some(i));
                } else {
                    assert(b.cell(x, y) == Some(i));
                    assert(b.cell(origin.0 as int, origin.1 as int) != Some(i));
                    assert(b.cell(destination.0 as int, destination.1 as int) != Some(i));
                }
            }
        }
        assert forall|i: int| 0 <= i < 32 implies ((#[trigger] m.pieces[i]).position matches Some(
            s,
        ) ==> in_range(s.0 as int, s.1 as int) && m.cell(s.0 as int, s.1 as int) == Some(
            i as usize,
        )) by {
            assert(m.pieces[i] == b.moved_piece(origin, destination, i));
            if let Some(s) = m.pieces[i].position {
                assert(m.cell(s.0 as int, s.1 as int) == b.moved_cell(
                    origin,
                    destination,
                    s.0 as int,
                    s.1 as int,
                ));
                if b.cell(origin.0 as int, origin.1 as int) == Some(i as usize) {
                } else {
                    assert(b.pieces[i].position == Some(s));
                    assert(b.cell(s.0 as int, s.1 as int) == Some(i as usize));
                }
            }
        }
        assert forall|i: int| 0 <= i < 32 implies (#[trigger] m.pieces[i]).id == i + 1
            && m.pieces[i].piece_color == roster_color(i) by {
            assert(m.pieces[i] == b.moved_piece(origin, destination, i));
            assert(b.pieces[i].id == i + 1);
        }
    }
}

/// No two pieces stand on one square.
pub proof fn lemma_one_piece_per_square(b: BoardModel, i: int, j: int)
    requires
        b.wf(),
        0 <= i < 32,
        0 <= j < 32,
        i != j,
        b.pieces[i].position is Some,
    ensures
        b.pieces[i].position != b.pieces[j].position,
{
}

/// A piece that is moved to another square arrives there as it was, but
/// for its position, and leaves its square empty.
pub proof fn lemma_moved_piece_arrives(
    b: BoardModel,
    origin: (usize, usize),
    destination: (usize, usize),
)
    requires
        b.wf(),
        in_range(origin.0 as int, origin.1 as int),
        in_range(destination.0 as int, destination.1 as int),
        origin != destination,
        b.piece_at(origin.0 as int, origin.1 as int) is Some,
    ensures
        b.moved(origin, destination).piece_at(origin.0 as int, origin.1 as int) is None,
        b.moved(origin, destination).piece_at(destination.0 as int, destination.1 as int) == Some(
            ChessPiece {
                position: Some(destination),
                ..b.piece_at(origin.0 as int, origin.1 as int)->0
            },
        ),
{
    let m = b.moved(origin, destination);
    assert(m.cell(origin.0 as int, origin.1 as int) == b.moved_cell(
        origin,
        destination,
        origin.0 as int,
        origin.1 as int,
    ));
    assert(m.cell(destination.0 as int, destination.1 as int) == b.moved_cell(
        origin,
        destination,
        destination.0 as int,
        destination.1 as int,
    ));
    let i = b.cell(origin.0 as int, origin.1 as int)->0;
    assert(m.pieces[i as int] == b.moved_piece(origin, destination, i as int));
}

impl ChessBoard {
    /// Whether the board is well formed. Every board made by `new` and
    /// changed by `make_move` is; one put together field by field may not be.
    pub fn is_valid(&self) -> (ok: bool)
        ensures
            ok == self@.wf(),
    {
        let mut y: usize = 0;
        while y < 8
            invariant
                y <= 8,
                forall|a: int, b: int|
                    0 <= a < 8 && 0 <= b < y ==> (#[trigger] self@.cell(a, b) matches Some(i) ==> i
                        < 32 && self@.pieces[i as int].position == Some((a as usize, b as usize))),
            decreases 8 - y,
        {
            let mut x: usize = 0;
            while x < 8
                invariant
                    x <= 8,
                    y < 8,
                    forall|a: int, b: int|
                        0 <= a < 8 && 0 <= b < y ==> (#[trigger] self@.cell(a, b) matches Some(i)
                            ==> i < 32 && self@.pieces[i as int].position == Some(
                            (a as usize, b as usize),
                        )),
                    forall|a: int|
                        0 <= a < x ==> (#[trigger] self@.cell(a, y as int) matches Some(i) ==> i
                            < 32 && self@.pieces[i as int].position == Some((a as usize, y))),
                decreases 8 - x,
            {
                let held = self.board[y][x];
                assert(held == self@.cell(x as int, y as int));
                if let Some(i) = held {
                    if i >= 32 {
                        return false;
                    }
                    match self.pieces[i].position {
                        Some(s) => {
                            if s.0 != x || s.1 != y {
                                return false;
                            }
                        },
                        None => {
                            return false;
                        },
                    }
                }
                x += 1;
            }
            y += 1;
        }
        assert(self@.grid_agrees());
        let mut i: usize = 0;
        while i < 32
            invariant
                i <= 32,
                forall|j: int|
                    0 <= j < i ==> ((#[trigger] self@.pieces[j]).position matches Some(s)
                        ==> in_range(s.0 as int, s.1 as int) && self@.cell(s.0 as int, s.1 as int)
                        == Some(j as usize)),
                forall|j: int|
                    0 <= j < i ==> (#[trigger] self@.pieces[j]).id == j + 1
                        && self@.pieces[j].piece_color == roster_color(j),
            decreases 32 - i,
        {
            let p = self.pieces[i];
            assert(p == self@.pieces[i as int]);
            if p.id != i + 1 {
                return false;
            }
            let home = if i < 16 {
                PieceColor::Black
            } else {
                PieceColor::White
            };
            if p.piece_color != home {
                return false;
            }
            if let Some(s) = p.position {
                if s.0 >= 8 || s.1 >= 8 {
                    return false;
                }
                let held = self.board[s.1][s.0];
                assert(held == self@.cell(s.0 as int, s.1 as int));
                match held {
                    Some(j) => {
                        if j != i {
                            return false;
                        }
                    },
                    None => {
                        return false;
                    },
                }
            }
            i += 1;
        }
        assert(self@.well_shaped());
        true
    }

    /// The piece on file `x`, rank `y`, or nothing where the square is empty.
    pub fn get(&self, x: usize, y: usize) -> (r: Option<&ChessPiece>)
        requires
            self@.wf(),
            in_range(x as int, y as int),
        ensures
            match r {
                Some(p) => self@.piece_at(x as int, y as int) == Some(*p),
                None => self@.piece_at(x as int, y as int) is None,
            },
    {
        let index = self.board[y][x];
        assert(index == self@.cell(x as int, y as int));
        if let Some(i) = index {
            Some(&self.pieces[i])
        } else {
            None
        }
    }

    /// Moves whatever stands on `origin` to `destination`, without asking
    /// whether the rules allow it. A piece on the destination is captured: it
    /// loses its position and keeps its record. With an empty origin the
    /// destination is cleared all the same.
    pub fn make_move(&mut self, origin: (usize, usize), destination: (usize, usize))
        requires
            old(self)@.wf(),
            in_range(origin.0 as int, origin.1 as int),
            in_range(destination.0 as int, destination.1 as int),
        ensures
            final(self)@ == old(self)@.moved(origin, destination),
            final(self)@.wf(),
    {
        let ghost before = self@;
        proof {
            lemma_moved_wf(before, origin, destination);
        }
        if origin.0 == destination.0 && origin.1 == destination.1 {
            return ;
        }
        let piece = self.board[origin.1][origin.0];
        assert(piece == before.cell(origin.0 as int, origin.1 as int));
        let target = self.board[destination.1][destination.0];
        assert(target == before.cell(destination.0 as int, destination.1 as int));
        self.board[origin.1][origin.0] = None;
        self.board[destination.1][destination.0] = piece;
        if let Some(captured) = target {
            self.pieces[captured].position = None;
        }
        if let Some(mover) = piece {
            self.pieces[mover].position = Some(destination);
        }
        proof {
            let after = self@;
            let want = before.moved(origin, destination);
            assert forall|i: int| 0 <= i < 32 implies after.pieces[i] == want.pieces[i] by {
                assert(before.pieces[i] == old(self).pieces[i]);
            }
            assert(after.pieces =~= want.pieces);
            assert forall|y: int| 0 <= y < 8 implies #[trigger] after.grid[y] =~= want.grid[y] by {
                assert forall|x: int| 0 <= x < 8 implies after.grid[y][x] == want.grid[y][x] by {
                    assert(before.cell(x, y) == old(self).board[y][x]);
                }
            }
            assert(after.grid =~= want.grid);
        }
    }
}

/// `v + d`, where that is again a file or rank of the board.
fn shifted(v: usize, d: i8) -> (r: Option<usize>)
    requires
        v < 8,
        -2 <= d <= 2,
    ensures
        r == (if 0 <= v + d < 8 {
            Some((v + d) as usize)
        } else {
            None::<usize>
        }),
{
    if d >= 0 {
        let s: usize = v + (d as usize);
        if s < 8 {
            Some(s)
        } else {
            None
        }
    } else {
        let m: usize = (-d) as usize;
        if v >= m {
            Some(v - m)
        } else {
            None
        }
    }
}

impl ChessBoard {
    /// Whether a piece of `color` may end a move on the square `(x, y)`,
    /// where a coordinate that fell off the board arrives as `None`.
    pub fn is_position_valid(&self, x: Option<usize>, y: Option<usize>, color: PieceColor) -> (r:
        bool)
        requires
            self@.wf(),
        ensures
            r == (x matches Some(xv) && y matches Some(yv) && self@.can_enter(
                color,
                xv as int,
                yv as int,
            )),
    {
        match (x, y) {
            (Some(xv), Some(yv)) => {
                if xv >= 8 || yv >= 8 {
                    false
                } else {
                    match self.get(xv, yv) {
                        Some(p) => p.piece_color != color,
                        None => true,
                    }
                }
            },
            _ => false,
        }
    }

    /// Appends the destination of the single step `(dx, dy)` from `(x, y)`,
    /// if a piece of `color` may take it.
    fn push_step(
        &self,
        ret: &mut Vec<(usize, usize)>,
        color: PieceColor,
        x: usize,
        y: usize,
        dx: i8,
        dy: i8,
    )
        requires
            self@.wf(),
            in_range(x as int, y as int),
            -2 <= dx <= 2,
            -2 <= dy <= 2,
        ensures
            final(ret)@ == old(ret)@ + step(self@, color, x as int, y as int, dx as int, dy as int),
    {
        let nx = shifted(x, dx);
        let ny = shifted(y, dy);
        if self.is_position_valid(nx, ny, color) {
            match (nx, ny) {
                (Some(a), Some(b)) => {
                    ret.push((a, b));
                },
                _ => {},
            }
        }
        assert(ret@ =~= old(ret)@ + step(self@, color, x as int, y as int, dx as int, dy as int));
    }

    /// Appends the destinations along the ray that leaves `(x, y)` in the
    /// direction `(dx, dy)`.
    fn push_ray(
        &self,
        ret: &mut Vec<(usize, usize)>,
        color: PieceColor,
        x: usize,
        y: usize,
        dx: i8,
        dy: i8,
    )
        requires
            self@.wf(),
            in_range(x as int, y as int),
            -1 <= dx <= 1,
            -1 <= dy <= 1,
        ensures
            final(ret)@ == old(ret)@ + ray(self@, color, x as int, y as int, dx as int, dy as int),
    {
        let ghost goal = ret@ + ray(self@, color, x as int, y as int, dx as int, dy as int);
        let mut cx: usize = x;
        let mut cy: usize = y;
        let mut blocked: bool = dx == 0 && dy == 0;
        assert(blocked ==> ret@ =~= goal);
        while !blocked
            invariant
                self@.wf(),
                in_range(cx as int, cy as int),
                -1 <= dx <= 1,
                -1 <= dy <= 1,
                !blocked ==> dx != 0 || dy != 0,
                blocked ==> ret@ == goal,
                !blocked ==> ret@ + ray(self@, color, cx as int, cy as int, dx as int, dy as int)
                    == goal,
            decreases
                    (if blocked {
                        0
                    } else {
                        1 + room(cx as int, dx as int) + room(cy as int, dy as int)
                    }),
        {
            let ghost rest = ray(self@, color, cx as int, cy as int, dx as int, dy as int);
            let ghost sofar = ret@;
            let nx = shifted(cx, dx);
            let ny = shifted(cy, dy);
            match (nx, ny) {
                (Some(a), Some(b)) => {
                    match self.get(a, b) {
                        None => {
                            ret.push((a, b));
                            assert(ret@ + ray(
                                self@,
                                color,
                                a as int,
                                b as int,
                                dx as int,
                                dy as int,
                            ) =~= sofar + rest);
                            cx = a;
                            cy = b;
                        },
                        Some(q) => {
                            if q.piece_color != color {
                                ret.push((a, b));
                            }
                            assert(ret@ =~= sofar + rest);
                            blocked = true;
                        },
                    }
                },
                _ => {
                    assert(ret@ =~= sofar + rest);
                    blocked = true;
                },
            }
        }
    }

    /// The destinations of a rook of `piece`'s colour that stands on `(x, y)`.
    pub fn get_rook_moves(&self, piece: &ChessPiece, x: usize, y: usize) -> (ret: Vec<
        (usize, usize),
    >)
        requires
            self@.wf(),
            in_range(x as int, y as int),
        ensures
            ret@ == rook_moves(self@, piece.piece_color, x as int, y as int),
            all_in_range(ret@),
    {
        let mut ret: Vec<(usize, usize)> = Vec::new();
        let color = piece.piece_color;
        self.push_ray(&mut ret, color, x, y, 0, 1);
        self.push_ray(&mut ret, color, x, y, 0, -1);
        self.push_ray(&mut ret, color, x, y, -1, 0);
        self.push_ray(&mut ret, color, x, y, 1, 0);
        proof {
            assert(ret@ =~= rook_moves(self@, color, x as int, y as int));
            lemma_moves_in_range(self@, PieceType::Rook, color, x as int, y as int);
        }
        ret
    }

    /// The destinations of a bishop of `piece`'s colour that stands on
    /// `(x, y)`.
    pub fn get_bishop_moves(&self, piece: &ChessPiece, x: usize, y: usize) -> (ret: Vec<
        (usize, usize),
    >)
        requires
            self@.wf(),
            in_range(x as int, y as int),
        ensures
            ret@ == bishop_moves(self@, piece.piece_color, x as int, y as int),
            all_in_range(ret@),
    {
        let mut ret: Vec<(usize, usize)> = Vec::new();
        let color = piece.piece_color;
        self.push_ray(&mut ret, color, x, y, 1, 1);
        self.push_ray(&mut ret, color, x, y, -1, -1);
        self.push_ray(&mut ret, color, x, y, -1, 1);
        self.push_ray(&mut ret, color, x, y, 1, -1);
        proof {
            assert(ret@ =~= bishop_moves(self@, color, x as int, y as int));
            lemma_moves_in_range(self@, PieceType::Bishop, color, x as int, y as int);
        }
        ret
    }

    /// The destinations of a queen of `piece`'s colour that stands on
    /// `(x, y)`: along the ranks and files first, then along the diagonals.
    pub fn get_queen_moves(&self, piece: &ChessPiece, x: usize, y: usize) -> (ret: Vec<
        (usize, usize),
    >)
        requires
            self@.wf(),
            in_range(x as int, y as int),
        ensures
            ret@ == queen_moves(self@, piece.piece_color, x as int, y as int),
            all_in_range(ret@),
    {
        let mut ret = self.get_rook_moves(piece, x, y);
        let mut diagonal = self.get_bishop_moves(piece, x, y);
        ret.append(&mut diagonal);
        proof {
            lemma_moves_in_range(self@, PieceType::Queen, piece.piece_color, x as int, y as int);
        }
        ret
    }

    /// The destinations of a knight of `piece`'s colour that stands on
    /// `(x, y)`.
    pub fn get_knight_moves(&self, piece: &ChessPiece, x: usize, y: usize) -> (ret: Vec<
        (usize, usize),
    >)
        requires
            self@.wf(),
            in_range(x as int, y as int),
        ensures
            ret@ == knight_moves(self@, piece.piece_color, x as int, y as int),
            all_in_range(ret@),
    {
        let mut ret: Vec<(usize, usize)> = Vec::new();
        let color = piece.piece_color;
        self.push_step(&mut ret, color, x, y, 1, 2);
        self.push_step(&mut ret, color, x, y, 1, -2);
        self.push_step(&mut ret, color, x, y, -1, 2);
        self.push_step(&mut ret, color, x, y, -1, -2);
        self.push_step(&mut ret, color, x, y, 2, 1);
        self.push_step(&mut ret, color, x, y, 2, -1);
        self.push_step(&mut ret, color, x, y, -2, 1);
        self.push_step(&mut ret, color, x, y, -2, -1);
        proof {
            assert(ret@ =~= knight_moves(self@, color, x as int, y as int));
            lemma_moves_in_range(self@, PieceType::Knight, color, x as int, y as int);
        }
        ret
    }

    /// The destinations of a king of `piece`'s colour that stands on
    /// `(x, y)`.
    pub fn get_king_moves(&self, piece: &ChessPiece, x: usize, y: usize) -> (ret: Vec<
        (usize, usize),
    >)
        requires
            self@.wf(),
            in_range(x as int, y as int),
        ensures
            ret@ == king_moves(self@, piece.piece_color, x as int, y as int),
            all_in_range(ret@),
    {
        let mut ret: Vec<(usize, usize)> = Vec::new();
        let color = piece.piece_color;
        self.push_step(&mut ret, color, x, y, 0, 1);
        self.push_step(&mut ret, color, x, y, 0, -1);
        self.push_step(&mut ret, color, x, y, 1, 0);
        self.push_step(&mut ret, color, x, y, -1, 0);
        self.push_step(&mut ret, color, x, y, 1, 1);
        self.push_step(&mut ret, color, x, y, 1, -1);
        self.push_step(&mut ret, color, x, y, -1, 1);
        self.push_step(&mut ret, color, x, y, -1, -1);
        proof {
            assert(ret@ =~= king_moves(self@, color, x as int, y as int));
            lemma_moves_in_range(self@, PieceType::King, color, x as int, y as int);
        }
        ret
    }

    /// Whether a piece of another colour than `color` stands on `(x, y)`.
    fn has_enemy(&self, color: PieceColor, x: usize, y: usize) -> (r: bool)
        requires
            self@.wf(),
            in_range(x as int, y as int),
        ensures
            r == self@.holds_enemy(color, x as int, y as int),
    {
        match self.get(x, y) {
            Some(p) => p.piece_color != color,
            None => false,
        }
    }

    /// The destinations of a pawn of `piece`'s colour that stands on
    /// `(x, y)`: one square ahead if that is empty, and diagonally ahead
    /// only to capture.
    pub fn get_pawn_moves(&self, piece: &ChessPiece, x: usize, y: usize) -> (ret: Vec<
        (usize, usize),
    >)
        requires
            self@.wf(),
            in_range(x as int, y as int),
        ensures
            ret@ == pawn_moves(self@, piece.piece_color, x as int, y as int),
            all_in_range(ret@),
    {
        let mut ret: Vec<(usize, usize)> = Vec::new();
        let color = piece.piece_color;
        let ahead = match color {
            PieceColor::Black => shifted(y, 1),
            PieceColor::White => shifted(y, -1),
        };
        if let Some(fy) = ahead {
            if self.get(x, fy).is_none() {
                ret.push((x, fy));
            }
            if x < 7 && self.has_enemy(color, x + 1, fy) {
                ret.push((x + 1, fy));
            }
            if x > 0 && self.has_enemy(color, x - 1, fy) {
                ret.push((x - 1, fy));
            }
        }
        proof {
            assert(ret@ =~= pawn_moves(self@, color, x as int, y as int));
            lemma_moves_in_range(self@, PieceType::Pawn, color, x as int, y as int);
        }
        ret
    }

    /// The destinations of the piece that stands on `(x, y)`, by the rules
    /// of its kind, whether or not its own king is then left in check.
    pub fn get_possible_moves(&self, x: usize, y: usize) -> (ret: Vec<(usize, usize)>)
        requires
            self@.wf(),
            in_range(x as int, y as int),
            self@.piece_at(x as int, y as int) is Some,
        ensures
            ret@ == moves(self@, x as int, y as int),
            all_in_range(ret@),
    {
        match self.get(x, y) {
            Some(piece) => match piece.piece_type {
                PieceType::Pawn => self.get_pawn_moves(piece, x, y),
                PieceType::Knight => self.get_knight_moves(piece, x, y),
                PieceType::Bishop => self.get_bishop_moves(piece, x, y),
                PieceType::Rook => self.get_rook_moves(piece, x, y),
                PieceType::Queen => self.get_queen_moves(piece, x, y),
                PieceType::King => self.get_king_moves(piece, x, y),
            },
            None => Vec::new(),
        }
    }

    /// Whether the piece on `(x0, y0)` has `(x1, y1)` among its destinations.
    pub fn can_move(&self, x0: usize, y0: usize, x1: usize, y1: usize) -> (r: bool)
        requires
            self@.wf(),
            in_range(x0 as int, y0 as int),
            self@.piece_at(x0 as int, y0 as int) is Some,
        ensures
            r == moves(self@, x0 as int, y0 as int).contains((x1, y1)),
    {
        let found = self.get_possible_moves(x0, y0);
        let mut k: usize = 0;
        while k < found.len()
            invariant
                k <= found.len(),
                found@ == moves(self@, x0 as int, y0 as int),
                forall|j: int| 0 <= j < k ==> found@[j] != (x1, y1),
            decreases found.len() - k,
        {
            if found[k].0 == x1 && found[k].1 == y1 {
                assert(found@[k as int] == (x1, y1));
                return true;
            }
            k += 1;
        }
        false
    }
}

/// The square of the slot `slot`, whatever the colour of the piece that
/// takes it. The slots run file by file through the ranks 0, 1, 7 and 6:
/// Black's back rank and pawn rank, then White's back rank and pawn rank.
/// A slot beyond these 32 lies off the board, four ranks further than eight
/// slots to a rank would put it.
pub open spec fn home_square(slot: int) -> (usize, usize) {
    let file = slot % 8;
    let row = slot / 8;
    let rank = if row < 2 {
        row
    } else if row == 2 {
        7
    } else if row == 3 {
        6
    } else {
        row + 4
    };
    (file as usize, rank as usize)
}

/// The kind of the piece that takes the slot `slot` of the starting layout:
/// rook, knight, bishop, queen, king, bishop, knight, rook, then eight
/// pawns, for Black and then again for White.
pub open spec fn home_kind(slot: int) -> PieceType {
    let w = slot % 16;
    if w >= 8 {
        PieceType::Pawn
    } else if w == 0 || w == 7 {
        PieceType::Rook
    } else if w == 1 || w == 6 {
        PieceType::Knight
    } else if w == 2 || w == 5 {
        PieceType::Bishop
    } else if w == 3 {
        PieceType::Queen
    } else {
        PieceType::King
    }
}

/// The record at index `i` of a new board.
pub open spec fn initial_piece(i: int) -> ChessPiece {
    ChessPiece {
        piece_color: roster_color(i),
        piece_type: home_kind(i),
        id: (i + 1) as usize,
        position: Some(home_square(i)),
    }
}

/// The cell at file `x`, rank `y` of a new board.
pub open spec fn initial_cell(x: int, y: int) -> Option<usize> {
    if y == 0 {
        Some(x as usize)
    } else if y == 1 {
        Some((8 + x) as usize)
    } else if y == 7 {
        Some((16 + x) as usize)
    } else if y == 6 {
        Some((24 + x) as usize)
    } else {
        None
    }
}

/// The board at the start of a game.
pub open spec fn initial_board() -> BoardModel {
    BoardModel {
        grid: Seq::new(8, |y: int| Seq::new(8, |x: int| initial_cell(x, y))),
        pieces: Seq::new(32, |i: int| initial_piece(i)),
    }
}

/// Hands out the pieces of the starting layout one by one: it counts the
/// pieces made so far, which decides the square of the next one, and holds
/// the colour of the next one.
pub struct CPB {
    pub current_id: usize,
    pub color: PieceColor,
}

impl CPB {
    /// A builder that has handed out nothing yet and makes White pieces
    /// until it is told otherwise.
    pub fn new() -> (b: CPB)
        ensures
            b == (CPB { current_id: 0, color: PieceColor::White }),
    {
        CPB { color: PieceColor::White, current_id: 0 }
    }

    /// Makes the pieces that follow White.
    pub fn white(&mut self) -> (r: &mut Self)
        ensures
            *r == (CPB { current_id: old(self).current_id, color: PieceColor::White }),
            *final(self) == *final(r),
    {
        self.color = PieceColor::White;
        self
    }

    /// Makes the pieces that follow Black.
    pub fn black(&mut self) -> (r: &mut Self)
        ensures
            *r == (CPB { current_id: old(self).current_id, color: PieceColor::Black }),
            *final(self) == *final(r),
    {
        self.color = PieceColor::Black;
        self
    }

    /// Hands out the next piece, a pawn.
    pub fn pawn(&mut self) -> (p: ChessPiece)
        requires
            old(self).current_id < usize::MAX,
        ensures
            p == old(self).next_piece(PieceType::Pawn),
            *final(self) == old(self).advanced(),
    {
        self.create_piece(PieceType::Pawn)
    }

    /// Hands out the next piece, a knight.
    pub fn knight(&mut self) -> (p: ChessPiece)
        requires
            old(self).current_id < usize::MAX,
        ensures
            p == old(self).next_piece(PieceType::Knight),
            *final(self) == old(self).advanced(),
    {
        self.create_piece(PieceType::Knight)
    }

    /// Hands out the next piece, a bishop.
    pub fn bishop(&mut self) -> (p: ChessPiece)
        requires
            old(self).current_id < usize::MAX,
        ensures
            p == old(self).next_piece(PieceType::Bishop),
            *final(self) == old(self).advanced(),
    {
        self.create_piece(PieceType::Bishop)
    }

    /// Hands out the next piece, a rook.
    pub fn rook(&mut self) -> (p: ChessPiece)
        requires
            old(self).current_id < usize::MAX,
        ensures
            p == old(self).next_piece(PieceType::Rook),
            *final(self) == old(self).advanced(),
    {
        self.create_piece(PieceType::Rook)
    }

    /// Hands out the next piece, a queen.
    pub fn queen(&mut self) -> (p: ChessPiece)
        requires
            old(self).current_id < usize::MAX,
        ensures
            p == old(self).next_piece(PieceType::Queen),
            *final(self) == old(self).advanced(),
    {
        self.create_piece(PieceType::Queen)
    }

    /// Hands out the next piece, a king.
    pub fn king(&mut self) -> (p: ChessPiece)
        requires
            old(self).current_id < usize::MAX,
        ensures
            p == old(self).next_piece(PieceType::King),
            *final(self) == old(self).advanced(),
    {
        self.create_piece(PieceType::King)
    }

    /// The piece that the builder hands out next, if it is asked for one of
    /// kind `piece_type`: it takes the next identity and the builder's
    /// colour, and stands on the square of its slot, which goes by the count
    /// of the pieces handed out before it and not by its colour.
    pub open spec fn next_piece(self, piece_type: PieceType) -> ChessPiece {
        ChessPiece {
            piece_color: self.color,
            piece_type,
            id: (self.current_id + 1) as usize,
            position: Some(home_square(self.current_id as int)),
        }
    }

    /// The builder after it has handed out one piece.
    pub open spec fn advanced(self) -> CPB {
        CPB { current_id: (self.current_id + 1) as usize, color: self.color }
    }

    /// Hands out the next piece, of kind `piece_type`.
    pub fn create_piece(&mut self, piece_type: PieceType) -> (p: ChessPiece)
        requires
            old(self).current_id < usize::MAX,
        ensures
            p == old(self).next_piece(piece_type),
            *final(self) == old(self).advanced(),
    {
        let slot = self.current_id;
        self.current_id += 1;
        let file = slot % 8;
        let row = slot / 8;
        let rank = if row < 2 {
            row
        } else if row == 2 {
            7
        } else if row == 3 {
            6
        } else {
            row + 4
        };
        ChessPiece {
            piece_color: self.color,
            piece_type,
            id: self.current_id,
            position: Some((file, rank)),
        }
    }
}

impl ChessBoard {
    /// The board at the start of a game: Black's back rank on rank 0 and its
    /// pawns on rank 1, White's pawns on rank 6 and its back rank on rank 7,
    /// with the identities 1 to 16 for Black and 17 to 32 for White.
    pub fn new() -> (cb: ChessBoard)
        ensures
            cb@ == initial_board(),
            cb@.wf(),
    {
        let mut b = CPB::new();
        let mut cb = ChessBoard {
            pieces: [
                b.black().rook(),
                b.black().knight(),
                b.black().bishop(),
                b.black().queen(),
                b.black().king(),
                b.black().bishop(),
                b.black().knight(),
                b.black().rook(),
                b.black().pawn(),
                b.black().pawn(),
                b.black().pawn(),
                b.black().pawn(),
                b.black().pawn(),
                b.black().pawn(),
                b.black().pawn(),
                b.black().pawn(),
                b.white().rook(),
                b.white().knight(),
                b.white().bishop(),
                b.white().queen(),
                b.white().king(),
                b.white().bishop(),
                b.white().knight(),
                b.white().rook(),
                b.white().pawn(),
                b.white().pawn(),
                b.white().pawn(),
                b.white().pawn(),
                b.white().pawn(),
                b.white().pawn(),
                b.white().pawn(),
                b.white().pawn(),
            ],
            board: [[None;8];8],
        };
        assert forall|i: int| 0 <= i < 32 implies cb.pieces[i] == initial_piece(i) by {
        }
        let mut i: usize = 0;
        while i < 32
            invariant
                i <= 32,
                forall|j: int| 0 <= j < 32 ==> cb.pieces[j] == initial_piece(j),
                forall|x: int, y: int|
                    in_range(x, y) ==> #[trigger] cb.board[y][x] == (match initial_cell(x, y) {
                        Some(j) => if j < i {
                            Some(j)
                        } else {
                            None
                        },
                        None => None,
                    }),
            decreases 32 - i,
        {
            assert(cb.pieces[i as int] == initial_piece(i as int));
            match cb.pieces[i].position {
                Some(s) => {
                    assert(s == home_square(i as int));
                    cb.board[s.1][s.0] = Some(i);
                },
                None => {},
            }
            i += 1;
        }
        proof {
            let want = initial_board();
            assert(cb@.pieces =~= want.pieces);
            assert forall|y: int| 0 <= y < 8 implies #[trigger] cb@.grid[y] =~= want.grid[y] by {
                assert forall|x: int| 0 <= x < 8 implies cb@.grid[y][x] == want.grid[y][x] by {
                    assert(cb.board[y][x] == initial_cell(x, y));
                }
            }
            assert(cb@.grid =~= want.grid);
            lemma_initial_board_wf();
        }
        cb
    }
}

impl Default for ChessBoard {
    fn default() -> (cb: ChessBoard)
        ensures
            cb@ == initial_board(),
            cb@.wf(),
    {
        ChessBoard::new()
    }
}

/// The board at the start of a game is well formed.
pub proof fn lemma_initial_board_wf()
    ensures
        initial_board().wf(),
{
    let b = initial_board();
    assert(b.well_shaped());
    assert forall|x: int, y: int| in_range(x, y) implies (#[trigger] b.cell(x, y) matches Some(
        i,
    ) ==> i < 32 && b.pieces[i as int].position == Some((x as usize, y as usize))) by {
        assert(b.cell(x, y) == initial_cell(x, y));
    }
    assert forall|i: int| 0 <= i < 32 implies ((#[trigger] b.pieces[i]).position matches Some(
        s,
    ) ==> in_range(s.0 as int, s.1 as int) && b.cell(s.0 as int, s.1 as int) == Some(
        i as usize,
    )) by {
        let s = home_square(i);
        assert(b.pieces[i] == initial_piece(i));
        assert(in_range(s.0 as int, s.1 as int));
        assert(b.cell(s.0 as int, s.1 as int) == initial_cell(s.0 as int, s.1 as int));
    }
    assert(b.roster_fixed());
}

impl BoardModel {
    /// How many of the records below index `n` are of `color`.
    pub open spec fn count_of(self, color: PieceColor, n: int) -> int
        decreases n,
    {
        if n <= 0 {
            0
        } else {
            self.count_of(color, n - 1) + if self.pieces[n - 1].piece_color == color {
                1int
            } else {
                0int
            }
        }
    }

    /// How many of the records below index `n` are of `color` and have a
    /// position.
    pub open spec fn count_standing(self, color: PieceColor, n: int) -> int
        decreases n,
    {
        if n <= 0 {
            0
        } else {
            self.count_standing(color, n - 1) + if self.pieces[n - 1].piece_color == color
                && self.pieces[n - 1].position is Some {
                1int
            } else {
                0int
            }
        }
    }
}

/// Below index `n` of a well-formed board the Black records are the first
/// sixteen and the White records those after them.
proof fn lemma_count_of(b: BoardModel, n: int)
    requires
        b.wf(),
        0 <= n <= 32,
    ensures
        b.count_of(PieceColor::Black, n) == (if n <= 16 {
            n
        } else {
            16
        }),
        b.count_of(PieceColor::White, n) == (if n <= 16 {
            0
        } else {
            n - 16
        }),
    decreases n,
{
    if n > 0 {
        lemma_count_of(b, n - 1);
        assert(b.pieces[n - 1].piece_color == roster_color(n - 1));
    }
}

/// A well-formed board has exactly sixteen pieces of each colour, captured
/// or not.
pub proof fn lemma_sixteen_of_each_color(b: BoardModel)
    requires
        b.wf(),
    ensures
        b.count_of(PieceColor::Black, 32) == 16,
        b.count_of(PieceColor::White, 32) == 16,
{
    lemma_count_of(b, 32);
}

/// No more pieces of a colour stand on the board than there are of it.
pub proof fn lemma_standing_at_most(b: BoardModel, color: PieceColor, n: int)
    ensures
        0 <= b.count_standing(color, n) <= b.count_of(color, n),
    decreases n,
{
    if n > 0 {
        lemma_standing_at_most(b, color, n - 1);
    }
}

/// Below index `n` of a new board every record has a position.
proof fn lemma_initial_standing(color: PieceColor, n: int)
    requires
        0 <= n <= 32,
    ensures
        initial_board().count_standing(color, n) == initial_board().count_of(color, n),
    decreases n,
{
    if n > 0 {
        lemma_initial_standing(color, n - 1);
        assert(initial_board().pieces[n - 1] == initial_piece(n - 1));
    }
}

/// On a new board sixteen pieces of each colour stand on the board.
pub proof fn lemma_initial_board_full()
    ensures
        initial_board().count_standing(PieceColor::Black, 32) == 16,
        initial_board().count_standing(PieceColor::White, 32) == 16,
{
    lemma_initial_board_wf();
    lemma_sixteen_of_each_color(initial_board());
    lemma_initial_standing(PieceColor::Black, 32);
    lemma_initial_standing(PieceColor::White, 32);
}

/// The layout of a new board, square by square: ranks 2 to 5 are empty and
/// no other square is; Black's back rank is rank 0 and its pawns stand on
/// rank 1, White's pawns stand on rank 6 and its back rank is rank 7; a back
/// rank reads rook, knight, bishop, queen, king, bishop, knight, rook from
/// file 0; and every piece knows the square it stands on.
pub proof fn lemma_initial_layout(x: int, y: int)
    requires
        in_range(x, y),
    ensures
        initial_board().piece_at(x, y) is None <==> 2 <= y <= 5,
        initial_board().piece_at(x, y) matches Some(p) ==> {
            &&& p.position == Some((x as usize, y as usize))
            &&& p.piece_color == (if y <= 1 {
                PieceColor::Black
            } else {
                PieceColor::White
            })
            &&& p.piece_type == (if y == 1 || y == 6 {
                PieceType::Pawn
            } else {
                home_kind(x)
            })
        },
{
    let b = initial_board();
    assert(b.cell(x, y) == initial_cell(x, y));
    if let Some(i) = initial_cell(x, y) {
        assert(b.pieces[i as int] == initial_piece(i as int));
    }
}

} // verus!
