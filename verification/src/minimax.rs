use crate::board::{in_range, BoardModel, ChessBoard, PieceColor, PieceType};
use crate::rules::{all_in_range, moves};
use core::cmp::Ordering;
use vstd::prelude::*;

verus! {

/// The depth at which the search stops looking further ahead.
pub const MAX_DEPTH: u32 = 4;

/// A move from `start` to `end` and what the search found it to be worth.
/// Two moves compare by their values alone.
#[derive(Clone, Copy, Debug)]
pub struct Move {
    pub start: (usize, usize),
    pub end: (usize, usize),
    pub value: i32,
}

impl PartialEq for Move {
    fn eq(&self, mov: &Move) -> (r: bool) {
        self.value == mov.value
    }
}

impl vstd::std_specs::cmp::PartialEqSpecImpl for Move {
    open spec fn obeys_eq_spec() -> bool {
        true
    }

    open spec fn eq_spec(&self, other: &Move) -> bool {
        self.value == other.value
    }
}

impl Eq for Move {

}

impl PartialOrd for Move {
    fn partial_cmp(&self, other: &Move) -> (r: Option<Ordering>) {
        if self.value < other.value {
            Some(Ordering::Less)
        } else if self.value > other.value {
            Some(Ordering::Greater)
        } else {
            Some(Ordering::Equal)
        }
    }
}

impl vstd::std_specs::cmp::PartialOrdSpecImpl for Move {
    open spec fn obeys_partial_cmp_spec() -> bool {
        true
    }

    open spec fn partial_cmp_spec(&self, other: &Move) -> Option<Ordering> {
        if self.value < other.value {
            Some(Ordering::Less)
        } else if self.value > other.value {
            Some(Ordering::Greater)
        } else {
            Some(Ordering::Equal)
        }
    }
}

impl Move {
    /// The move that stands for "no move found" on the maximizing side: from
    /// `(0, 0)` to `(0, 0)`, with the least value there is.
    pub open spec fn lowest() -> Move {
        Move { start: (0, 0), end: (0, 0), value: i32::MIN }
    }

    /// The move that stands for "no move found" on the minimizing side: from
    /// `(0, 0)` to `(0, 0)`, with the greatest value there is.
    pub open spec fn highest() -> Move {
        Move { start: (0, 0), end: (0, 0), value: i32::MAX }
    }

    /// The move from `(x0, y0)` to `(x1, y1)` with the value `points`.
    pub fn new(x0: usize, y0: usize, x1: usize, y1: usize, points: i32) -> (m: Move)
        ensures
            m == (Move { start: (x0, y0), end: (x1, y1), value: points }),
    {
        Move { start: (x0, y0), end: (x1, y1), value: points }
    }

    /// The move that White's search starts from and keeps where White has
    /// no move: from `(0, 0)` to `(0, 0)`, with the greatest value.
    pub fn max() -> (m: Move)
        ensures
            m == Move::highest(),
    {
        Move { start: (0, 0), end: (0, 0), value: i32::MAX }
    }

    /// The move that Black's search starts from and keeps where Black has
    /// no move: from `(0, 0)` to `(0, 0)`, with the least value.
    pub fn min() -> (m: Move)
        ensures
            m == Move::lowest(),
    {
        Move { start: (0, 0), end: (0, 0), value: i32::MIN }
    }
}

/// The material value of a piece of the given kind.
pub open spec fn points_of(kind: PieceType) -> int {
    match kind {
        PieceType::Pawn => 1,
        PieceType::Knight => 3,
        PieceType::Bishop => 3,
        PieceType::Rook => 5,
        PieceType::Queen => 9,
        PieceType::King => 900,
    }
}

/// What a move that ends on the square `s` captures there: the material
/// value of the piece on `s`, or 0 where `s` is empty.
pub open spec fn capture_value(b: BoardModel, s: (usize, usize)) -> int {
    match b.piece_at(s.0 as int, s.1 as int) {
        Some(q) => points_of(q.piece_type),
        None => 0,
    }
}

/// `v` brought into the range of `i32`: values beyond an end of the range
/// become that end.
pub open spec fn saturated(v: int) -> i32 {
    if v > i32::MAX {
        i32::MAX
    } else if v < i32::MIN {
        i32::MIN
    } else {
        v as i32
    }
}

/// The moves of the piece kept at index `i`, as pairs of its square and a
/// destination, in the order of generation; none if the piece is captured
/// or is not of `color`.
pub open spec fn piece_candidates(b: BoardModel, color: PieceColor, i: int) -> Seq<
    ((usize, usize), (usize, usize)),
> {
    let p = b.pieces[i];
    match p.position {
        Some(s) => if p.piece_color == color {
            Seq::new(
                moves(b, s.0 as int, s.1 as int).len(),
                |k: int| (s, moves(b, s.0 as int, s.1 as int)[k]),
            )
        } else {
            Seq::empty()
        },
        None => Seq::empty(),
    }
}

/// The moves of the pieces of `color` kept at the indices below `n`, piece
/// by piece in the order of the roster.
pub open spec fn candidates_upto(b: BoardModel, color: PieceColor, n: int) -> Seq<
    ((usize, usize), (usize, usize)),
>
    decreases n,
{
    if n <= 0 {
        Seq::empty()
    } else {
        candidates_upto(b, color, n - 1) + piece_candidates(b, color, n - 1)
    }
}

/// All the moves that `color` has on the board, in the order in which the
/// search looks at them.
pub open spec fn candidates(b: BoardModel, color: PieceColor) -> Seq<
    ((usize, usize), (usize, usize)),
> {
    candidates_upto(b, color, 32)
}

/// What the candidate `c` is worth to Black on `b` at `depth`: what it
/// captures, plus, short of the horizon, the value of White's best reply on
/// the board after it. The sum saturates at the ends of `i32`.
pub open spec fn max_total(b: BoardModel, depth: int, c: ((usize, usize), (usize, usize))) -> i32
    decreases MAX_DEPTH - depth, 0int, 0int,
{
    let gain = capture_value(b, c.1);
    if depth < MAX_DEPTH {
        saturated(min_search(b.moved(c.0, c.1), depth + 1).value + gain)
    } else {
        saturated(gain)
    }
}

/// What the candidate `c` is worth to White on `b` at `depth`, counted from
/// Black's side: what it captures, negative, plus, short of the horizon,
/// the value of Black's best reply on the board after it.
pub open spec fn min_total(b: BoardModel, depth: int, c: ((usize, usize), (usize, usize))) -> i32
    decreases MAX_DEPTH - depth, 0int, 0int,
{
    let gain = capture_value(b, c.1);
    if depth < MAX_DEPTH {
        saturated(max_search(b.moved(c.0, c.1), depth + 1).value - gain)
    } else {
        saturated(-gain)
    }
}

/// The best move for Black among the first `n` of `cands`. A later
/// candidate replaces an earlier one only with a strictly greater value,
/// and the first has to beat `lowest()`.
pub open spec fn max_fold(
    b: BoardModel,
    depth: int,
    cands: Seq<((usize, usize), (usize, usize))>,
    n: int,
) -> Move
    decreases MAX_DEPTH - depth, 1int, n,
{
    if n <= 0 || n > cands.len() {
        Move::lowest()
    } else {
        let best = max_fold(b, depth, cands, n - 1);
        let c = cands[n - 1];
        let total = max_total(b, depth, c);
        if total > best.value {
            Move { start: c.0, end: c.1, value: total }
        } else {
            best
        }
    }
}

/// The best move for White among the first `n` of `cands`. A later
/// candidate replaces an earlier one only with a strictly smaller value,
/// and the first has to beat `highest()`.
pub open spec fn min_fold(
    b: BoardModel,
    depth: int,
    cands: Seq<((usize, usize), (usize, usize))>,
    n: int,
) -> Move
    decreases MAX_DEPTH - depth, 1int, n,
{
    if n <= 0 || n > cands.len() {
        Move::highest()
    } else {
        let best = min_fold(b, depth, cands, n - 1);
        let c = cands[n - 1];
        let total = min_total(b, depth, c);
        if total < best.value {
            Move { start: c.0, end: c.1, value: total }
        } else {
            best
        }
    }
}

/// Black's best move on `b` at `depth`.
pub open spec fn max_search(b: BoardModel, depth: int) -> Move
    decreases MAX_DEPTH - depth, 2int, 0int,
{
    let cands = candidates(b, PieceColor::Black);
    max_fold(b, depth, cands, cands.len() as int)
}

/// White's best move on `b` at `depth`.
pub open spec fn min_search(b: BoardModel, depth: int) -> Move
    decreases MAX_DEPTH - depth, 2int, 0int,
{
    let cands = candidates(b, PieceColor::White);
    min_fold(b, depth, cands, cands.len() as int)
}

/// Every candidate starts on an occupied square of the board and ends on a
/// square of the board.
pub open spec fn candidates_sound(
    b: BoardModel,
    cands: Seq<((usize, usize), (usize, usize))>,
) -> bool {
    forall|k: int|
        0 <= k < cands.len() ==> {
            let c = #[trigger] cands[k];
            &&& in_range(c.0.0 as int, c.0.1 as int)
            &&& in_range(c.1.0 as int, c.1.1 as int)
            &&& b.piece_at(c.0.0 as int, c.0.1 as int) is Some
        }
}

/// The material value of a piece of the given kind: pawn 1, knight and
/// bishop 3, rook 5, queen 9, king 900.
pub fn points(piece: PieceType) -> (v: i32)
    ensures
        v == points_of(piece),
{
    match piece {
        PieceType::Pawn => 1,
        PieceType::Knight => 3,
        PieceType::Bishop => 3,
        PieceType::Rook => 5,
        PieceType::Queen => 9,
        PieceType::King => 900,
    }
}

/// The sum of two scores, kept within the range of `i32`.
fn add_scores(a: i32, b: i32) -> (s: i32)
    ensures
        s == saturated(a + b),
{
    match a.checked_add(b) {
        Some(s) => s,
        None => if a > 0 {
            i32::MAX
        } else {
            i32::MIN
        },
    }
}

/// All the moves of `color` on `board`, as pairs of start and end, piece by
/// piece in the order of the roster and, for one piece, in the order of
/// generation.
pub fn candidate_moves(board: &ChessBoard, color: PieceColor) -> (out: Vec<
    ((usize, usize), (usize, usize)),
>)
    requires
        board@.wf(),
    ensures
        out@ == candidates(board@, color),
        candidates_sound(board@, out@),
{
    let mut out: Vec<((usize, usize), (usize, usize))> = Vec::new();
    let mut i: usize = 0;
    while i < 32
        invariant
            i <= 32,
            board@.wf(),
            out@ == candidates_upto(board@, color, i as int),
            candidates_sound(board@, out@),
        decreases 32 - i,
    {
        let piece = board.pieces[i];
        assert(piece == board@.pieces[i as int]);
        let ghost sofar = out@;
        let ghost own = piece_candidates(board@, color, i as int);
        match piece.position {
            Some(s) => {
                if piece.piece_color == color {
                    assert(board@.cell(s.0 as int, s.1 as int) == Some(i));
                    let found = board.get_possible_moves(s.0, s.1);
                    let mut k: usize = 0;
                    while k < found.len()
                        invariant
                            k <= found.len(),
                            found@.len() == own.len(),
                            forall|j: int| 0 <= j < own.len() ==> own[j] == (s, found@[j]),
                            all_in_range(found@),
                            in_range(s.0 as int, s.1 as int),
                            board@.piece_at(s.0 as int, s.1 as int) is Some,
                            out@ == sofar + own.take(k as int),
                            candidates_sound(board@, out@),
                        decreases found.len() - k,
                    {
                        let ghost prev = out@;
                        out.push((s, found[k]));
                        assert(out@ =~= sofar + own.take(k + 1));
                        assert forall|j: int| 0 <= j < out@.len() implies {
                            let c = #[trigger] out@[j];
                            &&& in_range(c.0.0 as int, c.0.1 as int)
                            &&& in_range(c.1.0 as int, c.1.1 as int)
                            &&& board@.piece_at(c.0.0 as int, c.0.1 as int) is Some
                        } by {
                            if j < prev.len() {
                                assert(out@[j] == prev[j]);
                            }
                        }
                        k += 1;
                    }
                    assert(own.take(k as int) =~= own);
                }
            },
            None => {},
        }
        assert(out@ =~= sofar + own);
        i += 1;
    }
    out
}

/// Black's best move on `board`, looking ahead from `depth` to the horizon,
/// where White answers with its own best move and so in turn. Among moves
/// of equal value the first found is kept. Without any move for Black the
/// result is `Move::min()`.
pub fn maximize(board: ChessBoard, depth: u32) -> (best: Move)
    requires
        board@.wf(),
        depth <= MAX_DEPTH,
    ensures
        best == max_search(board@, depth as int),
    decreases MAX_DEPTH - depth,
{
    let cands = candidate_moves(&board, PieceColor::Black);
    let mut best = Move::min();
    let mut k: usize = 0;
    while k < cands.len()
        invariant
            k <= cands.len(),
            board@.wf(),
            depth <= MAX_DEPTH,
            cands@ == candidates(board@, PieceColor::Black),
            candidates_sound(board@, cands@),
            best == max_fold(board@, depth as int, cands@, k as int),
        decreases cands.len() - k,
    {
        let (start, end) = cands[k];
        let gain = match board.get(end.0, end.1) {
            Some(p) => points(p.piece_type),
            None => 0,
        };
        let total = if depth == MAX_DEPTH {
            gain
        } else {
            let mut next = board;
            next.make_move(start, end);
            let reply = minimize(next, depth + 1);
            add_scores(reply.value, gain)
        };
        assert(total == max_total(board@, depth as int, cands@[k as int]));
        if total > best.value {
            best = Move::new(start.0, start.1, end.0, end.1, total);
        }
        k += 1;
    }
    best
}

/// White's best move on `board`, the counterpart of `maximize`: a capture
/// counts negative, the least value wins, and without any move for White
/// the result is `Move::max()`.
pub fn minimize(board: ChessBoard, depth: u32) -> (best: Move)
    requires
        board@.wf(),
        depth <= MAX_DEPTH,
    ensures
        best == min_search(board@, depth as int),
    decreases MAX_DEPTH - depth,
{
    let cands = candidate_moves(&board, PieceColor::White);
    let mut best = Move::max();
    let mut k: usize = 0;
    while k < cands.len()
        invariant
            k <= cands.len(),
            board@.wf(),
            depth <= MAX_DEPTH,
            cands@ == candidates(board@, PieceColor::White),
            candidates_sound(board@, cands@),
            best == min_fold(board@, depth as int, cands@, k as int),
        decreases cands.len() - k,
    {
        let (start, end) = cands[k];
        let gain = match board.get(end.0, end.1) {
            Some(p) => points(p.piece_type),
            None => 0,
        };
        let total = if depth == MAX_DEPTH {
            -gain
        } else {
            let mut next = board;
            next.make_move(start, end);
            let reply = maximize(next, depth + 1);
            add_scores(reply.value, -gain)
        };
        assert(total == min_total(board@, depth as int, cands@[k as int]));
        if total < best.value {
            best = Move::new(start.0, start.1, end.0, end.1, total);
        }
        k += 1;
    }
    best
}

/// The best move for `side` on `board`, searched from depth 0.
pub fn search(board: ChessBoard, side: PieceColor) -> (best: Move)
    requires
        board@.wf(),
    ensures
        best == (match side {
            PieceColor::Black => max_search(board@, 0),
            PieceColor::White => min_search(board@, 0),
        }),
{
    match side {
        PieceColor::Black => maximize(board, 0),
        PieceColor::White => minimize(board, 0),
    }
}

/// The choice among the first `n` candidates is the first of the best:
/// the index returned is that of the chosen candidate, which is worth
/// strictly more than every candidate before it and at least as much as
/// every candidate after it. It is -1 where `lowest()` is kept, which is so
/// only where no candidate is worth more than the least value.
pub proof fn lemma_max_fold_first_best(
    b: BoardModel,
    depth: int,
    cands: Seq<((usize, usize), (usize, usize))>,
    n: int,
) -> (k: int)
    requires
        0 <= n <= cands.len(),
    ensures
        -1 <= k < n,
        k == -1 ==> max_fold(b, depth, cands, n) == Move::lowest(),
        k >= 0 ==> max_fold(b, depth, cands, n) == (Move {
            start: cands[k].0,
            end: cands[k].1,
            value: max_total(b, depth, cands[k]),
        }),
        forall|j: int|
            0 <= j < n ==> max_total(b, depth, #[trigger] cands[j]) <= max_fold(
                b,
                depth,
                cands,
                n,
            ).value,
        forall|j: int|
            0 <= j < k ==> max_total(b, depth, #[trigger] cands[j]) < max_fold(
                b,
                depth,
                cands,
                n,
            ).value,
        k >= 0 ==> max_fold(b, depth, cands, n).value > i32::MIN,
    decreases n,
{
    if n == 0 {
        -1
    } else {
        let before = lemma_max_fold_first_best(b, depth, cands, n - 1);
        if max_total(b, depth, cands[n - 1]) > max_fold(b, depth, cands, n - 1).value {
            n - 1
        } else {
            before
        }
    }
}

/// The counterpart of `lemma_max_fold_first_best` for White: the chosen
/// candidate is worth strictly less than every candidate before it and at
/// most as much as every candidate after it.
pub proof fn lemma_min_fold_first_best(
    b: BoardModel,
    depth: int,
    cands: Seq<((usize, usize), (usize, usize))>,
    n: int,
) -> (k: int)
    requires
        0 <= n <= cands.len(),
    ensures
        -1 <= k < n,
        k == -1 ==> min_fold(b, depth, cands, n) == Move::highest(),
        k >= 0 ==> min_fold(b, depth, cands, n) == (Move {
            start: cands[k].0,
            end: cands[k].1,
            value: min_total(b, depth, cands[k]),
        }),
        forall|j: int|
            0 <= j < n ==> min_total(b, depth, #[trigger] cands[j]) >= min_fold(
                b,
                depth,
                cands,
                n,
            ).value,
        forall|j: int|
            0 <= j < k ==> min_total(b, depth, #[trigger] cands[j]) > min_fold(
                b,
                depth,
                cands,
                n,
            ).value,
        k >= 0 ==> min_fold(b, depth, cands, n).value < i32::MAX,
    decreases n,
{
    if n == 0 {
        -1
    } else {
        let before = lemma_min_fold_first_best(b, depth, cands, n - 1);
        if min_total(b, depth, cands[n - 1]) < min_fold(b, depth, cands, n - 1).value {
            n - 1
        } else {
            before
        }
    }
}

/// At the horizon nothing is looked ahead: where Black has a move at all,
/// the move found is one of Black's moves and its value is exactly what it
/// captures on its destination, 0 where that square is empty.
pub proof fn lemma_max_at_horizon(b: BoardModel)
    requires
        candidates(b, PieceColor::Black).len() > 0,
    ensures
        candidates(b, PieceColor::Black).contains(
            (max_search(b, MAX_DEPTH as int).start, max_search(b, MAX_DEPTH as int).end),
        ),
        max_search(b, MAX_DEPTH as int).value == capture_value(
            b,
            max_search(b, MAX_DEPTH as int).end,
        ),
{
    let cands = candidates(b, PieceColor::Black);
    let k = lemma_max_fold_first_best(b, MAX_DEPTH as int, cands, cands.len() as int);
    assert(max_total(b, MAX_DEPTH as int, cands[0]) >= 0);
    assert(cands[k] == (cands[k].0, cands[k].1));
}

/// At the horizon nothing is looked ahead: where White has a move at all,
/// the move found is one of White's moves and its value is exactly what it
/// captures on its destination, counted negative.
pub proof fn lemma_min_at_horizon(b: BoardModel)
    requires
        candidates(b, PieceColor::White).len() > 0,
    ensures
        candidates(b, PieceColor::White).contains(
            (min_search(b, MAX_DEPTH as int).start, min_search(b, MAX_DEPTH as int).end),
        ),
        min_search(b, MAX_DEPTH as int).value == -capture_value(
            b,
            min_search(b, MAX_DEPTH as int).end,
        ),
{
    let cands = candidates(b, PieceColor::White);
    let k = lemma_min_fold_first_best(b, MAX_DEPTH as int, cands, cands.len() as int);
    assert(min_total(b, MAX_DEPTH as int, cands[0]) <= 0);
    assert(cands[k] == (cands[k].0, cands[k].1));
}

/// A side without a move gets the move that stands for none: `lowest()`
/// for Black, `highest()` for White, at any depth.
pub proof fn lemma_no_move(b: BoardModel, depth: int)
    ensures
        candidates(b, PieceColor::Black).len() == 0 ==> max_search(b, depth) == Move::lowest(),
        candidates(b, PieceColor::White).len() == 0 ==> min_search(b, depth) == Move::highest(),
{
}

/// The search depends on nothing but the board, the side and the depth:
/// two boards that hold the same grid and the same records give the same
/// move.
pub proof fn lemma_search_deterministic(a: ChessBoard, b: ChessBoard, depth: int)
    requires
        a@ == b@,
    ensures
        max_search(a@, depth) == max_search(b@, depth),
        min_search(a@, depth) == min_search(b@, depth),
{
}

/// A move is in one of two joined lists if and only if it is in one of the
/// two.
proof fn lemma_joined_contains(
    s: Seq<((usize, usize), (usize, usize))>,
    t: Seq<((usize, usize), (usize, usize))>,
    c: ((usize, usize), (usize, usize)),
)
    ensures
        (s + t).contains(c) <==> s.contains(c) || t.contains(c),
{
    if s.contains(c) {
        let i = choose|i: int| 0 <= i < s.len() && s[i] == c;
        assert((s + t)[i] == c);
    }
    if t.contains(c) {
        let i = choose|i: int| 0 <= i < t.len() && t[i] == c;
        assert((s + t)[s.len() + i] == c);
    }
    if (s + t).contains(c) {
        let i = choose|i: int| 0 <= i < (s + t).len() && (s + t)[i] == c;
        if i < s.len() {
            assert(s[i] == c);
        } else {
            assert(t[i - s.len()] == c);
        }
    }
}

/// The moves of the piece at index `i` are those that start on its square
/// and end on one of its destinations, if it stands on the board and is of
/// `color`.
proof fn lemma_piece_candidates(
    b: BoardModel,
    color: PieceColor,
    i: int,
    c: ((usize, usize), (usize, usize)),
)
    ensures
        piece_candidates(b, color, i).contains(c) <==> b.pieces[i].position == Some(c.0)
            && b.pieces[i].piece_color == color && moves(b, c.0.0 as int, c.0.1 as int).contains(
            c.1,
        ),
{
    let own = piece_candidates(b, color, i);
    if own.contains(c) {
        let k = choose|k: int| 0 <= k < own.len() && own[k] == c;
        let s = b.pieces[i].position->0;
        assert(moves(b, s.0 as int, s.1 as int)[k] == c.1);
    }
    if b.pieces[i].position == Some(c.0) && b.pieces[i].piece_color == color && moves(
        b,
        c.0.0 as int,
        c.0.1 as int,
    ).contains(c.1) {
        let found = moves(b, c.0.0 as int, c.0.1 as int);
        let k = choose|k: int| 0 <= k < found.len() && found[k] == c.1;
        assert(own[k] == c);
    }
}

/// The moves of the pieces below index `n` are the moves of each of them.
proof fn lemma_candidates_upto(
    b: BoardModel,
    color: PieceColor,
    n: int,
    c: ((usize, usize), (usize, usize)),
)
    requires
        0 <= n,
    ensures
        candidates_upto(b, color, n).contains(c) <==> exists|i: int|
            0 <= i < n && #[trigger] piece_candidates(b, color, i).contains(c),
    decreases n,
{
    if n > 0 {
        lemma_candidates_upto(b, color, n - 1, c);
        lemma_joined_contains(
            candidates_upto(b, color, n - 1),
            piece_candidates(b, color, n - 1),
            c,
        );
        if candidates_upto(b, color, n - 1).contains(c) {
            let i = choose|i: int|
                0 <= i < n - 1 && #[trigger] piece_candidates(b, color, i).contains(c);
            assert(0 <= i < n && piece_candidates(b, color, i).contains(c));
        }
        if exists|i: int| 0 <= i < n && #[trigger] piece_candidates(b, color, i).contains(c) {
            let i = choose|i: int|
                0 <= i < n && #[trigger] piece_candidates(b, color, i).contains(c);
            if i < n - 1 {
                assert(0 <= i < n - 1 && piece_candidates(b, color, i).contains(c));
            }
        }
    }
}

/// The search looks at every move of every standing piece of a colour and
/// at nothing else: a move from `s` to `d` is a candidate of `color` if and
/// only if a piece of `color` stands on `s` and `d` is one of its
/// destinations.
pub proof fn lemma_candidates_are_the_moves(
    b: BoardModel,
    color: PieceColor,
    s: (usize, usize),
    d: (usize, usize),
)
    requires
        b.wf(),
    ensures
        candidates(b, color).contains((s, d)) <==> in_range(s.0 as int, s.1 as int) && (b.piece_at(
            s.0 as int,
            s.1 as int,
        ) matches Some(p) && p.piece_color == color) && moves(b, s.0 as int, s.1 as int).contains(
            d,
        ),
{
    lemma_candidates_upto(b, color, 32, (s, d));
    if candidates(b, color).contains((s, d)) {
        let i = choose|i: int|
            0 <= i < 32 && #[trigger] piece_candidates(b, color, i).contains((s, d));
        lemma_piece_candidates(b, color, i, (s, d));
        assert(b.pieces[i].position == Some(s));
        assert(b.cell(s.0 as int, s.1 as int) == Some(i as usize));
    }
    if in_range(s.0 as int, s.1 as int) && (b.piece_at(s.0 as int, s.1 as int) matches Some(p)
        && p.piece_color == color) && moves(b, s.0 as int, s.1 as int).contains(d) {
        let i = b.cell(s.0 as int, s.1 as int)->0 as int;
        assert(b.pieces[i].position == Some(s));
        lemma_piece_candidates(b, color, i, (s, d));
        assert(0 <= i < 32 && piece_candidates(b, color, i).contains((s, d)));
    }
}

/// The colour that moves after `color`.
pub open spec fn opponent(color: PieceColor) -> PieceColor {
    match color {
        PieceColor::Black => PieceColor::White,
        PieceColor::White => PieceColor::Black,
    }
}

/// `side` has a move on `b`, and, short of the horizon, after each of its
/// moves the other side has one, and so on down to the horizon.
pub open spec fn never_stuck(b: BoardModel, depth: int, side: PieceColor) -> bool
    decreases MAX_DEPTH - depth,
{
    let cands = candidates(b, side);
    &&& cands.len() > 0
    &&& depth < MAX_DEPTH ==> forall|k: int|
        0 <= k < cands.len() ==> never_stuck(
            b.moved((#[trigger] cands[k]).0, cands[k].1),
            depth + 1,
            opponent(side),
        )
}

/// The greatest distance from 0 of a value that is found at `depth` where
/// no side gets stuck: a king for every half-move down to the horizon.
pub open spec fn value_bound(depth: int) -> int {
    900 * (MAX_DEPTH + 1 - depth)
}

/// Where Black never gets stuck, nor White after it, no sum saturates: each
/// of Black's moves is worth exactly what it captures plus the value of
/// White's best reply, and the value found lies within the bound.
pub proof fn lemma_max_plain_sums(b: BoardModel, depth: int)
    requires
        0 <= depth <= MAX_DEPTH,
        never_stuck(b, depth, PieceColor::Black),
    ensures
        -value_bound(depth) <= max_search(b, depth).value <= value_bound(depth),
        forall|k: int|
            0 <= k < candidates(b, PieceColor::Black).len() ==> max_total(
                b,
                depth,
                #[trigger] candidates(b, PieceColor::Black)[k],
            ) == capture_value(b, candidates(b, PieceColor::Black)[k].1) + (if depth < MAX_DEPTH {
                min_search(
                    b.moved(
                        candidates(b, PieceColor::Black)[k].0,
                        candidates(b, PieceColor::Black)[k].1,
                    ),
                    depth + 1,
                ).value as int
            } else {
                0
            }),
    decreases MAX_DEPTH - depth,
{
    let cands = candidates(b, PieceColor::Black);
    assert forall|k: int| 0 <= k < cands.len() implies {
        &&& -value_bound(depth) <= max_total(b, depth, #[trigger] cands[k]) <= value_bound(depth)
        &&& max_total(b, depth, cands[k]) == capture_value(b, cands[k].1) + (if depth
            < MAX_DEPTH {
            min_search(b.moved(cands[k].0, cands[k].1), depth + 1).value as int
        } else {
            0
        })
    } by {
        if depth < MAX_DEPTH {
            lemma_min_plain_sums(b.moved(cands[k].0, cands[k].1), depth + 1);
        }
    }
    let k = lemma_max_fold_first_best(b, depth, cands, cands.len() as int);
    assert(max_total(b, depth, cands[0]) > i32::MIN);
}

/// The counterpart of `lemma_max_plain_sums` for White: each of White's
/// moves is worth exactly the value of Black's best reply less what it
/// captures.
pub proof fn lemma_min_plain_sums(b: BoardModel, depth: int)
    requires
        0 <= depth <= MAX_DEPTH,
        never_stuck(b, depth, PieceColor::White),
    ensures
        -value_bound(depth) <= min_search(b, depth).value <= value_bound(depth),
        forall|k: int|
            0 <= k < candidates(b, PieceColor::White).len() ==> min_total(
                b,
                depth,
                #[trigger] candidates(b, PieceColor::White)[k],
            ) == (if depth < MAX_DEPTH {
                max_search(
                    b.moved(
                        candidates(b, PieceColor::White)[k].0,
                        candidates(b, PieceColor::White)[k].1,
                    ),
                    depth + 1,
                ).value as int
            } else {
                0
            }) - capture_value(b, candidates(b, PieceColor::White)[k].1),
    decreases MAX_DEPTH - depth,
{
    let cands = candidates(b, PieceColor::White);
    assert forall|k: int| 0 <= k < cands.len() implies {
        &&& -value_bound(depth) <= min_total(b, depth, #[trigger] cands[k]) <= value_bound(depth)
        &&& min_total(b, depth, cands[k]) == (if depth < MAX_DEPTH {
            max_search(b.moved(cands[k].0, cands[k].1), depth + 1).value as int
        } else {
            0
        }) - capture_value(b, cands[k].1)
    } by {
        if depth < MAX_DEPTH {
            lemma_max_plain_sums(b.moved(cands[k].0, cands[k].1), depth + 1);
        }
    }
    let k = lemma_min_fold_first_best(b, depth, cands, cands.len() as int);
    assert(min_total(b, depth, cands[0]) < i32::MAX);
}

} // verus!
