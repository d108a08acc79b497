use crate::board::{in_range, BoardModel, PieceColor, PieceType};
use vstd::prelude::*;

verus! {

impl BoardModel {
    /// A piece of the other colour than `color` stands on file `x`, rank `y`.
    pub open spec fn holds_enemy(self, color: PieceColor, x: int, y: int) -> bool {
        self.piece_at(x, y) matches Some(q) && q.piece_color != color
    }

    /// A piece of colour `color` may end a move on file `x`, rank `y`: the
    /// square is on the board and is empty or holds a piece of the other
    /// colour.
    pub open spec fn can_enter(self, color: PieceColor, x: int, y: int) -> bool {
        in_range(x, y) && (self.piece_at(x, y) is None || self.holds_enemy(color, x, y))
    }
}

/// The square as the move generators hand it out.
pub open spec fn square(x: int, y: int) -> (usize, usize) {
    (x as usize, y as usize)
}

/// The rank-wise direction in which the pawns of `color` walk.
pub open spec fn forward(color: PieceColor) -> int {
    match color {
        PieceColor::Black => 1,
        PieceColor::White => -1,
    }
}

/// The destinations of a single step by `(dx, dy)` from `(x, y)`: the target
/// square if a piece of `color` may enter it, else none.
pub open spec fn step(b: BoardModel, color: PieceColor, x: int, y: int, dx: int, dy: int) -> Seq<
    (usize, usize),
> {
    if b.can_enter(color, x + dx, y + dy) {
        seq![square(x + dx, y + dy)]
    } else {
        Seq::empty()
    }
}

/// How many squares lie beyond `v` on the board in the direction `d`.
pub open spec fn room(v: int, d: int) -> int {
    if d > 0 {
        7 - v
    } else if d < 0 {
        v
    } else {
        0
    }
}

/// The destinations along the ray that leaves `(x, y)` in the direction
/// `(dx, dy)`: the empty squares up to the first occupied one or the edge,
/// and that occupied square too if its piece is not of `color`.
pub open spec fn ray(b: BoardModel, color: PieceColor, x: int, y: int, dx: int, dy: int) -> Seq<
    (usize, usize),
>
    decreases room(x, dx) + room(y, dy),
{
    if in_range(x, y) && in_range(x + dx, y + dy) && (dx != 0 || dy != 0) {
        match b.piece_at(x + dx, y + dy) {
            None => seq![square(x + dx, y + dy)] + ray(b, color, x + dx, y + dy, dx, dy),
            Some(q) => if q.piece_color != color {
                seq![square(x + dx, y + dy)]
            } else {
                Seq::empty()
            },
        }
    } else {
        Seq::empty()
    }
}

/// A pawn's destinations: the square straight ahead if it is empty, then the
/// two squares diagonally ahead, towards the higher file first, each only if
/// a piece of the other colour stands on it.
pub open spec fn pawn_moves(b: BoardModel, color: PieceColor, x: int, y: int) -> Seq<
    (usize, usize),
> {
    let fy = y + forward(color);
    if 0 <= fy < 8 {
        (if b.piece_at(x, fy) is None {
            seq![square(x, fy)]
        } else {
            Seq::empty()
        }) + (if x + 1 < 8 && b.holds_enemy(color, x + 1, fy) {
            seq![square(x + 1, fy)]
        } else {
            Seq::empty()
        }) + (if 0 <= x - 1 && b.holds_enemy(color, x - 1, fy) {
            seq![square(x - 1, fy)]
        } else {
            Seq::empty()
        })
    } else {
        Seq::empty()
    }
}

/// A knight's destinations: the eight jumps, in a fixed order.
pub open spec fn knight_moves(b: BoardModel, color: PieceColor, x: int, y: int) -> Seq<
    (usize, usize),
> {
    step(b, color, x, y, 1, 2) + step(b, color, x, y, 1, -2) + step(b, color, x, y, -1, 2) + step(
        b,
        color,
        x,
        y,
        -1,
        -2,
    ) + step(b, color, x, y, 2, 1) + step(b, color, x, y, 2, -1) + step(b, color, x, y, -2, 1)
        + step(b, color, x, y, -2, -1)
}

/// A king's destinations: the eight neighbouring squares, in a fixed order.
pub open spec fn king_moves(b: BoardModel, color: PieceColor, x: int, y: int) -> Seq<
    (usize, usize),
> {
    step(b, color, x, y, 0, 1) + step(b, color, x, y, 0, -1) + step(b, color, x, y, 1, 0) + step(
        b,
        color,
        x,
        y,
        -1,
        0,
    ) + step(b, color, x, y, 1, 1) + step(b, color, x, y, 1, -1) + step(b, color, x, y, -1, 1)
        + step(b, color, x, y, -1, -1)
}

/// A rook's destinations: the rays towards higher ranks, lower ranks, lower
/// files and higher files, in that order.
pub open spec fn rook_moves(b: BoardModel, color: PieceColor, x: int, y: int) -> Seq<
    (usize, usize),
> {
    ray(b, color, x, y, 0, 1) + ray(b, color, x, y, 0, -1) + ray(b, color, x, y, -1, 0) + ray(
        b,
        color,
        x,
        y,
        1,
        0,
    )
}

/// A bishop's destinations: the four diagonal rays, in a fixed order.
pub open spec fn bishop_moves(b: BoardModel, color: PieceColor, x: int, y: int) -> Seq<
    (usize, usize),
> {
    ray(b, color, x, y, 1, 1) + ray(b, color, x, y, -1, -1) + ray(b, color, x, y, -1, 1) + ray(
        b,
        color,
        x,
        y,
        1,
        -1,
    )
}

/// A queen's destinations: those of a rook, then those of a bishop.
pub open spec fn queen_moves(b: BoardModel, color: PieceColor, x: int, y: int) -> Seq<
    (usize, usize),
> {
    rook_moves(b, color, x, y) + bishop_moves(b, color, x, y)
}

/// The destinations of a piece of the given kind and colour that stands on
/// `(x, y)`.
pub open spec fn moves_of_kind(
    b: BoardModel,
    kind: PieceType,
    color: PieceColor,
    x: int,
    y: int,
) -> Seq<(usize, usize)> {
    match kind {
        PieceType::Pawn => pawn_moves(b, color, x, y),
        PieceType::Knight => knight_moves(b, color, x, y),
        PieceType::Bishop => bishop_moves(b, color, x, y),
        PieceType::Rook => rook_moves(b, color, x, y),
        PieceType::Queen => queen_moves(b, color, x, y),
        PieceType::King => king_moves(b, color, x, y),
    }
}

/// The destinations of the piece on `(x, y)`, in the order in which they are
/// generated; none where the square is empty.
pub open spec fn moves(b: BoardModel, x: int, y: int) -> Seq<(usize, usize)> {
    match b.piece_at(x, y) {
        Some(q) => moves_of_kind(b, q.piece_type, q.piece_color, x, y),
        None => Seq::empty(),
    }
}

/// Every element of `s` is a square of the board.
pub open spec fn all_in_range(s: Seq<(usize, usize)>) -> bool {
    forall|k: int| 0 <= k < s.len() ==> in_range((#[trigger] s[k]).0 as int, s[k].1 as int)
}

/// A ray never leaves the board.
pub proof fn lemma_ray_in_range(b: BoardModel, color: PieceColor, x: int, y: int, dx: int, dy: int)
    ensures
        all_in_range(ray(b, color, x, y, dx, dy)),
    decreases room(x, dx) + room(y, dy),
{
    if in_range(x, y) && in_range(x + dx, y + dy) && (dx != 0 || dy != 0) {
        if b.piece_at(x + dx, y + dy) is None {
            lemma_ray_in_range(b, color, x + dx, y + dy, dx, dy);
        }
    }
}

/// Two sequences of squares of the board make one when joined.
pub proof fn lemma_joined_in_range(s: Seq<(usize, usize)>, t: Seq<(usize, usize)>)
    requires
        all_in_range(s),
        all_in_range(t),
    ensures
        all_in_range(s + t),
{
    assert forall|k: int| 0 <= k < (s + t).len() implies in_range(
        (#[trigger] (s + t)[k]).0 as int,
        (s + t)[k].1 as int,
    ) by {
        if k < s.len() {
            assert((s + t)[k] == s[k]);
        } else {
            assert((s + t)[k] == t[k - s.len()]);
        }
    }
}

/// The destinations along the four rays `d0` to `d3`, one ray after the
/// other, are squares of the board.
proof fn lemma_rays_in_range(
    b: BoardModel,
    color: PieceColor,
    x: int,
    y: int,
    d0: (int, int),
    d1: (int, int),
    d2: (int, int),
    d3: (int, int),
)
    ensures
        all_in_range(
            ray(b, color, x, y, d0.0, d0.1) + ray(b, color, x, y, d1.0, d1.1) + ray(
                b,
                color,
                x,
                y,
                d2.0,
                d2.1,
            ) + ray(b, color, x, y, d3.0, d3.1),
        ),
{
    let r0 = ray(b, color, x, y, d0.0, d0.1);
    let r1 = ray(b, color, x, y, d1.0, d1.1);
    let r2 = ray(b, color, x, y, d2.0, d2.1);
    let r3 = ray(b, color, x, y, d3.0, d3.1);
    lemma_ray_in_range(b, color, x, y, d0.0, d0.1);
    lemma_ray_in_range(b, color, x, y, d1.0, d1.1);
    lemma_ray_in_range(b, color, x, y, d2.0, d2.1);
    lemma_ray_in_range(b, color, x, y, d3.0, d3.1);
    lemma_joined_in_range(r0, r1);
    lemma_joined_in_range(r0 + r1, r2);
    lemma_joined_in_range(r0 + r1 + r2, r3);
}

/// The destinations of the eight single steps `d0` to `d7`, one after the
/// other, are squares of the board.
proof fn lemma_steps_in_range(b: BoardModel, color: PieceColor, x: int, y: int, d: Seq<(int, int)>)
    requires
        d.len() == 8,
    ensures
        all_in_range(
            step(b, color, x, y, d[0].0, d[0].1) + step(b, color, x, y, d[1].0, d[1].1) + step(
                b,
                color,
                x,
                y,
                d[2].0,
                d[2].1,
            ) + step(b, color, x, y, d[3].0, d[3].1) + step(b, color, x, y, d[4].0, d[4].1) + step(
                b,
                color,
                x,
                y,
                d[5].0,
                d[5].1,
            ) + step(b, color, x, y, d[6].0, d[6].1) + step(b, color, x, y, d[7].0, d[7].1),
        ),
{
    let s0 = step(b, color, x, y, d[0].0, d[0].1);
    let s1 = step(b, color, x, y, d[1].0, d[1].1);
    let s2 = step(b, color, x, y, d[2].0, d[2].1);
    let s3 = step(b, color, x, y, d[3].0, d[3].1);
    let s4 = step(b, color, x, y, d[4].0, d[4].1);
    let s5 = step(b, color, x, y, d[5].0, d[5].1);
    let s6 = step(b, color, x, y, d[6].0, d[6].1);
    let s7 = step(b, color, x, y, d[7].0, d[7].1);
    lemma_joined_in_range(s0, s1);
    lemma_joined_in_range(s0 + s1, s2);
    lemma_joined_in_range(s0 + s1 + s2, s3);
    lemma_joined_in_range(s0 + s1 + s2 + s3, s4);
    lemma_joined_in_range(s0 + s1 + s2 + s3 + s4, s5);
    lemma_joined_in_range(s0 + s1 + s2 + s3 + s4 + s5, s6);
    lemma_joined_in_range(s0 + s1 + s2 + s3 + s4 + s5 + s6, s7);
}

/// Move generation never hands out a square off the board: whatever the
/// kind and colour of the piece, every destination from a square of the
/// board is a square of the board.
pub proof fn lemma_moves_in_range(
    b: BoardModel,
    kind: PieceType,
    color: PieceColor,
    x: int,
    y: int,
)
    requires
        in_range(x, y),
    ensures
        all_in_range(moves_of_kind(b, kind, color, x, y)),
{
    match kind {
        PieceType::Pawn => {},
        PieceType::Knight => {
            lemma_steps_in_range(
                b,
                color,
                x,
                y,
                seq![(1, 2), (1, -2), (-1, 2), (-1, -2), (2, 1), (2, -1), (-2, 1), (-2, -1)],
            );
        },
        PieceType::King => {
            lemma_steps_in_range(
                b,
                color,
                x,
                y,
                seq![(0, 1), (0, -1), (1, 0), (-1, 0), (1, 1), (1, -1), (-1, 1), (-1, -1)],
            );
        },
        PieceType::Rook => {
            lemma_rays_in_range(b, color, x, y, (0, 1), (0, -1), (-1, 0), (1, 0));
        },
        PieceType::Bishop => {
            lemma_rays_in_range(b, color, x, y, (1, 1), (-1, -1), (-1, 1), (1, -1));
        },
        PieceType::Queen => {
            lemma_rays_in_range(b, color, x, y, (0, 1), (0, -1), (-1, 0), (1, 0));
            lemma_rays_in_range(b, color, x, y, (1, 1), (-1, -1), (-1, 1), (1, -1));
            lemma_joined_in_range(rook_moves(b, color, x, y), bishop_moves(b, color, x, y));
        },
    }
}

/// The square `k` steps from `(x, y)` in the direction `(dx, dy)`.
pub open spec fn ahead(x: int, y: int, dx: int, dy: int, k: int) -> (int, int) {
    (x + k * dx, y + k * dy)
}

/// The squares less than `k` steps from `(x, y)` in the direction
/// `(dx, dy)`, the square `(x, y)` itself left out, are all empty.
pub open spec fn clear_before(b: BoardModel, x: int, y: int, dx: int, dy: int, k: int) -> bool {
    forall|j: int|
        1 <= j < k ==> b.piece_at(
            (#[trigger] ahead(x, y, dx, dy, j)).0,
            ahead(x, y, dx, dy, j).1,
        ) is None
}

/// One of the eight directions in which a rook, bishop or queen looks.
pub open spec fn is_direction(dx: int, dy: int) -> bool {
    -1 <= dx <= 1 && -1 <= dy <= 1 && (dx != 0 || dy != 0)
}

/// Counting from the first step is counting one less from the square after
/// it, and between two squares of the board there are only squares of the
/// board.
proof fn lemma_ahead(x: int, y: int, dx: int, dy: int, k: int)
    requires
        is_direction(dx, dy),
        k >= 1,
    ensures
        ahead(x, y, dx, dy, 1) == (x + dx, y + dy),
        ahead(x, y, dx, dy, k) == ahead(x + dx, y + dy, dx, dy, k - 1),
        k > 1 ==> ahead(x, y, dx, dy, k) != (x + dx, y + dy),
        in_range(x, y) && in_range(ahead(x, y, dx, dy, k).0, ahead(x, y, dx, dy, k).1) ==> in_range(
            x + dx,
            y + dy,
        ),
{
    assert(k * dx == (k - 1) * dx + dx) by (nonlinear_arith);
    assert(k * dy == (k - 1) * dy + dy) by (nonlinear_arith);
    assert(dx == 1 ==> k * dx == k) by (nonlinear_arith);
    assert(dx == -1 ==> k * dx == -k) by (nonlinear_arith);
    assert(dx == 0 ==> k * dx == 0) by (nonlinear_arith);
    assert(dy == 1 ==> k * dy == k) by (nonlinear_arith);
    assert(dy == -1 ==> k * dy == -k) by (nonlinear_arith);
    assert(dy == 0 ==> k * dy == 0) by (nonlinear_arith);
}

/// A ray runs along its direction: its element at index `i` is the square
/// `i + 1` steps from the start.
pub proof fn lemma_ray_in_order(
    b: BoardModel,
    color: PieceColor,
    x: int,
    y: int,
    dx: int,
    dy: int,
    i: int,
)
    requires
        in_range(x, y),
        is_direction(dx, dy),
        0 <= i < ray(b, color, x, y, dx, dy).len(),
    ensures
        ray(b, color, x, y, dx, dy)[i] == square(
            ahead(x, y, dx, dy, i + 1).0,
            ahead(x, y, dx, dy, i + 1).1,
        ),
    decreases i,
{
    lemma_ahead(x, y, dx, dy, i + 1);
    if i > 0 {
        lemma_ray_in_order(b, color, x + dx, y + dy, dx, dy, i - 1);
    }
}

/// A ray stops at the first occupied square: a square of the board that
/// lies `k` steps along the direction is among the destinations if and only
/// if every square before it is empty and it is itself empty or holds a
/// piece of the other colour.
pub proof fn lemma_ray_stops_at_first_piece(
    b: BoardModel,
    color: PieceColor,
    x: int,
    y: int,
    dx: int,
    dy: int,
    k: int,
)
    requires
        in_range(x, y),
        is_direction(dx, dy),
        k >= 1,
        in_range(ahead(x, y, dx, dy, k).0, ahead(x, y, dx, dy, k).1),
    ensures
        ray(b, color, x, y, dx, dy).contains(
            square(ahead(x, y, dx, dy, k).0, ahead(x, y, dx, dy, k).1),
        ) <==> clear_before(b, x, y, dx, dy, k) && b.can_enter(
            color,
            ahead(x, y, dx, dy, k).0,
            ahead(x, y, dx, dy, k).1,
        ),
    decreases k,
{
    let r = ray(b, color, x, y, dx, dy);
    let t = ahead(x, y, dx, dy, k);
    let target = square(t.0, t.1);
    let first = square(x + dx, y + dy);
    lemma_ahead(x, y, dx, dy, k);
    if k == 1 {
        if b.can_enter(color, x + dx, y + dy) {
            assert(r[0] == target);
        }
    } else {
        let rest = ray(b, color, x + dx, y + dy, dx, dy);
        lemma_ray_stops_at_first_piece(b, color, x + dx, y + dy, dx, dy, k - 1);
        lemma_ahead(x, y, dx, dy, 1);
        assert(target != first);
        if b.piece_at(x + dx, y + dy) is None {
            assert(r == seq![first] + rest);
            if rest.contains(target) {
                let i = choose|i: int| 0 <= i < rest.len() && rest[i] == target;
                assert(r[i + 1] == target);
            }
            if r.contains(target) {
                let i = choose|i: int| 0 <= i < r.len() && r[i] == target;
                assert(rest[i - 1] == target);
            }
            if clear_before(b, x, y, dx, dy, k) {
                assert forall|j: int| 1 <= j < k - 1 implies b.piece_at(
                    (#[trigger] ahead(x + dx, y + dy, dx, dy, j)).0,
                    ahead(x + dx, y + dy, dx, dy, j).1,
                ) is None by {
                    lemma_ahead(x, y, dx, dy, j + 1);
                    assert(ahead(x, y, dx, dy, j + 1) == ahead(x + dx, y + dy, dx, dy, j));
                }
            }
            if clear_before(b, x + dx, y + dy, dx, dy, k - 1) {
                assert forall|j: int| 1 <= j < k implies b.piece_at(
                    (#[trigger] ahead(x, y, dx, dy, j)).0,
                    ahead(x, y, dx, dy, j).1,
                ) is None by {
                    lemma_ahead(x, y, dx, dy, j);
                    if j > 1 {
                        assert(ahead(x + dx, y + dy, dx, dy, j - 1) == ahead(x, y, dx, dy, j));
                    }
                }
            }
        } else {
            assert(!r.contains(target)) by {
                if r.contains(target) {
                    let i = choose|i: int| 0 <= i < r.len() && r[i] == target;
                    assert(r[i] == first);
                }
            }
            assert(!clear_before(b, x, y, dx, dy, k)) by {
                assert(ahead(x, y, dx, dy, 1) == (x + dx, y + dy));
            }
        }
    }
}

/// A pawn goes one rank forward. Where it keeps its file the destination is
/// empty; where it changes file, it does so by one and the destination
/// holds a piece of the other colour.
pub proof fn lemma_pawn_destinations(
    b: BoardModel,
    color: PieceColor,
    x: int,
    y: int,
    d: (usize, usize),
)
    requires
        in_range(x, y),
        pawn_moves(b, color, x, y).contains(d),
    ensures
        d.1 == y + forward(color),
        in_range(d.0 as int, d.1 as int),
        d.0 == x ==> b.piece_at(d.0 as int, d.1 as int) is None,
        d.0 != x ==> (d.0 == x + 1 || d.0 == x - 1) && b.holds_enemy(color, d.0 as int, d.1 as int),
{
    let fy = y + forward(color);
    let s0 = if b.piece_at(x, fy) is None {
        seq![square(x, fy)]
    } else {
        Seq::empty()
    };
    let s1 = if x + 1 < 8 && b.holds_enemy(color, x + 1, fy) {
        seq![square(x + 1, fy)]
    } else {
        Seq::empty()
    };
    let s2 = if 0 <= x - 1 && b.holds_enemy(color, x - 1, fy) {
        seq![square(x - 1, fy)]
    } else {
        Seq::empty()
    };
    let m = pawn_moves(b, color, x, y);
    let i = choose|i: int| 0 <= i < m.len() && m[i] == d;
    assert(m == s0 + s1 + s2);
    if i < s0.len() {
        assert(m[i] == s0[i]);
    } else if i < s0.len() + s1.len() {
        assert(m[i] == s1[i - s0.len()]);
    } else {
        assert(m[i] == s2[i - s0.len() - s1.len()]);
    }
}

} // verus!
