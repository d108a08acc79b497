use chess_engine::board::{ChessBoard, PieceColor, PieceType};
use chess_engine::minimax::{
    candidate_moves, maximize, minimize, points, search, Move, MAX_DEPTH,
};

fn after(run: &[((usize, usize), (usize, usize))]) -> ChessBoard {
    let mut board = ChessBoard::new();
    for (from, to) in run {
        board.make_move(*from, *to);
    }
    board
}

/// One piece walks over all the others of its colour and is left alone.
fn swept(board: &mut ChessBoard, path: &[(usize, usize)]) {
    for pair in path.windows(2) {
        board.make_move(pair[0], pair[1]);
    }
}

fn lone(board: &mut ChessBoard, start: (usize, usize), other_rank: usize) {
    // Walk to file 0 on the home rank, then along the other rank and back.
    let mut path = vec![start];
    let mut x = start.0;
    while x > 0 {
        x -= 1;
        path.push((x, start.1));
    }
    for file in 0..8 {
        path.push((file, other_rank));
    }
    let mut file = 7;
    while file > start.0 {
        path.push((file, start.1));
        file -= 1;
    }
    swept(board, &path);
}

fn plain(m: Move) -> ((usize, usize), (usize, usize), i32) {
    (m.start, m.end, m.value)
}

/// The search written piece by piece and move by move.
fn by_hand(
    board: &ChessBoard,
    depth: u32,
    side: PieceColor,
) -> ((usize, usize), (usize, usize), i32) {
    let black = side == PieceColor::Black;
    let mut best = ((0, 0), (0, 0), if black { i32::MIN } else { i32::MAX });
    for p in board.pieces.iter() {
        let (x, y) = match p.position {
            Some(s) if p.piece_color == side => s,
            _ => continue,
        };
        for (mx, my) in board.get_possible_moves(x, y) {
            let gain = board.get(mx, my).map_or(0, |q| points(q.piece_type));
            let gain = if black { gain } else { -gain };
            let total = if depth == MAX_DEPTH {
                gain
            } else {
                let mut next = *board;
                next.make_move((x, y), (mx, my));
                let other = if black { PieceColor::White } else { PieceColor::Black };
                by_hand(&next, depth + 1, other).2.saturating_add(gain)
            };
            if (black && total > best.2) || (!black && total < best.2) {
                best = ((x, y), (mx, my), total);
            }
        }
    }
    best
}

#[test]
fn points_are_the_material_values() {
    assert_eq!(points(PieceType::Pawn), 1);
    assert_eq!(points(PieceType::Knight), 3);
    assert_eq!(points(PieceType::Bishop), 3);
    assert_eq!(points(PieceType::Rook), 5);
    assert_eq!(points(PieceType::Queen), 9);
    assert_eq!(points(PieceType::King), 900);
}

#[test]
fn the_horizon_is_at_depth_four() {
    assert_eq!(MAX_DEPTH, 4);
}

#[test]
fn a_move_holds_its_squares_and_its_value() {
    let m = Move::new(1, 2, 3, 4, -7);
    assert_eq!(m.start, (1, 2));
    assert_eq!(m.end, (3, 4));
    assert_eq!(m.value, -7);
}

#[test]
fn the_two_sentinels_stand_on_the_corner_with_the_extreme_values() {
    let low = Move::min();
    assert_eq!(plain(low), ((0, 0), (0, 0), i32::MIN));
    assert_eq!(low.value, -2147483648);
    let high = Move::max();
    assert_eq!(plain(high), ((0, 0), (0, 0), i32::MAX));
    assert_eq!(high.value, 2147483647);
}

#[test]
fn moves_compare_by_value_alone() {
    let a = Move::new(0, 0, 1, 1, 5);
    let b = Move::new(2, 2, 3, 3, 5);
    let c = Move::new(0, 0, 1, 1, 6);
    assert!(a == b);
    assert!(a != c);
    assert!(a < c);
    assert!(c > b);
    assert!(a <= b && a >= b);
    assert_eq!(a.partial_cmp(&c), Some(std::cmp::Ordering::Less));
    assert_eq!(c.partial_cmp(&a), Some(std::cmp::Ordering::Greater));
    assert_eq!(a.partial_cmp(&b), Some(std::cmp::Ordering::Equal));
    assert!(Move::min() < Move::max());
}

#[test]
fn the_candidates_come_piece_by_piece_in_roster_order() {
    let board = ChessBoard::new();
    let mut want = vec![
        ((1, 0), (2, 2)),
        ((1, 0), (0, 2)),
        ((6, 0), (7, 2)),
        ((6, 0), (5, 2)),
    ];
    for x in 0..8 {
        want.push(((x, 1), (x, 2)));
    }
    assert_eq!(candidate_moves(&board, PieceColor::Black), want);
    let mut want = vec![
        ((1, 7), (2, 5)),
        ((1, 7), (0, 5)),
        ((6, 7), (7, 5)),
        ((6, 7), (5, 5)),
    ];
    for x in 0..8 {
        want.push(((x, 6), (x, 5)));
    }
    assert_eq!(candidate_moves(&board, PieceColor::White), want);
}

#[test]
fn captured_pieces_have_no_candidates() {
    let board = after(&[((3, 7), (1, 0)), ((1, 0), (2, 2))]);
    // Black's knight of file 1 is captured; the white queen went on.
    let found = candidate_moves(&board, PieceColor::Black);
    assert!(found.iter().all(|c| c.0 != (1, 0)));
    assert_eq!(board.pieces[1].position, None);
}

#[test]
fn at_the_horizon_a_quiet_board_gives_the_first_move_with_value_0() {
    let board = ChessBoard::new();
    assert_eq!(plain(maximize(board, 4)), ((1, 0), (2, 2), 0));
    assert_eq!(plain(minimize(board, 4)), ((1, 7), (2, 5), 0));
}

#[test]
fn at_the_horizon_the_value_is_what_the_move_captures() {
    let board = after(&[((3, 7), (3, 2))]);
    assert_eq!(plain(maximize(board, 4)), ((2, 1), (3, 2), 9));
    let board = after(&[((3, 0), (3, 5))]);
    assert_eq!(plain(minimize(board, 4)), ((2, 6), (3, 5), -9));
    let board = after(&[((0, 7), (3, 2))]);
    assert_eq!(plain(maximize(board, 4)), ((2, 1), (3, 2), 5));
    let board = after(&[((4, 0), (3, 5))]);
    assert_eq!(plain(minimize(board, 4)), ((2, 6), (3, 5), -900));
    let board = after(&[((1, 7), (3, 2)), ((4, 6), (5, 2))]);
    assert_eq!(plain(maximize(board, 4)), ((2, 1), (3, 2), 3));
}

#[test]
fn the_greatest_capture_wins_and_the_first_of_equals_is_kept() {
    // The pawn on (1, 2) can be taken before the queen on (5, 2) is looked
    // at; the queen can be taken by the knight of file 6 and, later in the
    // roster, by the pawns of files 4 and 6.
    let board = after(&[((0, 6), (1, 2)), ((3, 7), (5, 2))]);
    assert!(board.can_move(0, 1, 1, 2));
    assert!(board.can_move(6, 0, 5, 2));
    assert!(board.can_move(4, 1, 5, 2));
    assert!(board.can_move(6, 1, 5, 2));
    assert_eq!(plain(maximize(board, 4)), ((6, 0), (5, 2), 9));
    // Without the knight the first of the two pawns takes.
    let board = after(&[((0, 6), (1, 2)), ((3, 7), (5, 2)), ((6, 0), (7, 4))]);
    assert_eq!(plain(maximize(board, 4)), ((4, 1), (5, 2), 9));
    let board = after(&[((0, 6), (1, 2))]);
    assert_eq!(plain(maximize(board, 4)), ((0, 1), (1, 2), 1));
}

#[test]
fn one_ply_short_of_the_horizon_the_reply_is_counted() {
    // Taking the queen is safe.
    let board = after(&[((3, 7), (3, 2))]);
    assert_eq!(plain(maximize(board, 3)), ((2, 1), (3, 2), 9));
    let board = after(&[((3, 0), (3, 5))]);
    assert_eq!(plain(minimize(board, 3)), ((2, 6), (3, 5), -9));
    // A knight that takes a pawn is taken back, so a quiet move is better.
    let board = after(&[((1, 0), (2, 4))]);
    assert_eq!(plain(maximize(board, 3)), ((0, 0), (1, 0), 0));
    let taken = after(&[((1, 0), (2, 4)), ((2, 4), (3, 6))]);
    assert_eq!(minimize(taken, 4).value, -3);
}

#[test]
fn a_side_without_a_piece_gets_the_sentinel() {
    let mut board = ChessBoard::new();
    for x in 0..8 {
        board.make_move((x, 7), (x, 0));
        board.make_move((x, 6), (x, 1));
    }
    assert!(board.pieces[..16].iter().all(|p| p.position.is_none()));
    for depth in 0..=4 {
        assert_eq!(plain(maximize(board, depth)), ((0, 0), (0, 0), i32::MIN));
    }
    assert!(candidate_moves(&board, PieceColor::Black).is_empty());
    let mut board = ChessBoard::new();
    for x in 0..8 {
        board.make_move((x, 0), (x, 7));
        board.make_move((x, 1), (x, 6));
    }
    assert!(board.pieces[16..].iter().all(|p| p.position.is_none()));
    for depth in 0..=4 {
        assert_eq!(plain(minimize(board, depth)), ((0, 0), (0, 0), i32::MAX));
    }
}

#[test]
fn a_side_whose_pieces_are_all_blocked_gets_the_sentinel() {
    // Black is left with one pawn, and a white pawn stands right before it.
    let mut board = ChessBoard::new();
    lone(&mut board, (0, 1), 0);
    let left: Vec<_> = board.pieces[..16].iter().filter(|p| p.position.is_some()).collect();
    assert_eq!(left.len(), 1);
    assert_eq!(left[0].piece_type, PieceType::Pawn);
    let pawn = left[0].position.unwrap();
    board.make_move(pawn, (3, 3));
    board.make_move((3, 6), (3, 4));
    assert_eq!(board.get_possible_moves(3, 3), vec![]);
    assert!(candidate_moves(&board, PieceColor::Black).is_empty());
    for depth in 0..=4 {
        assert_eq!(plain(maximize(board, depth)), ((0, 0), (0, 0), i32::MIN));
    }
    // White still has moves, and none of them takes anything.
    assert_eq!(minimize(board, 4).value, 0);
}

#[test]
fn taking_the_last_piece_saturates_at_the_greatest_value() {
    let mut board = ChessBoard::new();
    lone(&mut board, (0, 7), 6);
    let white: Vec<_> = board.pieces[16..].iter().filter(|p| p.position.is_some()).collect();
    assert_eq!(white.len(), 1);
    let (wx, wy) = white[0].position.unwrap();
    board.make_move((wx, wy), (0, 6));
    board.make_move((1, 1), (1, 5));
    assert_eq!(plain(maximize(board, 3)), ((1, 5), (0, 6), i32::MAX));
    assert_eq!(plain(maximize(board, 3)), by_hand(&board, 3, PieceColor::Black));
    // At the horizon the same capture is worth the rook alone.
    assert_eq!(plain(maximize(board, 4)), ((1, 5), (0, 6), 5));
}

#[test]
fn the_search_is_the_search_written_piece_by_piece() {
    let boards = [
        ChessBoard::new(),
        after(&[((3, 7), (3, 2))]),
        after(&[((1, 0), (2, 4))]),
        after(&[((4, 1), (4, 3)), ((4, 6), (4, 4)), ((3, 7), (7, 3)), ((1, 0), (2, 2))]),
        after(&[((3, 0), (3, 5)), ((0, 7), (0, 2)), ((6, 0), (5, 5))]),
    ];
    for board in boards.iter() {
        for depth in 2..=4 {
            assert_eq!(plain(maximize(*board, depth)), by_hand(board, depth, PieceColor::Black));
            assert_eq!(plain(minimize(*board, depth)), by_hand(board, depth, PieceColor::White));
        }
    }
}

#[test]
fn the_search_gives_the_same_move_every_time() {
    let board = after(&[((4, 1), (4, 3)), ((4, 6), (4, 4)), ((3, 7), (7, 3))]);
    let first = plain(maximize(board, 2));
    for _ in 0..3 {
        assert_eq!(plain(maximize(board, 2)), first);
        assert_eq!(plain(maximize(board.clone(), 2)), first);
    }
    let first = plain(minimize(board, 2));
    for _ in 0..3 {
        assert_eq!(plain(minimize(board, 2)), first);
    }
}

#[test]
fn two_lone_kings_far_apart_make_their_first_step() {
    let mut board = ChessBoard::new();
    lone(&mut board, (4, 0), 1);
    lone(&mut board, (4, 7), 6);
    let left: Vec<_> = board.pieces.iter().filter(|p| p.position.is_some()).collect();
    assert_eq!(left.len(), 2);
    assert!(left.iter().all(|p| p.piece_type == PieceType::King));
    let black = left[0].position.unwrap();
    let white = left[1].position.unwrap();
    board.make_move(black, (0, 0));
    board.make_move(white, (7, 7));
    assert_eq!(plain(search(board, PieceColor::Black)), ((0, 0), (0, 1), 0));
    assert_eq!(plain(search(board, PieceColor::White)), ((7, 7), (7, 6), 0));
    assert_eq!(plain(search(board, PieceColor::Black)), plain(maximize(board, 0)));
    assert_eq!(plain(search(board, PieceColor::White)), plain(minimize(board, 0)));
    assert_eq!(plain(search(board, PieceColor::Black)), by_hand(&board, 0, PieceColor::Black));
}

#[test]
fn a_king_next_to_the_last_pawn_takes_it() {
    let mut board = ChessBoard::new();
    lone(&mut board, (4, 0), 1);
    lone(&mut board, (0, 6), 7);
    let left: Vec<_> = board.pieces.iter().filter(|p| p.position.is_some()).collect();
    assert_eq!(left.len(), 2);
    assert_eq!(left[1].piece_type, PieceType::Pawn);
    let black = left[0].position.unwrap();
    let white = left[1].position.unwrap();
    board.make_move(black, (3, 2));
    board.make_move(white, (3, 3));
    assert_eq!(plain(search(board, PieceColor::Black)), ((3, 2), (3, 3), i32::MAX));
    // The pawn cannot step onto the king and has nothing to take.
    assert_eq!(plain(search(board, PieceColor::White)), ((0, 0), (0, 0), i32::MAX));
}
