use chess_engine::board::{ChessBoard, PieceColor, PieceType};
use chess_engine::game::{update, Model, Msg};

fn same_board(a: &ChessBoard, b: &ChessBoard) -> bool {
    a.board == b.board && (0..32).all(|i| a.pieces[i].position == b.pieces[i].position)
}

#[test]
fn a_game_starts_on_the_new_board_with_nothing_picked() {
    let model = Model::new();
    assert!(same_board(&model.board, &ChessBoard::new()));
    assert_eq!(model.selected, None);
}

#[test]
fn a_click_on_a_white_piece_picks_it() {
    let mut model = Model::new();
    assert!(!update(Msg::Select(4, 6), &mut model));
    assert_eq!(model.selected, Some((4, 6)));
    assert!(same_board(&model.board, &ChessBoard::new()));
}

#[test]
fn a_click_on_a_black_piece_or_an_empty_square_picks_nothing() {
    let mut model = Model::new();
    assert!(!update(Msg::Select(4, 1), &mut model));
    assert_eq!(model.selected, None);
    assert!(!update(Msg::Select(4, 4), &mut model));
    assert_eq!(model.selected, None);
    assert!(same_board(&model.board, &ChessBoard::new()));
}

#[test]
fn a_second_click_on_the_picked_square_lets_go() {
    let mut model = Model::new();
    update(Msg::Select(4, 6), &mut model);
    assert!(!update(Msg::Select(4, 6), &mut model));
    assert_eq!(model.selected, None);
    assert!(same_board(&model.board, &ChessBoard::new()));
}

#[test]
fn a_click_on_a_destination_moves_and_asks_for_the_reply() {
    let mut model = Model::new();
    update(Msg::Select(4, 6), &mut model);
    assert!(update(Msg::Select(4, 5), &mut model));
    assert_eq!(model.selected, None);
    assert!(model.board.get(4, 6).is_none());
    let pawn = model.board.get(4, 5).unwrap();
    assert_eq!(pawn.piece_color, PieceColor::White);
    assert_eq!(pawn.piece_type, PieceType::Pawn);
    assert_eq!(pawn.position, Some((4, 5)));
    let mut want = ChessBoard::new();
    want.make_move((4, 6), (4, 5));
    assert!(same_board(&model.board, &want));
}

#[test]
fn a_click_elsewhere_keeps_or_changes_the_pick() {
    let mut model = Model::new();
    update(Msg::Select(4, 6), &mut model);
    // Not a destination and empty: the pick stays.
    assert!(!update(Msg::Select(4, 3), &mut model));
    assert_eq!(model.selected, Some((4, 6)));
    // Not a destination and black: the pick stays.
    assert!(!update(Msg::Select(0, 1), &mut model));
    assert_eq!(model.selected, Some((4, 6)));
    // Another white piece: the pick goes over to it.
    assert!(!update(Msg::Select(1, 7), &mut model));
    assert_eq!(model.selected, Some((1, 7)));
    assert!(same_board(&model.board, &ChessBoard::new()));
}

#[test]
fn the_reply_is_made_whatever_it_is() {
    let mut model = Model::new();
    update(Msg::Select(1, 7), &mut model);
    assert!(!update(Msg::EnemyMove(1, 0, 2, 2), &mut model));
    assert_eq!(model.selected, Some((1, 7)));
    let mut want = ChessBoard::new();
    want.make_move((1, 0), (2, 2));
    assert!(same_board(&model.board, &want));
    // The move that stands for none changes nothing.
    assert!(!update(Msg::EnemyMove(0, 0, 0, 0), &mut model));
    assert!(same_board(&model.board, &want));
    // A move that the rules do not know is made as well.
    assert!(!update(Msg::EnemyMove(0, 0, 4, 4), &mut model));
    want.make_move((0, 0), (4, 4));
    assert!(same_board(&model.board, &want));
}

#[test]
fn a_picked_piece_that_was_taken_moves_nothing() {
    let mut model = Model::new();
    update(Msg::Select(4, 6), &mut model);
    // Black takes the picked pawn away from under the pick.
    update(Msg::EnemyMove(4, 4, 4, 6), &mut model);
    assert!(model.board.get(4, 6).is_none());
    assert_eq!(model.selected, Some((4, 6)));
    assert!(!update(Msg::Select(4, 5), &mut model));
    assert_eq!(model.selected, Some((4, 6)));
    assert!(model.board.get(4, 5).is_none());
}

#[test]
fn a_new_board_and_its_successors_are_valid() {
    let mut board = ChessBoard::new();
    assert!(board.is_valid());
    for (from, to) in [((4, 1), (4, 3)), ((3, 7), (4, 0)), ((5, 5), (0, 0)), ((7, 7), (7, 7))] {
        board.make_move(from, to);
        assert!(board.is_valid());
    }
}

#[test]
fn a_board_that_disagrees_with_itself_is_not_valid() {
    let fresh = ChessBoard::new();
    let mut board = fresh;
    board.board[4][4] = Some(0);
    assert!(!board.is_valid());
    let mut board = fresh;
    board.board[0][0] = None;
    assert!(!board.is_valid());
    let mut board = fresh;
    board.board[3][3] = Some(40);
    assert!(!board.is_valid());
    let mut board = fresh;
    board.pieces[5].position = None;
    assert!(!board.is_valid());
    let mut board = fresh;
    board.pieces[5].position = Some((5, 8));
    assert!(!board.is_valid());
    let mut board = fresh;
    board.pieces[5].position = Some((4, 4));
    assert!(!board.is_valid());
    let mut board = fresh;
    board.pieces[7].id = 9;
    assert!(!board.is_valid());
    let mut board = fresh;
    board.pieces[7].piece_color = PieceColor::White;
    assert!(!board.is_valid());
    let mut board = fresh;
    board.pieces[20].piece_color = PieceColor::Black;
    assert!(!board.is_valid());
    // The kind of a piece is free.
    let mut board = fresh;
    board.pieces[8].piece_type = PieceType::Queen;
    assert!(board.is_valid());
}
