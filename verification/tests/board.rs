use iridium::bitcount;
use iridium::engine::Engine;
use iridium::fen::Fen;
use iridium::movegen::MoveGen;
use iridium::structs::{BitBoard, Board, Line, Move, Pieces, Sides};

#[test]
fn test_bitcount() {
    assert_eq!(8, bitcount(Board::default().bb_pieces[0][0].0));
}

#[test]
fn test_bitcount_values() {
    assert_eq!(0, bitcount(0));
    assert_eq!(64, bitcount(u64::MAX));
    assert_eq!(1, bitcount(1u64 << 63));
}

#[test]
fn test_bitboard_from_pos() {
    assert_eq!(BitBoard::from_pos(0).0, 1);
    assert_eq!(BitBoard::from_pos(12).0, 1u64 << 12);
}

#[test]
fn test_eval() {
    let test_fen: Vec<&str> =
        "rnbqkbnr/pppppppp/8/8/8/8/PPPPPPPP/RNBQKBNR b KQkq e3 0 1".split(" ").collect();

    let result = Engine::evaluate(Fen::from_fen(&test_fen).unwrap());
    assert_eq!(result, 0);
}

#[test]
fn test_eval_queen_up() {
    // White has king and queen against a bare king: ninety points of
    // material (a queen, in tenths of a pawn) plus the mobility difference
    // of twenty-two white moves against three black ones.
    let parts: Vec<&str> = "k7/8/8/8/8/8/8/KQ6 w - - 0 1".split(" ").collect();
    let board = Fen::from_fen(&parts).unwrap();
    assert_eq!(Engine::evaluate(board), 90 + (22 - 3));
}

#[test]
fn test_apply_move_pawn_push() {
    let mut board = Board::default();
    board.apply_move(Move { start: 12, dest: 28, capture: None });
    assert_eq!(board.bb_pieces[0][0].0 & (1u64 << 12), 0);
    assert_eq!(board.bb_pieces[0][0].0 & (1u64 << 28), 1u64 << 28);
    assert_eq!(board.turn, Sides::BLACK);
    // A double pawn push leaves the skipped square as the en-passant target.
    assert_eq!(board.en_passant_square, Some(20));
    assert_eq!(board.full_moves, 1);
    // The side unions follow the piece boards.
    assert_eq!(board.bb_sides[0].0, board.get_sides()[0].0);
}

#[test]
fn test_apply_move_revokes_castling() {
    let mut board = Board::default();
    // Moving the white king-side rook square revokes white's short castling.
    board.apply_move(Move { start: 7, dest: 23, capture: None });
    assert!(!board.white_can_oo);
    assert!(board.white_can_ooo);
    assert!(board.black_can_oo && board.black_can_ooo);
}

#[test]
fn test_apply_moves_sequence() {
    let mut board = Board::default();
    board.apply_moves(vec![
        Move { start: 12, dest: 28, capture: None },
        Move { start: 52, dest: 36, capture: None },
    ]);
    assert_eq!(board.turn, Sides::WHITE);
    assert_eq!(board.bb_pieces[0][0].0 & (1u64 << 28), 1u64 << 28);
    assert_eq!(board.bb_pieces[1][0].0 & (1u64 << 36), 1u64 << 36);
}

#[test]
fn test_check_capture_reads_destination() {
    let parts: Vec<&str> = "k7/8/8/3p4/8/8/8/K2R4 w - - 0 1".split(" ").collect();
    let board = Fen::from_fen(&parts).unwrap();
    // The black pawn on d5 is seen by a white mover, nothing on d4.
    assert_eq!(MoveGen::check_capture(35, board, Sides::WHITE), Some(Pieces::PAWN));
    assert_eq!(MoveGen::check_capture(27, board, Sides::WHITE), None);
}

#[test]
fn test_line_operations() {
    let m1 = Move { start: 12, dest: 28, capture: None };
    let m2 = Move { start: 52, dest: 36, capture: None };
    let mut line = Line::new();
    assert_eq!(line.len(), 0);
    line.add_move(m1);
    let mut tail = Line::new();
    tail.add_move(m2);
    line.extend(&tail);
    assert_eq!(line.len(), 2);
    assert_eq!(line.get(0), m1);
    assert_eq!(line.get(1), m2);
}

#[test]
fn test_queen_moves_from_center() {
    // A queen on d4 with only the two kings elsewhere: fourteen rook-like
    // moves and twelve bishop-like ones (the a1 corner is blocked by the
    // white king).
    let parts: Vec<&str> = "k7/8/8/8/3Q4/8/8/K7 w - - 0 1".split(" ").collect();
    let board = Fen::from_fen(&parts).unwrap();
    let moves = MoveGen::queen_moves(BitBoard(1u64 << 27), board, Sides::WHITE);
    assert_eq!(moves.len(), 26);
}

#[test]
fn test_knight_moves_from_corner() {
    let parts: Vec<&str> = "k7/8/8/8/8/8/8/N6K w - - 0 1".split(" ").collect();
    let board = Fen::from_fen(&parts).unwrap();
    let moves = MoveGen::knight_moves(BitBoard(1), board, Sides::WHITE);
    assert_eq!(moves.len(), 2);
    for m in moves.iter() {
        assert!(m.dest == 17 || m.dest == 10);
    }
}

#[test]
fn test_pawn_double_push_needs_clear_path() {
    // A blocked pawn on its home rank gets neither push; a clear one both.
    let parts: Vec<&str> = "k7/8/8/8/8/4n3/4P3/K7 w - - 0 1".split(" ").collect();
    let board = Fen::from_fen(&parts).unwrap();
    let blocked = MoveGen::pawn_moves(board.bb_pieces[0][0], board, Sides::WHITE);
    assert_eq!(blocked.len(), 0);
    let parts: Vec<&str> = "k7/8/8/8/8/8/4P3/K7 w - - 0 1".split(" ").collect();
    let board = Fen::from_fen(&parts).unwrap();
    let free = MoveGen::pawn_moves(board.bb_pieces[0][0], board, Sides::WHITE);
    assert_eq!(free.len(), 2);
}
