use iridium::engine::{Engine, INF};
use iridium::fen::Fen;
use iridium::movegen::MoveGen;
use iridium::structs::{Board, Move, Sides};
use iridium::threading::ThreadPool;

#[test]
fn test_movegen() {
    let test_fen: Vec<&str> =
        "rnbqkbnr/pppppppp/8/8/8/8/PPPPPPPP/RNBQKBNR b KQkq e3 0 1".split(" ").collect();

    let result = MoveGen::gen_moves(Fen::from_fen(&test_fen).unwrap(), Sides::BLACK, true);
    assert_eq!(result.len(), 20);
}

#[test]
fn test_perft_depth_one() {
    let board = Board::default();
    let moves = MoveGen::gen_moves(board, Sides::WHITE, true);
    assert_eq!(moves.len(), 20);
}

#[test]
fn test_perft_depth_two() {
    let board = Board::default();
    let moves = MoveGen::gen_moves(board, Sides::WHITE, true);
    let mut leaves = 0usize;
    for m in moves {
        let mut child = board;
        child.apply_move(m);
        leaves += MoveGen::gen_moves(child, Sides::BLACK, true).len();
    }
    assert_eq!(leaves, 400);
}

#[test]
fn test_legality_filter_blocks_self_check() {
    // A white king on e1 faces a black rook on e8 across an open file; the
    // white rook on e2 may not leave the file, only slide along it.
    let parts: Vec<&str> = "4r2k/8/8/8/8/8/4R3/4K3 w - - 0 1".split(" ").collect();
    let board = Fen::from_fen(&parts).unwrap();
    let legal = MoveGen::gen_moves(board, Sides::WHITE, true);
    for m in legal.iter() {
        if m.start == 12 {
            // The e2 rook stays on the e-file: its file index is four.
            assert_eq!(m.dest % 8, 4);
        }
    }
}

#[test]
fn test_full_window_search_matches_plain_maximum() {
    // With the full window nothing is pruned away: the search returns
    // exactly the best of the root moves' negated child values.
    let board = Board::default();
    let engine = Engine::new();
    let searched = engine.pvs(board, -INF, INF, 1);
    let plain = MoveGen::gen_moves(board, Sides::WHITE, true)
        .iter()
        .map(|m| root_score(board, *m, 1))
        .max()
        .unwrap();
    assert_eq!(searched, plain);
}

#[test]
fn test_negamax_symmetry_on_mirrored_board() {
    // The second position mirrors the first across the color axis. Under
    // the negamax convention each search scores its own mover, so the two
    // movers agree; equivalently, the white-relative scores of the two
    // positions negate each other.
    let a: Vec<&str> = "k7/8/8/8/8/8/8/KQ6 w - - 0 1".split(" ").collect();
    let b: Vec<&str> = "kq6/8/8/8/8/8/8/K7 b - - 0 1".split(" ").collect();
    let board_a = Fen::from_fen(&a).unwrap();
    let board_b = Fen::from_fen(&b).unwrap();
    let engine = Engine::new();
    let mover_a = engine.pvs(board_a, -INF, INF, 2);
    let mover_b = engine.pvs(board_b, -INF, INF, 2);
    assert_eq!(mover_a, mover_b);
    let white_relative_a = mover_a;
    let white_relative_b = -mover_b;
    assert_eq!(white_relative_a, -white_relative_b);
}

fn root_score(board: Board, m: Move, depth: u8) -> i32 {
    let mut child = board;
    child.apply_move(m);
    let engine = Engine::new();
    -engine.pvs(child, -INF, INF, depth - 1)
}

#[test]
fn test_parallel_and_sequential_pick_equal_scores() {
    // One chunk or many, the chosen move's score is the best root score.
    let board = Board::default();
    let mut narrow = ThreadPool::new(1);
    let mut wide = ThreadPool::new(30);
    let (m1, _) = narrow.search(board, Sides::WHITE, 2).unwrap();
    let (m2, _) = wide.search(board, Sides::WHITE, 2).unwrap();
    assert_eq!(root_score(board, m1, 2), root_score(board, m2, 2));
}

#[test]
fn test_search_start_position_returns_legal_opening() {
    let board = Board::default();
    let mut pool = ThreadPool::new(30);
    let (best, line) = pool.search(board, Sides::WHITE, 1).unwrap();
    let legal = MoveGen::gen_moves(board, Sides::WHITE, true);
    assert_eq!(legal.len(), 20);
    assert!(legal.iter().any(|m| *m == best));
    assert_eq!(line.len(), 1);
    assert_eq!(line.get(0), best);
    // Every opening move is quiet; a pawn push like e2e4 has this shape.
    assert_eq!(best.capture, None);
}

#[test]
fn test_search_reports_no_move_when_none_exists() {
    // The black king in the corner has every flight square covered by the
    // white rooks; the coordinator reports that no legal move exists.
    let parts: Vec<&str> = "k7/8/8/8/8/8/8/RR5K b - - 0 1".split(" ").collect();
    let board = Fen::from_fen(&parts).unwrap();
    let mut pool = ThreadPool::new(4);
    assert!(pool.search(board, Sides::BLACK, 1).is_none());
}

#[test]
fn test_search_chunk_covers_its_range() {
    let board = Board::default();
    let moves = MoveGen::gen_moves(board, Sides::WHITE, true);
    let (score, best) = ThreadPool::search_chunk(board, &moves, 0, moves.len(), 2);
    let best = best.unwrap();
    assert_eq!(root_score(board, best, 2), score);
    let (empty_score, none) = ThreadPool::search_chunk(board, &moves, 3, 3, 2);
    assert_eq!(empty_score, -INF);
    assert!(none.is_none());
}

#[test]
fn test_capture_is_preferred_when_winning() {
    // White to move can take a free black queen with the rook.
    let parts: Vec<&str> = "k7/8/8/8/8/8/8/KR1q4 w - - 0 1".split(" ").collect();
    let board = Fen::from_fen(&parts).unwrap();
    let mut pool = ThreadPool::new(2);
    let (best, _) = pool.search(board, Sides::WHITE, 1).unwrap();
    assert_eq!(best.start, 1);
    assert_eq!(best.dest, 3);
}
