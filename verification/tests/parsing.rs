use iridium::fen::Fen;
use iridium::position::Position;
use iridium::structs::{Pieces, Sides};
use iridium::time::{Constraints, Time, TimerKeeper};
use iridium::{alph_to_pos, pos_to_alph, NotationError};

#[test]
fn test_time() {
    let command: Vec<&str> = "go wtime 300000 btime 300000 winc 0 binc 0".split(" ").collect();

    let res = Time::parse_time(&command[0..]);

    assert_eq!(
        res,
        Constraints {
            time: Some(TimerKeeper { time_msec: [300000, 300000], inc_msec: [0, 0], mtg: 0 }),
            depth: None,
            nodes: None,
            mate: None,
            movetime: None,
            infinite: false,
            ponder: false
        }
    );
}

#[test]
fn test_time_depth_and_flags() {
    let command: Vec<&str> = "go depth 5 infinite".split(" ").collect();
    let res = Time::parse_time(&command[0..]);
    assert_eq!(res.depth, Some(5));
    assert!(res.infinite);
    assert!(!res.ponder);
}

#[test]
fn test_alph_to_pos() {
    assert_eq!(alph_to_pos("e5"), Ok(36))
}

#[test]
fn test_pos_to_alph() {
    assert_eq!(pos_to_alph(36), Ok("e5".to_string()))
}

#[test]
fn test_notation_round_trip_all_squares() {
    for s in 0u8..64 {
        let name = pos_to_alph(s).unwrap();
        assert_eq!(alph_to_pos(&name), Ok(s));
    }
}

#[test]
fn test_notation_rejects_bad_input() {
    assert_eq!(pos_to_alph(64), Err(NotationError));
    assert_eq!(alph_to_pos("i5"), Err(NotationError));
    assert_eq!(alph_to_pos("e9"), Err(NotationError));
    assert_eq!(alph_to_pos("e"), Err(NotationError));
}

#[test]
fn test_from_fen_start_position() {
    let parts: Vec<&str> =
        "rnbqkbnr/pppppppp/8/8/8/8/PPPPPPPP/RNBQKBNR w KQkq - 0 1".split(" ").collect();
    let board = Fen::from_fen(&parts).unwrap();
    assert_eq!(board.turn, Sides::WHITE);
    assert!(board.white_can_oo && board.white_can_ooo);
    assert!(board.black_can_oo && board.black_can_ooo);
    assert_eq!(board.en_passant_square, None);
    assert_eq!(board.half_moves, 0);
    assert_eq!(board.full_moves, 1);
    // White pawns stand on the second rank, black pawns on the seventh.
    assert_eq!(board.bb_pieces[0][0].0, 65280);
    assert_eq!(board.bb_pieces[1][0].0, 71776119061217280);
    assert_eq!(board.bb_sides[0].0, 65535);
    assert_eq!(board.bb_sides[1].0, 18446462598732840960);
}

#[test]
fn test_from_fen_en_passant_square() {
    let parts: Vec<&str> =
        "rnbqkbnr/pppppppp/8/8/8/8/PPPPPPPP/RNBQKBNR b KQkq e3 0 1".split(" ").collect();
    let board = Fen::from_fen(&parts).unwrap();
    assert_eq!(board.turn, Sides::BLACK);
    assert_eq!(board.en_passant_square, Some(20));
}

#[test]
fn test_from_fen_rejects_bad_records() {
    // Too few fields.
    let parts: Vec<&str> = "8/8/8/8/8/8/8/8 w KQkq -".split(" ").collect();
    assert!(Fen::from_fen(&parts).is_err());
    // Seven rank groups only.
    let parts: Vec<&str> = "8/8/8/8/8/8/8 w - - 0 1".split(" ").collect();
    assert!(Fen::from_fen(&parts).is_err());
    // Unknown side-to-move token.
    let parts: Vec<&str> = "8/8/8/8/8/8/8/8 x - - 0 1".split(" ").collect();
    assert!(Fen::from_fen(&parts).is_err());
    // A rank that overruns its eight files.
    let parts: Vec<&str> = "ppppppppp/8/8/8/8/8/8/8 w - - 0 1".split(" ").collect();
    assert!(Fen::from_fen(&parts).is_err());
    // A counter that is not a number.
    let parts: Vec<&str> = "8/8/8/8/8/8/8/8 w - - x 1".split(" ").collect();
    assert!(Fen::from_fen(&parts).is_err());
    // A bad en-passant square.
    let parts: Vec<&str> = "8/8/8/8/8/8/8/8 w - z9 0 1".split(" ").collect();
    assert!(Fen::from_fen(&parts).is_err());
}

#[test]
fn test_parse_position_startpos_with_moves() {
    let args: Vec<&str> = "position startpos moves e2e4".split(" ").collect();
    let board = Position::parse_position(&args).unwrap();
    // The king pawn stands on e4 and has left e2.
    assert_eq!(board.bb_pieces[0][0].0 & (1u64 << 28), 1u64 << 28);
    assert_eq!(board.bb_pieces[0][0].0 & (1u64 << 12), 0);
    assert_eq!(board.full_moves, 1);
    assert_eq!(board.turn, Sides::BLACK);
}

#[test]
fn test_parse_position_rejects_bad_move() {
    let args: Vec<&str> = "position startpos moves e5e6".split(" ").collect();
    // No piece stands on e5 at the start.
    assert!(Position::parse_position(&args).is_err());
}

#[test]
fn test_piece_conversions() {
    assert_eq!(Pieces::from_char('K'), Some((Sides::WHITE, Pieces::KING)));
    assert_eq!(Pieces::from_char('q'), Some((Sides::BLACK, Pieces::QUEEN)));
    assert_eq!(Pieces::from_char('x'), None);
    assert_eq!(Pieces::from_usize(2), Some(Pieces::KNIGHT));
    assert_eq!(Pieces::from_usize(6), None);
    assert_eq!(Sides::from_usize(0), Some(Sides::WHITE));
    assert_eq!(Sides::from_usize(1), Some(Sides::BLACK));
    assert_eq!(Sides::from_usize(2), None);
}

#[test]
fn test_time_negative_value() {
    let command: Vec<&str> = "go wtime -500".split(" ").collect();
    let res = Time::parse_time(&command[0..]);
    assert_eq!(res.time, Some(TimerKeeper { time_msec: [-500, 0], inc_msec: [0, 0], mtg: 0 }));
}

#[test]
fn test_from_fen_rejects_huge_counter() {
    let parts: Vec<&str> = "8/8/8/8/8/8/8/8 w - - 99999999999999999999999999 1".split(" ").collect();
    assert!(Fen::from_fen(&parts).is_err());
}
