use vstd::prelude::*;
use crate::structs::{bit, Board, Move, Sides};
use crate::movegen::{move_ok, spec_check_capture, MoveGen};
use crate::fen::{fen_board6, fen_ok6, Fen, FenError};
use crate::time::str_is;
use crate::{alg_value, alph_to_pos};

verus! {

proof fn lemma_union6_split(p0: u64, p1: u64, p2: u64, p3: u64, p4: u64, p5: u64, mm: u64)
    ensures
        (p0 | p1 | p2 | p3 | p4 | p5) & mm == 0 <==> (p0 & mm == 0 && p1 & mm == 0 && p2 & mm == 0
            && p3 & mm == 0 && p4 & mm == 0 && p5 & mm == 0),
{
    assert((p0 | p1 | p2 | p3 | p4 | p5) & mm == 0 <==> (p0 & mm == 0 && p1 & mm == 0 && p2 & mm
        == 0 && p3 & mm == 0 && p4 & mm == 0 && p5 & mm == 0)) by (bit_vector);
}

/// The move a token like `e2e4` describes on `b`: the side owning the start
/// square moves to the destination, recording the opposing piece standing
/// there. Rejected when either square name is bad, no side owns the start
/// square, or the mover already occupies the destination.
pub open spec fn move_of_token(b: Board, tok: Seq<char>) -> Result<(Sides, Move), FenError> {
    if tok.len() < 2 {
        Err(FenError)
    } else if alg_value(tok.take(2)) is None || alg_value(tok.skip(2)) is None {
        Err(FenError)
    } else {
        let start = alg_value(tok.take(2)).unwrap();
        let dest = alg_value(tok.skip(2)).unwrap();
        if b.side_occ(0) & bit(start) != 0 {
            if b.side_occ(0) & bit(dest) != 0 {
                Err(FenError)
            } else {
                Ok(
                    (
                        Sides::WHITE,
                        Move { start, dest, capture: spec_check_capture(b, Sides::WHITE, dest) },
                    ),
                )
            }
        } else if b.side_occ(1) & bit(start) != 0 {
            if b.side_occ(1) & bit(dest) != 0 {
                Err(FenError)
            } else {
                Ok(
                    (
                        Sides::BLACK,
                        Move { start, dest, capture: spec_check_capture(b, Sides::BLACK, dest) },
                    ),
                )
            }
        } else {
            Err(FenError)
        }
    }
}

/// Applies the move tokens `toks[j..]` in order. After each move the
/// full-move counter is set to the number of moves played so far and the
/// turn alternates starting from black.
pub open spec fn apply_tokens(toks: Seq<Seq<char>>, j: int, b: Board, count: int) -> Result<
    Board,
    FenError,
>
    decreases toks.len() - j,
{
    if j < 0 || j >= toks.len() {
        Ok(b)
    } else {
        match move_of_token(b, toks[j]) {
            Ok(sm) => {
                if b.full_moves == usize::MAX {
                    Err(FenError)
                } else {
                    let b2 = b.spec_apply(sm.1);
                    let b3 = Board {
                        full_moves: (count + 1) as usize,
                        turn: (if (count + 1) % 2 == 0 {
                            Sides::WHITE
                        } else {
                            Sides::BLACK
                        }),
                        ..b2
                    };
                    apply_tokens(toks, j + 1, b3, count + 1)
                }
            },
            Err(e) => Err(e),
        }
    }
}

/// One pass over a `position` command's tokens: `fen` reads the next six
/// tokens as a FEN record, `moves` plays out the following move tokens, and
/// anything else is skipped.
pub open spec fn pos_step(toks: Seq<Seq<char>>, i: int, b: Board) -> Result<Board, FenError>
    decreases toks.len() - i,
{
    if i < 0 || i >= toks.len() {
        Ok(b)
    } else {
        let w = toks[i];
        if w == "fen"@ {
            if i + 7 <= toks.len() {
                if fen_ok6(toks[i + 1], toks[i + 2], toks[i + 4], toks[i + 5], toks[i + 6]) {
                    pos_step(
                        toks,
                        i + 1,
                        fen_board6(
                            toks[i + 1],
                            toks[i + 2],
                            toks[i + 3],
                            toks[i + 4],
                            toks[i + 5],
                            toks[i + 6],
                        ),
                    )
                } else {
                    Err(FenError)
                }
            } else {
                Err(FenError)
            }
        } else if w == "moves"@ {
            match apply_tokens(toks, i + 1, b, 0) {
                Ok(b2) => pos_step(toks, i + 1, b2),
                Err(e) => Err(e),
            }
        } else {
            pos_step(toks, i + 1, b)
        }
    }
}

pub struct Position;

impl Position {
    /// Builds the board a `position` command describes: the starting
    /// position, or the given FEN record, with the listed moves applied.
    /// The result is well formed.
    pub fn parse_position(args: &[&str]) -> (r: Result<Board, FenError>)
        ensures
            r == pos_step(args.deep_view(), 0, Board::start_board()),
            r matches Ok(b) ==> b.wf(),
    {
        let ghost toks = args.deep_view();
        let mut board = Board::default();
        let n = args.len();
        proof {
            assert(toks.len() == args@.len());
        }
        let mut i: usize = 0;
        while i < n
            invariant
                n == toks.len(),
                i <= n,
                toks == args.deep_view(),
                board.wf(),
                pos_step(toks, 0, Board::start_board()) == pos_step(toks, i as int, board),
            decreases n - i,
        {
            let t = args[i];
            proof {
                assert(toks[i as int] == t@);
            }
            if str_is(t, "fen") {
                if n - i < 7 {
                    return Err(FenError);
                }
                let mut fv: Vec<&str> = Vec::new();
                fv.push(args[i + 1]);
                fv.push(args[i + 2]);
                fv.push(args[i + 3]);
                fv.push(args[i + 4]);
                fv.push(args[i + 5]);
                fv.push(args[i + 6]);
                proof {
                    assert(fv@[0]@ == toks[i as int + 1]);
                    assert(fv@[1]@ == toks[i as int + 2]);
                    assert(fv@[2]@ == toks[i as int + 3]);
                    assert(fv@[3]@ == toks[i as int + 4]);
                    assert(fv@[4]@ == toks[i as int + 5]);
                    assert(fv@[5]@ == toks[i as int + 6]);
                }
                match Fen::from_fen(fv.as_slice()) {
                    Ok(b) => {
                        board = b;
                    },
                    Err(e) => {
                        return Err(e);
                    },
                }
            } else if str_is(t, "moves") {
                let ghost b0 = board;
                let mut j: usize = i + 1;
                let mut count: usize = 0;
                while j < n
                    invariant
                        n == toks.len(),
                        i < n,
                        i as int + 1 <= j as int <= n,
                        count == j - i - 1,
                        toks == args.deep_view(),
                        board.wf(),
                        toks[i as int] == "moves"@,
                        toks[i as int] != "fen"@,
                        pos_step(toks, 0, Board::start_board()) == pos_step(toks, i as int, b0),
                        apply_tokens(toks, i as int + 1, b0, 0) == apply_tokens(
                            toks,
                            j as int,
                            board,
                            count as int,
                        ),
                    decreases n - j,
                {
                    let tok = args[j];
                    proof {
                        assert(toks[j as int] == tok@);
                    }
                    let tn = tok.unicode_len();
                    if tn < 2 {
                        return Err(FenError);
                    }
                    let ss = tok.substring_char(0, 2);
                    let es = tok.substring_char(2, tn);
                    proof {
                        assert(ss@ =~= tok@.take(2));
                        assert(es@ =~= tok@.skip(2));
                    }
                    let start = match alph_to_pos(ss) {
                        Ok(s) => s,
                        Err(_) => {
                            return Err(FenError);
                        },
                    };
                    let dest = match alph_to_pos(es) {
                        Ok(d) => d,
                        Err(_) => {
                            return Err(FenError);
                        },
                    };
                    proof {
                        assert(start < 64 && dest < 64);
                    }
                    let sides = board.get_sides();
                    let sbit: u64 = 1u64 << (start as u64);
                    let dbit: u64 = 1u64 << (dest as u64);
                    let side: Sides = if sides[0].0 & sbit != 0 {
                        Sides::WHITE
                    } else if sides[1].0 & sbit != 0 {
                        Sides::BLACK
                    } else {
                        return Err(FenError);
                    };
                    let own: u64 = if matches!(side, Sides::WHITE) {
                        sides[0].0
                    } else {
                        sides[1].0
                    };
                    if own & dbit != 0 {
                        return Err(FenError);
                    }
                    let capture = MoveGen::check_capture(dest, board, side);
                    if board.full_moves == usize::MAX {
                        return Err(FenError);
                    }
                    let m = Move { start, dest, capture };
                    proof {
                        let si = side.spec_idx();
                        lemma_union6_split(
                            board.piece(si, 0),
                            board.piece(si, 1),
                            board.piece(si, 2),
                            board.piece(si, 3),
                            board.piece(si, 4),
                            board.piece(si, 5),
                            bit(m.start),
                        );
                        assert(move_ok(board, side, m));
                        crate::movegen::lemma_apply_move_props(board, side, m);
                    }
                    board.apply_move(m);
                    count = count + 1;
                    board.full_moves = count;
                    board.turn = if count % 2 == 0 {
                        Sides::WHITE
                    } else {
                        Sides::BLACK
                    };
                    j = j + 1;
                }
                proof {
                    assert(apply_tokens(toks, j as int, board, count as int) == Ok::<
                        Board,
                        FenError,
                    >(board));
                    assert(pos_step(toks, i as int, b0) == pos_step(toks, i as int + 1, board));
                }
            }
            i = i + 1;
        }
        Ok(board)
    }
}

} // verus!
