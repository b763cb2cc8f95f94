use vstd::prelude::*;
use crate::bitcount;
use crate::structs::{lemma_popn_bound, pop64, Board, Move, Sides};
use crate::movegen::{
    all_moves_spec, gen_moves_spec, lemma_apply_move_props, lemma_gen_moves_len,
    lemma_gen_moves_ok, move_ok, MoveGen,
};

verus! {

/// A score that no reachable position attains; the search windows stay
/// strictly inside it.
pub const INF: i32 = 1000000;

/// No static score leaves this band: material is at most 64 pieces of the
/// heaviest weight and mobility at most one generator's worth of moves.
pub const SCORE_BOUND: i32 = 150000;

pub open spec fn max2(a: int, b: int) -> int {
    if a >= b {
        a
    } else {
        b
    }
}

/// Fail-hard windowing: a score below the window reports the window's low
/// edge, one above it the high edge.
pub open spec fn clamp(v: int, lo: int, hi: int) -> int {
    if v <= lo {
        lo
    } else if v >= hi {
        hi
    } else {
        v
    }
}

/// Material difference, white-relative, in tenths of a pawn:
/// king 200, queen 9, rook 5, knight and bishop 3, pawn 1, times ten.
pub open spec fn material_spec(b: Board) -> int {
    2000 * (pop64(b.piece(0, 5)) - pop64(b.piece(1, 5))) + 90 * (pop64(b.piece(0, 4)) - pop64(
        b.piece(1, 4),
    )) + 50 * (pop64(b.piece(0, 3)) - pop64(b.piece(1, 3))) + 30 * ((pop64(b.piece(0, 2)) - pop64(
        b.piece(1, 2),
    )) + (pop64(b.piece(0, 1)) - pop64(b.piece(1, 1)))) + 10 * (pop64(b.piece(0, 0)) - pop64(
        b.piece(1, 0),
    ))
}

/// White-relative static score: material plus the pseudo-legal mobility
/// difference, one point (a tenth of a pawn) per move.
pub open spec fn eval_spec(b: Board) -> int {
    material_spec(b) + all_moves_spec(b, Sides::WHITE).len() - all_moves_spec(
        b,
        Sides::BLACK,
    ).len()
}

pub proof fn lemma_eval_bounds(b: Board)
    ensures
        -SCORE_BOUND < eval_spec(b) < SCORE_BOUND,
{
    lemma_popn_bound(b.piece(0, 0), 64);
    lemma_popn_bound(b.piece(0, 1), 64);
    lemma_popn_bound(b.piece(0, 2), 64);
    lemma_popn_bound(b.piece(0, 3), 64);
    lemma_popn_bound(b.piece(0, 4), 64);
    lemma_popn_bound(b.piece(0, 5), 64);
    lemma_popn_bound(b.piece(1, 0), 64);
    lemma_popn_bound(b.piece(1, 1), 64);
    lemma_popn_bound(b.piece(1, 2), 64);
    lemma_popn_bound(b.piece(1, 3), 64);
    lemma_popn_bound(b.piece(1, 4), 64);
    lemma_popn_bound(b.piece(1, 5), 64);
    lemma_gen_moves_len(b, Sides::WHITE, false);
    lemma_gen_moves_len(b, Sides::BLACK, false);
}

/// The quiescence value of a position: the side to move may stand pat on the
/// static score or play the best capture, recursively.
pub open spec fn qvalue(b: Board) -> int
    decreases b.total_pop(), gen_moves_spec(b, b.turn, true).len() + 1,
{
    max2(
        (if b.turn is WHITE {
            eval_spec(b)
        } else {
            -eval_spec(b)
        }),
        qbest(b, gen_moves_spec(b, b.turn, true), 0),
    )
}

/// The best capture continuation among `ms[i..]`, negamax convention.
pub open spec fn qbest(b: Board, ms: Seq<Move>, i: int) -> int
    decreases b.total_pop(), ms.len() - i,
{
    if i < 0 || i >= ms.len() {
        -INF
    } else {
        let rest = qbest(b, ms, i + 1);
        if ms[i].capture is Some && b.spec_apply(ms[i]).total_pop() < b.total_pop() {
            max2(-qvalue(b.spec_apply(ms[i])), rest)
        } else {
            rest
        }
    }
}

/// The negamax value of a position at `d` plies: at the horizon the
/// quiescence value, otherwise the best legal move's negated child value;
/// `-INF` when no legal move exists.
pub open spec fn value(b: Board, d: int) -> int
    decreases d, gen_moves_spec(b, b.turn, true).len() + 1,
{
    if d <= 0 {
        qvalue(b)
    } else {
        let ms = gen_moves_spec(b, b.turn, true);
        best_in(b, ms, 0, ms.len() as int, d)
    }
}

/// The best of the moves `ms[lo..hi]` played on `b`, each searched `d - 1`
/// plies deeper; `-INF` when the range is empty.
pub open spec fn best_in(b: Board, ms: Seq<Move>, lo: int, hi: int, d: int) -> int
    decreases d, hi - lo,
{
    if d < 1 || lo < 0 || lo >= hi || hi > ms.len() {
        -INF
    } else {
        max2(-value(b.spec_apply(ms[lo]), d - 1), best_in(b, ms, lo + 1, hi, d))
    }
}

pub proof fn lemma_qvalue_bounds(b: Board)
    ensures
        -SCORE_BOUND < qvalue(b) < SCORE_BOUND,
    decreases b.total_pop(), gen_moves_spec(b, b.turn, true).len() + 1,
{
    lemma_eval_bounds(b);
    lemma_qbest_bounds(b, gen_moves_spec(b, b.turn, true), 0);
}

pub proof fn lemma_qbest_bounds(b: Board, ms: Seq<Move>, i: int)
    ensures
        -INF <= qbest(b, ms, i) < SCORE_BOUND,
    decreases b.total_pop(), ms.len() - i,
{
    if 0 <= i < ms.len() {
        lemma_qbest_bounds(b, ms, i + 1);
        if ms[i].capture is Some && b.spec_apply(ms[i]).total_pop() < b.total_pop() {
            lemma_qvalue_bounds(b.spec_apply(ms[i]));
        }
    }
}

pub proof fn lemma_value_bounds(b: Board, d: int)
    ensures
        -INF <= value(b, d) <= INF,
    decreases d, gen_moves_spec(b, b.turn, true).len() + 1,
{
    if d <= 0 {
        lemma_qvalue_bounds(b);
    } else {
        let ms = gen_moves_spec(b, b.turn, true);
        lemma_best_in_bounds(b, ms, 0, ms.len() as int, d);
    }
}

pub proof fn lemma_best_in_bounds(b: Board, ms: Seq<Move>, lo: int, hi: int, d: int)
    ensures
        -INF <= best_in(b, ms, lo, hi, d) <= INF,
    decreases d, hi - lo,
{
    if !(d < 1 || lo < 0 || lo >= hi || hi > ms.len()) {
        lemma_value_bounds(b.spec_apply(ms[lo]), d - 1);
        lemma_best_in_bounds(b, ms, lo + 1, hi, d);
    }
}


/// The best move over a range is the better of the bests of any two-way
/// split of the range.
pub proof fn lemma_best_in_split(b: Board, ms: Seq<Move>, lo: int, mid: int, hi: int, d: int)
    requires
        0 <= lo <= mid <= hi <= ms.len(),
        d >= 1,
    ensures
        best_in(b, ms, lo, hi, d) == max2(best_in(b, ms, lo, mid, d), best_in(b, ms, mid, hi, d)),
    decreases mid - lo,
{
    if lo < mid {
        lemma_best_in_split(b, ms, lo + 1, mid, hi, d);
    } else {
        lemma_best_in_bounds(b, ms, mid, hi, d);
    }
}

pub struct Engine {
    /// Depth bookkeeping slot of the engine's interface; the search itself
    /// tracks the first child of each node by its position.
    pub current_depth: u8,
}

impl Engine {
    pub fn new() -> (r: Self)
        ensures
            r.current_depth == 0,
    {
        Engine { current_depth: 0 }
    }

    /// The white-relative static score of a position, in tenths of a pawn.
    pub fn evaluate(board: Board) -> (r: i32)
        ensures
            r == eval_spec(board),
            -SCORE_BOUND < r < SCORE_BOUND,
    {
        proof {
            lemma_eval_bounds(board);
        }
        let bb = board.bb_pieces;
        let wp = bitcount(bb[0][0].0) as i32;
        let wb = bitcount(bb[0][1].0) as i32;
        let wn = bitcount(bb[0][2].0) as i32;
        let wr = bitcount(bb[0][3].0) as i32;
        let wq = bitcount(bb[0][4].0) as i32;
        let wk = bitcount(bb[0][5].0) as i32;
        let bp = bitcount(bb[1][0].0) as i32;
        let bbp = bitcount(bb[1][1].0) as i32;
        let bn = bitcount(bb[1][2].0) as i32;
        let br = bitcount(bb[1][3].0) as i32;
        let bq = bitcount(bb[1][4].0) as i32;
        let bk = bitcount(bb[1][5].0) as i32;
        proof {
            lemma_popn_bound(bb[0][0].0, 64);
            lemma_popn_bound(bb[0][1].0, 64);
            lemma_popn_bound(bb[0][2].0, 64);
            lemma_popn_bound(bb[0][3].0, 64);
            lemma_popn_bound(bb[0][4].0, 64);
            lemma_popn_bound(bb[0][5].0, 64);
            lemma_popn_bound(bb[1][0].0, 64);
            lemma_popn_bound(bb[1][1].0, 64);
            lemma_popn_bound(bb[1][2].0, 64);
            lemma_popn_bound(bb[1][3].0, 64);
            lemma_popn_bound(bb[1][4].0, 64);
            lemma_popn_bound(bb[1][5].0, 64);
        }
        let material = 2000 * (wk - bk) + 90 * (wq - bq) + 50 * (wr - br) + 30 * ((wn - bn) + (wb
            - bbp)) + 10 * (wp - bp);
        let white_moves = MoveGen::gen_moves(board, Sides::WHITE, false);
        let black_moves = MoveGen::gen_moves(board, Sides::BLACK, false);
        proof {
            lemma_gen_moves_len(board, Sides::WHITE, false);
            lemma_gen_moves_len(board, Sides::BLACK, false);
        }
        material + (white_moves.len() as i32 - black_moves.len() as i32)
    }

    /// Capture-only extension at the search horizon: stand pat on the static
    /// score, then try captures, fail-hard in `[alpha, beta]`.
    fn quiesce(board: Board, alpha: i32, beta: i32) -> (r: i32)
        requires
            board.wf(),
            board.full_moves + board.total_pop() + 1 < usize::MAX,
            -INF <= alpha < beta <= INF,
        ensures
            r == clamp(qvalue(board), alpha as int, beta as int),
        decreases 0int, board.total_pop(),
    {
        let white_eval = Engine::evaluate(board);
        let stand: i32 = if matches!(board.turn, Sides::WHITE) {
            white_eval
        } else {
            -white_eval
        };
        proof {
            lemma_qbest_bounds(board, gen_moves_spec(board, board.turn, true), 0);
        }
        if stand >= beta {
            return beta;
        }
        let mut a = alpha;
        if stand > a {
            a = stand;
        }
        let moves = MoveGen::gen_moves(board, board.turn, true);
        let ghost ms = moves@;
        let ghost qv = qvalue(board);
        let mut i: usize = 0;
        while i < moves.len()
            invariant
                board.wf(),
                board.full_moves + board.total_pop() + 1 < usize::MAX,
                -INF <= alpha < beta <= INF,
                alpha <= a < beta,
                i <= ms.len(),
                moves@ == ms,
                ms == gen_moves_spec(board, board.turn, true),
                qv == qvalue(board),
                clamp(qv, alpha as int, beta as int) == clamp(
                    max2(a as int, qbest(board, ms, i as int)),
                    alpha as int,
                    beta as int,
                ),
            decreases ms.len() - i,
        {
            let m = moves[i];
            proof {
                lemma_gen_moves_ok(board, board.turn, true);
                assert(move_ok(board, board.turn, m));
            }
            if matches!(m.capture, Some(_)) {
                proof {
                    lemma_apply_move_props(board, board.turn, m);
                }
                let mut child = board;
                child.apply_move(m);
                let score = -Engine::quiesce(child, -beta, -a);
                proof {
                    assert(score == clamp(-qvalue(child), a as int, beta as int));
                }
                if score >= beta {
                    proof {
                        assert(qbest(board, ms, i as int) >= -qvalue(child));
                        assert(clamp(qv, alpha as int, beta as int) == beta);
                    }
                    return beta;
                }
                if score > a {
                    a = score;
                }
            }
            i = i + 1;
        }
        proof {
            assert(qbest(board, ms, ms.len() as int) == -INF);
            assert(clamp(qv, alpha as int, beta as int) == a);
        }
        a
    }

    /// Principal-variation search: the first child gets the full window,
    /// later children a null-window probe and, if the probe beats alpha, a
    /// full re-search. Fail-hard: the result is the negamax value of the
    /// position clamped to `[alpha, beta]`.
    pub fn pvs(&self, board: Board, alpha: i32, beta: i32, depth: u8) -> (r: i32)
        requires
            board.wf(),
            board.full_moves + depth as int + board.total_pop() + 1 < usize::MAX,
            -INF <= alpha < beta <= INF,
        ensures
            r == clamp(value(board, depth as int), alpha as int, beta as int),
        decreases depth as int + 1, board.total_pop(),
    {
        if depth == 0 {
            return Engine::quiesce(board, alpha, beta);
        }
        let moves = MoveGen::gen_moves(board, board.turn, true);
        let ghost ms = moves@;
        let ghost v = value(board, depth as int);
        proof {
            assert(v == best_in(board, ms, 0, ms.len() as int, depth as int));
        }
        let mut a = alpha;
        let mut i: usize = 0;
        while i < moves.len()
            invariant
                board.wf(),
                board.full_moves + depth as int + board.total_pop() + 1 < usize::MAX,
                depth >= 1,
                -INF <= alpha < beta <= INF,
                alpha <= a < beta,
                i <= ms.len(),
                moves@ == ms,
                ms == gen_moves_spec(board, board.turn, true),
                v == value(board, depth as int),
                clamp(v, alpha as int, beta as int) == clamp(
                    max2(a as int, best_in(board, ms, i as int, ms.len() as int, depth as int)),
                    alpha as int,
                    beta as int,
                ),
            decreases ms.len() - i,
        {
            let m = moves[i];
            proof {
                lemma_gen_moves_ok(board, board.turn, true);
                assert(move_ok(board, board.turn, m));
                lemma_apply_move_props(board, board.turn, m);
            }
            let mut child = board;
            child.apply_move(m);
            let ghost w = -value(child, depth as int - 1);
            proof {
                lemma_value_bounds(child, depth as int - 1);
                assert(best_in(board, ms, i as int, ms.len() as int, depth as int) == max2(
                    w,
                    best_in(board, ms, i as int + 1, ms.len() as int, depth as int),
                ));
            }
            let mut score: i32;
            if i == 0 {
                score = -self.pvs(child, -beta, -a, depth - 1);
                proof {
                    assert(score == clamp(w, a as int, beta as int));
                }
            } else {
                score = -self.pvs(child, -a - 1, -a, depth - 1);
                proof {
                    assert(score == clamp(w, a as int, a as int + 1));
                }
                if score > a && beta - a > 1 {
                    score = -self.pvs(child, -beta, -a, depth - 1);
                    proof {
                        assert(score == clamp(w, a as int, beta as int));
                    }
                }
            }
            proof {
                assert(score as int == clamp(w, a as int, beta as int) || (score as int == clamp(
                    w,
                    a as int,
                    a as int + 1,
                ) && w <= a));
            }
            if score >= beta {
                proof {
                    assert(clamp(v, alpha as int, beta as int) == beta);
                }
                return beta;
            }
            if score > a {
                a = score;
            }
            i = i + 1;
        }
        proof {
            assert(best_in(board, ms, ms.len() as int, ms.len() as int, depth as int) == -INF);
            assert(clamp(v, alpha as int, beta as int) == a);
        }
        a
    }
}

} // verus!
