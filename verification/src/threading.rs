use vstd::prelude::*;
use crate::structs::{Board, Line, Move, Sides};
use crate::movegen::{
    gen_moves_spec, lemma_apply_move_props, lemma_gen_moves_len, lemma_gen_moves_ok, move_ok,
    MoveGen,
};
use crate::engine::{
    best_in, lemma_best_in_split, lemma_value_bounds, max2, value, Engine, INF,
};

verus! {

/// The root-splitting coordinator: it cuts the legal root moves into at most
/// `limit` contiguous chunks, searches each chunk as one unit of work, and
/// keeps the best result across chunks.
pub struct ThreadPool {
    pub limit: u8,
}

impl ThreadPool {
    pub fn new(thread_limit: u8) -> (r: Self)
        ensures
            r.limit == thread_limit,
    {
        ThreadPool { limit: thread_limit }
    }

    /// One worker's unit of work: searches the root moves `moves[lo..hi]`,
    /// each applied to its own copy of the board and searched one ply
    /// shallower, and returns the chunk's best score with a move that
    /// attains it.
    pub fn search_chunk(board: Board, moves: &Vec<Move>, lo: usize, hi: usize, depth: u8) -> (r: (
        i32,
        Option<Move>,
    ))
        requires
            board.wf(),
            depth >= 1,
            board.full_moves + depth as int + board.total_pop() + 1 < usize::MAX,
            lo <= hi <= moves@.len(),
            moves@ == gen_moves_spec(board, board.turn, true),
        ensures
            r.0 == best_in(board, moves@, lo as int, hi as int, depth as int),
            r.1 is Some <==> lo < hi,
            r.1 matches Some(m) ==> exists|j: int|
                lo <= j < hi && moves@[j] == m && -value(board.spec_apply(m), depth as int - 1)
                    == r.0,
    {
        let ghost ms = moves@;
        proof {
            crate::engine::lemma_best_in_bounds(board, ms, lo as int, hi as int, depth as int);
        }
        let mut best: i32 = -INF;
        let mut best_move: Option<Move> = None;
        let mut j: usize = lo;
        while j < hi
            invariant
                board.wf(),
                depth >= 1,
                board.full_moves + depth as int + board.total_pop() + 1 < usize::MAX,
                -INF <= best,
                lo <= j <= hi <= ms.len(),
                moves@ == ms,
                ms == gen_moves_spec(board, board.turn, true),
                best_in(board, ms, lo as int, hi as int, depth as int) == max2(
                    best as int,
                    best_in(board, ms, j as int, hi as int, depth as int),
                ),
                best_move is Some <==> j > lo,
                best_move matches Some(m) ==> exists|t: int|
                    lo <= t < j && ms[t] == m && -value(board.spec_apply(m), depth as int - 1)
                        == best,
                best_move is None ==> best == -INF,
            decreases hi - j,
        {
            let m = moves[j];
            proof {
                lemma_gen_moves_ok(board, board.turn, true);
                assert(move_ok(board, board.turn, m));
                lemma_apply_move_props(board, board.turn, m);
            }
            let mut child = board;
            child.apply_move(m);
            let engine = Engine::new();
            let score = -engine.pvs(child, -INF, INF, depth - 1);
            proof {
                lemma_value_bounds(child, depth as int - 1);
                assert(score as int == -value(child, depth as int - 1));
                assert(best_in(board, ms, j as int, hi as int, depth as int) == max2(
                    -value(child, depth as int - 1),
                    best_in(board, ms, j as int + 1, hi as int, depth as int),
                ));
            }
            if score > best || matches!(best_move, None) {
                best = score;
                best_move = Some(m);
            }
            j = j + 1;
        }
        (best, best_move)
    }

    /// Splits the legal root move list into `min(limit, n)` contiguous
    /// chunks of near-equal size, searches every chunk at `depth - 1`, and
    /// reduces to the best (score, move) pair. `None` exactly when the side
    /// to move has no legal move.
    #[verifier::rlimit(100)]
    pub fn search(&mut self, board: Board, side: Sides, depth: u8) -> (r: Option<(Move, Line)>)
        requires
            board.wf(),
            side == board.turn,
            old(self).limit >= 1,
            depth >= 1,
            board.full_moves + depth as int + board.total_pop() + 1 < usize::MAX,
        ensures
            *final(self) == *old(self),
            r is None <==> gen_moves_spec(board, side, true).len() == 0,
            r matches Some((m, line)) ==> {
                let ms = gen_moves_spec(board, side, true);
                &&& line@ == seq![m]
                &&& exists|j: int| 0 <= j < ms.len() && ms[j] == m
                &&& -value(board.spec_apply(m), depth as int - 1) == value(board, depth as int)
            },
    {
        let moves = MoveGen::gen_moves(board, side, true);
        let n = moves.len();
        proof {
            lemma_gen_moves_len(board, side, true);
        }
        if n == 0 {
            return None;
        }
        let t: usize = if (self.limit as usize) < n {
            self.limit as usize
        } else {
            n
        };
        let q: usize = (n + t - 1) / t;
        let chunk_size: usize = if q == 0 {
            1
        } else {
            q
        };
        proof {
            assert(chunk_size <= 20000);
        }
        let ghost ms = moves@;
        proof {
            crate::engine::lemma_best_in_bounds(board, ms, 0, n as int, depth as int);
        }
        let mut best: i32 = -INF;
        let mut best_move: Option<Move> = None;
        let mut start: usize = 0;
        while start < n
            invariant
                board.wf(),
                side == board.turn,
                depth >= 1,
                board.full_moves + depth as int + board.total_pop() + 1 < usize::MAX,
                -INF <= best,
                start <= n == ms.len() <= 8448,
                1 <= chunk_size <= 20000,
                moves@ == ms,
                ms == gen_moves_spec(board, board.turn, true),
                best_in(board, ms, 0, n as int, depth as int) == max2(
                    best as int,
                    best_in(board, ms, start as int, n as int, depth as int),
                ),
                best_move is Some <==> start > 0,
                best_move matches Some(m) ==> exists|t2: int|
                    0 <= t2 < start && ms[t2] == m && -value(board.spec_apply(m), depth as int - 1)
                        == best,
                best_move is None ==> best == -INF,
            decreases n - start,
        {
            let end: usize = if start + chunk_size < n {
                start + chunk_size
            } else {
                n
            };
            let (cbest, cmove) = Self::search_chunk(board, &moves, start, end, depth);
            proof {
                crate::engine::lemma_best_in_bounds(
                    board,
                    ms,
                    start as int,
                    end as int,
                    depth as int,
                );
                crate::engine::lemma_best_in_bounds(board, ms, end as int, n as int, depth as int);
                lemma_best_in_split(board, ms, start as int, end as int, n as int, depth as int);
            }
            match cmove {
                Some(cm) => {
                    if cbest > best || matches!(best_move, None) {
                        best = cbest;
                        best_move = Some(cm);
                    }
                },
                None => {},
            }
            start = end;
        }
        match best_move {
            Some(m) => {
                let mut line = Line::new();
                line.add_move(m);
                proof {
                    assert(best as int == best_in(board, ms, 0, n as int, depth as int));
                    assert(line@ =~= seq![m]);
                }
                Some((m, line))
            },
            None => {
                proof {
                    assert(false);
                }
                None
            },
        }
    }
}

} // verus!
