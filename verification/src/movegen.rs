use vstd::prelude::*;
use crate::structs::{bit, kind_at, BitBoard, Board, Move, Pieces, Sides};

verus! {

pub open spec fn file_of(s: int) -> int {
    s % 8
}

pub open spec fn rank_of(s: int) -> int {
    s / 8
}

pub open spec fn min2(a: int, b: int) -> int {
    if a < b {
        a
    } else {
        b
    }
}

/// The last (highest) piece row of side `o` among rows `0..n` whose board
/// holds square `p`: the kind an ascending overwrite scan reports.
pub open spec fn last_cap_from(b: Board, o: int, p: u8, n: int) -> Option<Pieces>
    decreases n,
{
    if n <= 0 {
        None
    } else if b.piece(o, n - 1) & bit(p) != 0 {
        Some(kind_at(n - 1))
    } else {
        last_cap_from(b, o, p, n - 1)
    }
}

/// The opposing piece kind standing on square `p`, if the opposing side
/// occupies it.
pub open spec fn spec_check_capture(b: Board, side: Sides, p: u8) -> Option<Pieces> {
    let o = side.spec_flip().spec_idx();
    if b.bb_sides[o].0 & bit(p) != 0 {
        last_cap_from(b, o, p, 6)
    } else {
        None
    }
}

/// One step of a slider's ray: squares `s0 + step*i` for `i` up to `len`,
/// stopping at the board edge, before an own piece, or on a capture.
pub open spec fn ray(b: Board, side: Sides, s0: u8, step: int, i: int, len: int) -> Seq<Move>
    decreases len - i + 1,
{
    if i > len {
        Seq::empty()
    } else {
        let t = s0 + step * i;
        if !(0 <= t < 64) {
            Seq::empty()
        } else if b.bb_sides[side.spec_idx()].0 & bit(t as u8) != 0 {
            Seq::empty()
        } else {
            let cap = spec_check_capture(b, side, t as u8);
            let m = Move { start: s0, dest: t as u8, capture: cap };
            if cap is Some {
                seq![m]
            } else {
                seq![m] + ray(b, side, s0, step, i + 1, len)
            }
        }
    }
}

/// A single king or knight step of `(df, dr)` from `s`, kept when it stays
/// on the board and does not land on an own piece.
pub open spec fn step_cand(b: Board, side: Sides, s: u8, df: int, dr: int) -> Seq<Move> {
    let f = file_of(s as int) + df;
    let r = rank_of(s as int) + dr;
    if 0 <= f < 8 && 0 <= r < 8 {
        let t = (r * 8 + f) as u8;
        if b.bb_sides[side.spec_idx()].0 & bit(t) != 0 {
            Seq::empty()
        } else {
            seq![Move { start: s, dest: t, capture: spec_check_capture(b, side, t) }]
        }
    } else {
        Seq::empty()
    }
}

pub open spec fn pawn_push_dir(side: Sides) -> int {
    if side is WHITE {
        8
    } else {
        -8
    }
}

pub open spec fn home_rank(side: Sides) -> int {
    if side is WHITE {
        1
    } else {
        6
    }
}

pub open spec fn sq_empty(b: Board, t: u8) -> bool {
    (b.bb_sides[0].0 | b.bb_sides[1].0) & bit(t) == 0
}

/// A pawn's quiet moves: the single push when the square ahead is empty, and
/// from the home rank also the double push when both squares ahead are empty.
pub open spec fn pawn_pushes(b: Board, side: Sides, s: u8) -> Seq<Move> {
    let d = pawn_push_dir(side);
    let t = s + d;
    if 0 <= t < 64 && sq_empty(b, t as u8) {
        let single = seq![Move { start: s, dest: t as u8, capture: None }];
        let t2 = s + 2 * d;
        if rank_of(s as int) == home_rank(side) && 0 <= t2 < 64 && sq_empty(b, t2 as u8) {
            single + seq![Move { start: s, dest: t2 as u8, capture: None }]
        } else {
            single
        }
    } else {
        Seq::empty()
    }
}

/// A pawn's diagonal capture towards file offset `df`, generated only when
/// the diagonal stays on the board and an opposing piece stands there.
pub open spec fn pawn_cap(b: Board, side: Sides, s: u8, df: int) -> Seq<Move> {
    let t = s + pawn_push_dir(side) + df;
    if 0 <= file_of(s as int) + df < 8 && 0 <= t < 64 {
        match spec_check_capture(b, side, t as u8) {
            Some(cp) => seq![Move { start: s, dest: t as u8, capture: Some(cp) }],
            None => Seq::empty(),
        }
    } else {
        Seq::empty()
    }
}

pub open spec fn pawn_sq(b: Board, side: Sides, bb: u64, s: u8) -> Seq<Move> {
    if bb & bit(s) != 0 {
        pawn_pushes(b, side, s) + pawn_cap(b, side, s, -1) + pawn_cap(b, side, s, 1)
    } else {
        Seq::empty()
    }
}

/// The four diagonal rays from `s`, each as long as the board edge allows.
pub open spec fn bishop_rays(b: Board, side: Sides, s: u8) -> Seq<Move> {
    let f = file_of(s as int);
    let r = rank_of(s as int);
    ray(b, side, s, 9, 1, min2(7 - f, 7 - r)) + ray(b, side, s, 7, 1, min2(f, 7 - r)) + ray(
        b,
        side,
        s,
        -9,
        1,
        min2(f, r),
    ) + ray(b, side, s, -7, 1, min2(7 - f, r))
}

pub open spec fn bishop_sq(b: Board, side: Sides, bb: u64, s: u8) -> Seq<Move> {
    if bb & bit(s) != 0 {
        bishop_rays(b, side, s)
    } else {
        Seq::empty()
    }
}

/// The four orthogonal rays from `s`.
pub open spec fn rook_rays(b: Board, side: Sides, s: u8) -> Seq<Move> {
    let f = file_of(s as int);
    let r = rank_of(s as int);
    ray(b, side, s, 1, 1, 7 - f) + ray(b, side, s, -1, 1, f) + ray(b, side, s, 8, 1, 7 - r) + ray(
        b,
        side,
        s,
        -8,
        1,
        r,
    )
}

pub open spec fn rook_sq(b: Board, side: Sides, bb: u64, s: u8) -> Seq<Move> {
    if bb & bit(s) != 0 {
        rook_rays(b, side, s)
    } else {
        Seq::empty()
    }
}

/// The eight knight jumps from `s`.
pub open spec fn knight_sq(b: Board, side: Sides, bb: u64, s: u8) -> Seq<Move> {
    if bb & bit(s) != 0 {
        step_cand(b, side, s, -2, 1) + step_cand(b, side, s, 2, 1) + step_cand(b, side, s, -1, 2)
            + step_cand(b, side, s, 1, 2) + step_cand(b, side, s, 2, -1) + step_cand(
            b,
            side,
            s,
            -2,
            -1,
        ) + step_cand(b, side, s, 1, -2) + step_cand(b, side, s, -1, -2)
    } else {
        Seq::empty()
    }
}

/// The eight king steps from `s`.
pub open spec fn king_sq(b: Board, side: Sides, bb: u64, s: u8) -> Seq<Move> {
    if bb & bit(s) != 0 {
        step_cand(b, side, s, 1, 0) + step_cand(b, side, s, 1, 1) + step_cand(b, side, s, 1, -1)
            + step_cand(b, side, s, -1, 0) + step_cand(b, side, s, -1, 1) + step_cand(
            b,
            side,
            s,
            -1,
            -1,
        ) + step_cand(b, side, s, 0, 1) + step_cand(b, side, s, 0, -1)
    } else {
        Seq::empty()
    }
}

pub open spec fn pawn_sqs(b: Board, side: Sides, bb: u64, n: int) -> Seq<Move>
    decreases n,
{
    if n <= 0 {
        Seq::empty()
    } else {
        pawn_sqs(b, side, bb, n - 1) + pawn_sq(b, side, bb, (n - 1) as u8)
    }
}

pub open spec fn bishop_sqs(b: Board, side: Sides, bb: u64, n: int) -> Seq<Move>
    decreases n,
{
    if n <= 0 {
        Seq::empty()
    } else {
        bishop_sqs(b, side, bb, n - 1) + bishop_sq(b, side, bb, (n - 1) as u8)
    }
}

pub open spec fn rook_sqs(b: Board, side: Sides, bb: u64, n: int) -> Seq<Move>
    decreases n,
{
    if n <= 0 {
        Seq::empty()
    } else {
        rook_sqs(b, side, bb, n - 1) + rook_sq(b, side, bb, (n - 1) as u8)
    }
}

pub open spec fn knight_sqs(b: Board, side: Sides, bb: u64, n: int) -> Seq<Move>
    decreases n,
{
    if n <= 0 {
        Seq::empty()
    } else {
        knight_sqs(b, side, bb, n - 1) + knight_sq(b, side, bb, (n - 1) as u8)
    }
}

pub open spec fn king_sqs(b: Board, side: Sides, bb: u64, n: int) -> Seq<Move>
    decreases n,
{
    if n <= 0 {
        Seq::empty()
    } else {
        king_sqs(b, side, bb, n - 1) + king_sq(b, side, bb, (n - 1) as u8)
    }
}

/// All of a queen's moves: its bishop-like rays over all queen squares, then
/// its rook-like rays.
pub open spec fn queen_moves_spec(b: Board, side: Sides, bb: u64) -> Seq<Move> {
    bishop_sqs(b, side, bb, 64) + rook_sqs(b, side, bb, 64)
}

/// Every pseudo-legal move of `side`, per piece kind in board order, squares
/// low to high.
pub open spec fn all_moves_spec(b: Board, side: Sides) -> Seq<Move> {
    let si = side.spec_idx();
    pawn_sqs(b, side, b.piece(si, 0), 64) + bishop_sqs(b, side, b.piece(si, 1), 64) + knight_sqs(
        b,
        side,
        b.piece(si, 2),
        64,
    ) + rook_sqs(b, side, b.piece(si, 3), 64) + queen_moves_spec(b, side, b.piece(si, 4))
        + king_sqs(b, side, b.piece(si, 5), 64)
}

/// Whether some move of the list captures a king.
pub open spec fn has_king_capture(ms: Seq<Move>) -> bool {
    exists|i: int| 0 <= i < ms.len() && ms[i].capture == Some(Pieces::KING)
}

/// A pseudo-legal move is kept as legal when no pseudo-legal reply on the
/// resulting board captures the mover's king.
pub open spec fn spec_is_legal(b: Board, side: Sides, m: Move) -> bool {
    !has_king_capture(all_moves_spec(b.spec_apply(m), side.spec_flip()))
}

/// The legal subsequence of `ms` from index `i` on.
pub open spec fn legal_filter_from(b: Board, side: Sides, ms: Seq<Move>, i: int) -> Seq<Move>
    decreases ms.len() - i,
{
    if i < 0 || i >= ms.len() {
        Seq::empty()
    } else {
        (if spec_is_legal(b, side, ms[i]) {
            seq![ms[i]]
        } else {
            Seq::empty()
        }) + legal_filter_from(b, side, ms, i + 1)
    }
}

/// What `MoveGen::gen_moves` returns: the pseudo-legal moves, filtered for
/// king safety when asked.
pub open spec fn gen_moves_spec(b: Board, side: Sides, legal: bool) -> Seq<Move> {
    if legal {
        legal_filter_from(b, side, all_moves_spec(b, side), 0)
    } else {
        all_moves_spec(b, side)
    }
}


proof fn lemma_chain4<A>(p: Seq<A>, x1: Seq<A>, x2: Seq<A>, x3: Seq<A>, x4: Seq<A>)
    ensures
        p + x1 + x2 + x3 + x4 == p + (x1 + x2 + x3 + x4),
{
    assert(p + x1 + x2 + x3 + x4 =~= p + (x1 + x2 + x3 + x4));
}

proof fn lemma_chain8<A>(
    p: Seq<A>,
    x1: Seq<A>,
    x2: Seq<A>,
    x3: Seq<A>,
    x4: Seq<A>,
    x5: Seq<A>,
    x6: Seq<A>,
    x7: Seq<A>,
    x8: Seq<A>,
)
    ensures
        p + x1 + x2 + x3 + x4 + x5 + x6 + x7 + x8 == p + (x1 + x2 + x3 + x4 + x5 + x6 + x7 + x8),
{
    assert(p + x1 + x2 + x3 + x4 + x5 + x6 + x7 + x8 =~= p + (x1 + x2 + x3 + x4 + x5 + x6 + x7
        + x8));
}

pub struct MoveGen;

impl MoveGen {
    /// Reports the opposing piece kind on square `p`, scanning the opposing
    /// boards low to high as `spec_check_capture` describes.
    pub fn check_capture(p: u8, board: Board, side: Sides) -> (r: Option<Pieces>)
        requires
            p < 64,
        ensures
            r == spec_check_capture(board, side, p),
    {
        let mut capture: Option<Pieces> = None;
        let o = side.flip().idx();
        let pb: u64 = 1u64 << (p as u64);
        if board.bb_sides[o].0 & pb != 0 {
            let mut k: usize = 0;
            while k < 6
                invariant
                    k <= 6,
                    o < 2,
                    o == side.spec_flip().spec_idx(),
                    p < 64,
                    pb == bit(p),
                    capture == last_cap_from(board, o as int, p, k as int),
                decreases 6 - k,
            {
                if board.bb_pieces[o][k].0 & pb != 0 {
                    capture = match k {
                        0 => Some(Pieces::PAWN),
                        1 => Some(Pieces::BISHOP),
                        2 => Some(Pieces::KNIGHT),
                        3 => Some(Pieces::ROOK),
                        4 => Some(Pieces::QUEEN),
                        _ => Some(Pieces::KING),
                    };
                }
                k = k + 1;
            }
            capture
        } else {
            capture
        }
    }

    /// Walks one slider ray, appending the generated moves.
    fn ray_walk(board: Board, side: Sides, s0: u8, step: i16, i: u8, len: u8, moves: &mut Vec<
        Move,
    >)
        requires
            s0 < 64,
            1 <= i,
            i <= len + 1,
            len <= 7,
            -9 <= step <= 9,
        ensures
            final(moves)@ == old(moves)@ + ray(board, side, s0, step as int, i as int, len as int),
        decreases len as int - i as int + 1,
    {
        if i > len {
            assert(ray(board, side, s0, step as int, i as int, len as int) =~= Seq::empty());
            assert(final(moves)@ =~= old(moves)@ + Seq::<Move>::empty());
            return ;
        }
        proof {
            assert(-72 <= step as int * (i as int) <= 72) by (nonlinear_arith)
                requires
                    -9 <= step as int <= 9,
                    0 <= i as int <= 8,
            ;
        }
        let t: i16 = s0 as i16 + step * (i as i16);
        if t < 0 || t >= 64 {
            assert(final(moves)@ =~= old(moves)@ + ray(
                board,
                side,
                s0,
                step as int,
                i as int,
                len as int,
            ));
            return ;
        }
        let tb: u64 = 1u64 << (t as u64);
        proof {
            assert(tb == bit(t as u8));
        }
        if board.bb_sides[side.idx()].0 & tb != 0 {
            assert(final(moves)@ =~= old(moves)@ + ray(
                board,
                side,
                s0,
                step as int,
                i as int,
                len as int,
            ));
            return ;
        }
        let cap = Self::check_capture(t as u8, board, side);
        let m = Move { start: s0, dest: t as u8, capture: cap };
        moves.push(m);
        match cap {
            Some(_) => {
                assert(moves@ =~= old(moves)@ + ray(
                    board,
                    side,
                    s0,
                    step as int,
                    i as int,
                    len as int,
                ));
            },
            None => {
                let ghost mid = moves@;
                Self::ray_walk(board, side, s0, step, i + 1, len, moves);
                proof {
                    assert(moves@ =~= old(moves)@ + ray(
                        board,
                        side,
                        s0,
                        step as int,
                        i as int,
                        len as int,
                    ));
                }
            },
        }
    }

    /// Tries one king or knight step, appending the move when it is on the
    /// board and free of own pieces.
    fn step_try(board: Board, side: Sides, s: u8, df: i8, dr: i8, moves: &mut Vec<Move>)
        requires
            s < 64,
            -2 <= df <= 2,
            -2 <= dr <= 2,
        ensures
            final(moves)@ == old(moves)@ + step_cand(board, side, s, df as int, dr as int),
    {
        let f: i8 = (s % 8) as i8 + df;
        let r: i8 = (s / 8) as i8 + dr;
        if 0 <= f && f < 8 && 0 <= r && r < 8 {
            let t: u8 = (r * 8 + f) as u8;
            let tb: u64 = 1u64 << (t as u64);
            proof {
                assert(t == rank_of(s as int) * 8 + file_of(s as int) + dr * 8 + df);
            }
            if board.bb_sides[side.idx()].0 & tb == 0 {
                let cap = Self::check_capture(t, board, side);
                moves.push(Move { start: s, dest: t, capture: cap });
                proof {
                    assert(moves@ =~= old(moves)@ + step_cand(
                        board,
                        side,
                        s,
                        df as int,
                        dr as int,
                    ));
                }
            } else {
                assert(final(moves)@ =~= old(moves)@ + step_cand(
                    board,
                    side,
                    s,
                    df as int,
                    dr as int,
                ));
            }
        } else {
            assert(final(moves)@ =~= old(moves)@ + step_cand(board, side, s, df as int, dr as int));
        }
    }
}


// ---------------------------------------------------------------------------
// Properties that every generated move satisfies by construction.
// ---------------------------------------------------------------------------

/// What holds of each move a piece-kind generator produces from the piece
/// board `bb`: both squares on the board, the start square on `bb`, the
/// capture field read from the destination square, and the destination not
/// held by the mover (or held by the opponent, for pawn captures).
pub open spec fn move_from_bb_ok(b: Board, side: Sides, bb: u64, m: Move) -> bool {
    &&& m.start < 64
    &&& m.dest < 64
    &&& bb & bit(m.start) != 0
    &&& m.capture == spec_check_capture(b, side, m.dest)
    &&& (b.bb_sides[side.spec_idx()].0 & bit(m.dest) == 0 || b.bb_sides[
        side.spec_flip().spec_idx()].0 & bit(m.dest) != 0)
}

pub open spec fn moves_from_bb_ok(b: Board, side: Sides, bb: u64, ms: Seq<Move>) -> bool {
    forall|i: int| 0 <= i < ms.len() ==> move_from_bb_ok(b, side, bb, #[trigger] ms[i])
}

proof fn lemma_ok_concat(b: Board, side: Sides, bb: u64, x: Seq<Move>, y: Seq<Move>)
    requires
        moves_from_bb_ok(b, side, bb, x),
        moves_from_bb_ok(b, side, bb, y),
    ensures
        moves_from_bb_ok(b, side, bb, x + y),
{
    assert forall|i: int| 0 <= i < (x + y).len() implies move_from_bb_ok(
        b,
        side,
        bb,
        #[trigger] (x + y)[i],
    ) by {
        if i < x.len() {
            assert((x + y)[i] == x[i]);
        } else {
            assert((x + y)[i] == y[i - x.len()]);
        }
    }
}

proof fn lemma_or_split(a: u64, c: u64, m: u64)
    requires
        (a | c) & m == 0,
    ensures
        a & m == 0,
        c & m == 0,
{
    assert((a | c) & m == 0 ==> (a & m == 0 && c & m == 0)) by (bit_vector);
}

proof fn lemma_ray_ok(b: Board, side: Sides, bb: u64, s0: u8, step: int, i: int, len: int)
    requires
        s0 < 64,
        bb & bit(s0) != 0,
    ensures
        moves_from_bb_ok(b, side, bb, ray(b, side, s0, step, i, len)),
    decreases len - i + 1,
{
    if i <= len {
        let t = s0 + step * i;
        if 0 <= t < 64 && b.bb_sides[side.spec_idx()].0 & bit(t as u8) == 0 {
            let cap = spec_check_capture(b, side, t as u8);
            if !(cap is Some) {
                lemma_ray_ok(b, side, bb, s0, step, i + 1, len);
                lemma_ok_concat(
                    b,
                    side,
                    bb,
                    seq![Move { start: s0, dest: t as u8, capture: cap }],
                    ray(b, side, s0, step, i + 1, len),
                );
            }
        }
    }
}

proof fn lemma_step_cand_ok(b: Board, side: Sides, bb: u64, s: u8, df: int, dr: int)
    requires
        s < 64,
        bb & bit(s) != 0,
        -2 <= df <= 2,
        -2 <= dr <= 2,
    ensures
        moves_from_bb_ok(b, side, bb, step_cand(b, side, s, df, dr)),
{
}

proof fn lemma_pawn_sq_ok(b: Board, side: Sides, bb: u64, s: u8)
    requires
        s < 64,
    ensures
        moves_from_bb_ok(b, side, bb, pawn_sq(b, side, bb, s)),
{
    if bb & bit(s) != 0 {
        let d = pawn_push_dir(side);
        let t = s + d;
        if 0 <= t < 64 && sq_empty(b, t as u8) {
            lemma_or_split(b.bb_sides[0].0, b.bb_sides[1].0, bit(t as u8));
            let t2 = s + 2 * d;
            if rank_of(s as int) == home_rank(side) && 0 <= t2 < 64 && sq_empty(b, t2 as u8) {
                lemma_or_split(b.bb_sides[0].0, b.bb_sides[1].0, bit(t2 as u8));
            }
        }
        assert(moves_from_bb_ok(b, side, bb, pawn_pushes(b, side, s)));
        lemma_ok_concat(b, side, bb, pawn_pushes(b, side, s), pawn_cap(b, side, s, -1));
        lemma_ok_concat(
            b,
            side,
            bb,
            pawn_pushes(b, side, s) + pawn_cap(b, side, s, -1),
            pawn_cap(b, side, s, 1),
        );
    }
}

proof fn lemma_bishop_sq_ok(b: Board, side: Sides, bb: u64, s: u8)
    requires
        s < 64,
    ensures
        moves_from_bb_ok(b, side, bb, bishop_sq(b, side, bb, s)),
{
    if bb & bit(s) != 0 {
        let f = file_of(s as int);
        let r = rank_of(s as int);
        lemma_ray_ok(b, side, bb, s, 9, 1, min2(7 - f, 7 - r));
        lemma_ray_ok(b, side, bb, s, 7, 1, min2(f, 7 - r));
        lemma_ray_ok(b, side, bb, s, -9, 1, min2(f, r));
        lemma_ray_ok(b, side, bb, s, -7, 1, min2(7 - f, r));
        let x1 = ray(b, side, s, 9, 1, min2(7 - f, 7 - r));
        let x2 = ray(b, side, s, 7, 1, min2(f, 7 - r));
        let x3 = ray(b, side, s, -9, 1, min2(f, r));
        let x4 = ray(b, side, s, -7, 1, min2(7 - f, r));
        lemma_ok_concat(b, side, bb, x1, x2);
        lemma_ok_concat(b, side, bb, x1 + x2, x3);
        lemma_ok_concat(b, side, bb, x1 + x2 + x3, x4);
    }
}

proof fn lemma_rook_sq_ok(b: Board, side: Sides, bb: u64, s: u8)
    requires
        s < 64,
    ensures
        moves_from_bb_ok(b, side, bb, rook_sq(b, side, bb, s)),
{
    if bb & bit(s) != 0 {
        let f = file_of(s as int);
        let r = rank_of(s as int);
        lemma_ray_ok(b, side, bb, s, 1, 1, 7 - f);
        lemma_ray_ok(b, side, bb, s, -1, 1, f);
        lemma_ray_ok(b, side, bb, s, 8, 1, 7 - r);
        lemma_ray_ok(b, side, bb, s, -8, 1, r);
        let x1 = ray(b, side, s, 1, 1, 7 - f);
        let x2 = ray(b, side, s, -1, 1, f);
        let x3 = ray(b, side, s, 8, 1, 7 - r);
        let x4 = ray(b, side, s, -8, 1, r);
        lemma_ok_concat(b, side, bb, x1, x2);
        lemma_ok_concat(b, side, bb, x1 + x2, x3);
        lemma_ok_concat(b, side, bb, x1 + x2 + x3, x4);
    }
}

proof fn lemma_knight_sq_ok(b: Board, side: Sides, bb: u64, s: u8)
    requires
        s < 64,
    ensures
        moves_from_bb_ok(b, side, bb, knight_sq(b, side, bb, s)),
{
    if bb & bit(s) != 0 {
        let x1 = step_cand(b, side, s, -2, 1);
        let x2 = step_cand(b, side, s, 2, 1);
        let x3 = step_cand(b, side, s, -1, 2);
        let x4 = step_cand(b, side, s, 1, 2);
        let x5 = step_cand(b, side, s, 2, -1);
        let x6 = step_cand(b, side, s, -2, -1);
        let x7 = step_cand(b, side, s, 1, -2);
        let x8 = step_cand(b, side, s, -1, -2);
        lemma_ok_concat(b, side, bb, x1, x2);
        lemma_ok_concat(b, side, bb, x1 + x2, x3);
        lemma_ok_concat(b, side, bb, x1 + x2 + x3, x4);
        lemma_ok_concat(b, side, bb, x1 + x2 + x3 + x4, x5);
        lemma_ok_concat(b, side, bb, x1 + x2 + x3 + x4 + x5, x6);
        lemma_ok_concat(b, side, bb, x1 + x2 + x3 + x4 + x5 + x6, x7);
        lemma_ok_concat(b, side, bb, x1 + x2 + x3 + x4 + x5 + x6 + x7, x8);
    }
}

proof fn lemma_king_sq_ok(b: Board, side: Sides, bb: u64, s: u8)
    requires
        s < 64,
    ensures
        moves_from_bb_ok(b, side, bb, king_sq(b, side, bb, s)),
{
    if bb & bit(s) != 0 {
        let x1 = step_cand(b, side, s, 1, 0);
        let x2 = step_cand(b, side, s, 1, 1);
        let x3 = step_cand(b, side, s, 1, -1);
        let x4 = step_cand(b, side, s, -1, 0);
        let x5 = step_cand(b, side, s, -1, 1);
        let x6 = step_cand(b, side, s, -1, -1);
        let x7 = step_cand(b, side, s, 0, 1);
        let x8 = step_cand(b, side, s, 0, -1);
        lemma_ok_concat(b, side, bb, x1, x2);
        lemma_ok_concat(b, side, bb, x1 + x2, x3);
        lemma_ok_concat(b, side, bb, x1 + x2 + x3, x4);
        lemma_ok_concat(b, side, bb, x1 + x2 + x3 + x4, x5);
        lemma_ok_concat(b, side, bb, x1 + x2 + x3 + x4 + x5, x6);
        lemma_ok_concat(b, side, bb, x1 + x2 + x3 + x4 + x5 + x6, x7);
        lemma_ok_concat(b, side, bb, x1 + x2 + x3 + x4 + x5 + x6 + x7, x8);
    }
}

proof fn lemma_pawn_sqs_ok(b: Board, side: Sides, bb: u64, n: int)
    requires
        n <= 64,
    ensures
        moves_from_bb_ok(b, side, bb, pawn_sqs(b, side, bb, n)),
    decreases n,
{
    if n > 0 {
        lemma_pawn_sqs_ok(b, side, bb, n - 1);
        lemma_pawn_sq_ok(b, side, bb, (n - 1) as u8);
        lemma_ok_concat(b, side, bb, pawn_sqs(b, side, bb, n - 1), pawn_sq(b, side, bb, (n - 1) as u8));
    }
}

proof fn lemma_bishop_sqs_ok(b: Board, side: Sides, bb: u64, n: int)
    requires
        n <= 64,
    ensures
        moves_from_bb_ok(b, side, bb, bishop_sqs(b, side, bb, n)),
    decreases n,
{
    if n > 0 {
        lemma_bishop_sqs_ok(b, side, bb, n - 1);
        lemma_bishop_sq_ok(b, side, bb, (n - 1) as u8);
        lemma_ok_concat(b, side, bb, bishop_sqs(b, side, bb, n - 1), bishop_sq(b, side, bb, (n - 1) as u8));
    }
}

proof fn lemma_rook_sqs_ok(b: Board, side: Sides, bb: u64, n: int)
    requires
        n <= 64,
    ensures
        moves_from_bb_ok(b, side, bb, rook_sqs(b, side, bb, n)),
    decreases n,
{
    if n > 0 {
        lemma_rook_sqs_ok(b, side, bb, n - 1);
        lemma_rook_sq_ok(b, side, bb, (n - 1) as u8);
        lemma_ok_concat(b, side, bb, rook_sqs(b, side, bb, n - 1), rook_sq(b, side, bb, (n - 1) as u8));
    }
}

proof fn lemma_knight_sqs_ok(b: Board, side: Sides, bb: u64, n: int)
    requires
        n <= 64,
    ensures
        moves_from_bb_ok(b, side, bb, knight_sqs(b, side, bb, n)),
    decreases n,
{
    if n > 0 {
        lemma_knight_sqs_ok(b, side, bb, n - 1);
        lemma_knight_sq_ok(b, side, bb, (n - 1) as u8);
        lemma_ok_concat(b, side, bb, knight_sqs(b, side, bb, n - 1), knight_sq(b, side, bb, (n - 1) as u8));
    }
}

proof fn lemma_king_sqs_ok(b: Board, side: Sides, bb: u64, n: int)
    requires
        n <= 64,
    ensures
        moves_from_bb_ok(b, side, bb, king_sqs(b, side, bb, n)),
    decreases n,
{
    if n > 0 {
        lemma_king_sqs_ok(b, side, bb, n - 1);
        lemma_king_sq_ok(b, side, bb, (n - 1) as u8);
        lemma_ok_concat(b, side, bb, king_sqs(b, side, bb, n - 1), king_sq(b, side, bb, (n - 1) as u8));
    }
}

/// What holds of every pseudo-legal move `m` of `side`: both squares on the
/// board, a piece of `side` on the start square, the capture field read from
/// the destination, and the destination free of the mover's own pieces
/// unless an opposing piece stands there.
pub open spec fn move_ok(b: Board, side: Sides, m: Move) -> bool {
    &&& m.start < 64
    &&& m.dest < 64
    &&& exists|k: int| 0 <= k < 6 && #[trigger] b.piece(side.spec_idx(), k) & bit(m.start) != 0
    &&& m.capture == spec_check_capture(b, side, m.dest)
    &&& (b.bb_sides[side.spec_idx()].0 & bit(m.dest) == 0 || b.bb_sides[
        side.spec_flip().spec_idx()].0 & bit(m.dest) != 0)
}

/// Every pseudo-legal move satisfies `move_ok`.
pub proof fn lemma_all_moves_ok(b: Board, side: Sides)
    ensures
        forall|i: int|
            0 <= i < all_moves_spec(b, side).len() ==> move_ok(
                b,
                side,
                #[trigger] all_moves_spec(b, side)[i],
            ),
{
    let si = side.spec_idx();
    lemma_pawn_sqs_ok(b, side, b.piece(si, 0), 64);
    lemma_bishop_sqs_ok(b, side, b.piece(si, 1), 64);
    lemma_knight_sqs_ok(b, side, b.piece(si, 2), 64);
    lemma_rook_sqs_ok(b, side, b.piece(si, 3), 64);
    lemma_bishop_sqs_ok(b, side, b.piece(si, 4), 64);
    lemma_rook_sqs_ok(b, side, b.piece(si, 4), 64);
    lemma_king_sqs_ok(b, side, b.piece(si, 5), 64);
    let p0 = pawn_sqs(b, side, b.piece(si, 0), 64);
    let p1 = bishop_sqs(b, side, b.piece(si, 1), 64);
    let p2 = knight_sqs(b, side, b.piece(si, 2), 64);
    let p3 = rook_sqs(b, side, b.piece(si, 3), 64);
    let p4 = queen_moves_spec(b, side, b.piece(si, 4));
    let p5 = king_sqs(b, side, b.piece(si, 5), 64);
    let all = all_moves_spec(b, side);
    assert forall|i: int| 0 <= i < all.len() implies move_ok(b, side, #[trigger] all[i]) by {
        let m = all[i];
        if i < p0.len() {
            assert(m == p0[i]);
            assert(move_from_bb_ok(b, side, b.piece(si, 0), m));
            assert(b.piece(si, 0) & bit(m.start) != 0);
        } else if i < p0.len() + p1.len() {
            assert(m == p1[i - p0.len()]);
            assert(move_from_bb_ok(b, side, b.piece(si, 1), m));
            assert(b.piece(si, 1) & bit(m.start) != 0);
        } else if i < p0.len() + p1.len() + p2.len() {
            assert(m == p2[i - p0.len() - p1.len()]);
            assert(move_from_bb_ok(b, side, b.piece(si, 2), m));
            assert(b.piece(si, 2) & bit(m.start) != 0);
        } else if i < p0.len() + p1.len() + p2.len() + p3.len() {
            assert(m == p3[i - p0.len() - p1.len() - p2.len()]);
            assert(move_from_bb_ok(b, side, b.piece(si, 3), m));
            assert(b.piece(si, 3) & bit(m.start) != 0);
        } else if i < p0.len() + p1.len() + p2.len() + p3.len() + p4.len() {
            let j = i - p0.len() - p1.len() - p2.len() - p3.len();
            assert(m == p4[j]);
            let q1 = bishop_sqs(b, side, b.piece(si, 4), 64);
            let q2 = rook_sqs(b, side, b.piece(si, 4), 64);
            if j < q1.len() {
                assert(m == q1[j]);
                assert(move_from_bb_ok(b, side, b.piece(si, 4), m));
            } else {
                assert(m == q2[j - q1.len()]);
                assert(move_from_bb_ok(b, side, b.piece(si, 4), m));
            }
            assert(b.piece(si, 4) & bit(m.start) != 0);
        } else {
            assert(m == p5[i - p0.len() - p1.len() - p2.len() - p3.len() - p4.len()]);
            assert(move_from_bb_ok(b, side, b.piece(si, 5), m));
            assert(b.piece(si, 5) & bit(m.start) != 0);
        }
    }
}

/// Every move the generator returns, filtered or not, satisfies `move_ok`.
pub proof fn lemma_gen_moves_ok(b: Board, side: Sides, legal: bool)
    ensures
        forall|i: int|
            0 <= i < gen_moves_spec(b, side, legal).len() ==> move_ok(
                b,
                side,
                #[trigger] gen_moves_spec(b, side, legal)[i],
            ),
{
    lemma_all_moves_ok(b, side);
    if legal {
        lemma_filter_sub(b, side, all_moves_spec(b, side), 0);
        let ms = gen_moves_spec(b, side, true);
        assert forall|i: int| 0 <= i < ms.len() implies move_ok(b, side, #[trigger] ms[i]) by {
            assert(all_moves_spec(b, side).contains(ms[i]));
            let j = choose|j: int|
                0 <= j < all_moves_spec(b, side).len() && all_moves_spec(b, side)[j] == ms[i];
            assert(move_ok(b, side, all_moves_spec(b, side)[j]));
        }
    }
}

/// Every move the legality filter keeps was among the pseudo-legal moves.
pub proof fn lemma_filter_sub(b: Board, side: Sides, ms: Seq<Move>, i: int)
    ensures
        forall|j: int|
            0 <= j < legal_filter_from(b, side, ms, i).len() ==> ms.contains(
                #[trigger] legal_filter_from(b, side, ms, i)[j],
            ),
    decreases ms.len() - i,
{
    if 0 <= i < ms.len() {
        lemma_filter_sub(b, side, ms, i + 1);
        let rest = legal_filter_from(b, side, ms, i + 1);
        let here = legal_filter_from(b, side, ms, i);
        assert forall|j: int| 0 <= j < here.len() implies ms.contains(#[trigger] here[j]) by {
            if spec_is_legal(b, side, ms[i]) {
                if j == 0 {
                    assert(here[j] == ms[i]);
                } else {
                    assert(here[j] == rest[j - 1]);
                }
            } else {
                assert(here[j] == rest[j]);
            }
        }
    }
}


impl MoveGen {
    /// All pawn moves of `side` from the pawn board `pawns`: pushes, double
    /// pushes from the home rank, and diagonal captures.
    #[verifier::rlimit(60)]
    pub fn pawn_moves(pawns: BitBoard, board: Board, side: Sides) -> (r: Vec<Move>)
        ensures
            r@ == pawn_sqs(board, side, pawns.0, 64),
    {
        let mut moves: Vec<Move> = Vec::new();
        let d: i16 = if side == Sides::WHITE {
            8
        } else {
            -8
        };
        let home: u8 = if side == Sides::WHITE {
            1
        } else {
            6
        };
        let mut s: u8 = 0;
        while s < 64
            invariant
                s <= 64,
                d == pawn_push_dir(side),
                home == home_rank(side),
                moves@ == pawn_sqs(board, side, pawns.0, s as int),
            decreases 64 - s,
        {
            if pawns.0 & (1u64 << (s as u64)) != 0 {
                let ghost pre = moves@;
                let t: i16 = s as i16 + d;
                if 0 <= t && t < 64 {
                    let tb: u64 = 1u64 << (t as u64);
                    if (board.bb_sides[0].0 | board.bb_sides[1].0) & tb == 0 {
                        moves.push(Move { start: s, dest: t as u8, capture: None });
                        if s / 8 == home {
                            let t2: i16 = s as i16 + 2 * d;
                            if 0 <= t2 && t2 < 64 {
                                let t2b: u64 = 1u64 << (t2 as u64);
                                if (board.bb_sides[0].0 | board.bb_sides[1].0) & t2b == 0 {
                                    moves.push(Move { start: s, dest: t2 as u8, capture: None });
                                }
                            }
                        }
                    }
                }
                proof {
                    assert(moves@ =~= pre + pawn_pushes(board, side, s));
                }
                let f = s % 8;
                let tc1: i16 = s as i16 + d - 1;
                if f >= 1 && 0 <= tc1 && tc1 < 64 {
                    let cap = Self::check_capture(tc1 as u8, board, side);
                    if let Some(cp) = cap {
                        moves.push(Move { start: s, dest: tc1 as u8, capture: Some(cp) });
                    }
                }
                proof {
                    assert(moves@ =~= pre + pawn_pushes(board, side, s) + pawn_cap(
                        board,
                        side,
                        s,
                        -1,
                    ));
                }
                let tc2: i16 = s as i16 + d + 1;
                if f < 7 && 0 <= tc2 && tc2 < 64 {
                    let cap = Self::check_capture(tc2 as u8, board, side);
                    if let Some(cp) = cap {
                        moves.push(Move { start: s, dest: tc2 as u8, capture: Some(cp) });
                    }
                }
                proof {
                    assert(moves@ =~= pre + pawn_sq(board, side, pawns.0, s));
                    assert(moves@ =~= pawn_sqs(board, side, pawns.0, s as int + 1));
                }
            } else {
                proof {
                    assert(moves@ =~= moves@ + pawn_sq(board, side, pawns.0, s));
                    assert(moves@ =~= pawn_sqs(board, side, pawns.0, s as int + 1));
                }
            }
            s = s + 1;
        }
        moves
    }

    /// All diagonal slider moves of `side` from the piece board `bishops`.
    #[verifier::rlimit(100)]
    pub fn bishop_moves(bishops: BitBoard, board: Board, side: Sides) -> (r: Vec<Move>)
        ensures
            r@ == bishop_sqs(board, side, bishops.0, 64),
    {
        let mut moves: Vec<Move> = Vec::new();
        let mut s: u8 = 0;
        while s < 64
            invariant
                s <= 64,
                moves@ == bishop_sqs(board, side, bishops.0, s as int),
            decreases 64 - s,
        {
            if bishops.0 & (1u64 << (s as u64)) != 0 {
                let ghost pre = moves@;
                let f = s % 8;
                let rk = s / 8;
                let er = 7 - f;
                let et = 7 - rk;
                let len_ne = if er < et {
                    er
                } else {
                    et
                };
                Self::ray_walk(board, side, s, 9, 1, len_ne, &mut moves);
                let len_nw = if f < et {
                    f
                } else {
                    et
                };
                Self::ray_walk(board, side, s, 7, 1, len_nw, &mut moves);
                let len_sw = if f < rk {
                    f
                } else {
                    rk
                };
                Self::ray_walk(board, side, s, -9, 1, len_sw, &mut moves);
                let len_se = if er < rk {
                    er
                } else {
                    rk
                };
                Self::ray_walk(board, side, s, -7, 1, len_se, &mut moves);
                proof {
                    let f8 = file_of(s as int);
                    let r8 = rank_of(s as int);
                    lemma_chain4(
                        pre,
                        ray(board, side, s, 9, 1, min2(7 - f8, 7 - r8)),
                        ray(board, side, s, 7, 1, min2(f8, 7 - r8)),
                        ray(board, side, s, -9, 1, min2(f8, r8)),
                        ray(board, side, s, -7, 1, min2(7 - f8, r8)),
                    );
                    assert(moves@ == pre + bishop_rays(board, side, s));
                    assert(moves@ == bishop_sqs(board, side, bishops.0, s as int + 1));
                }
            } else {
                proof {
                    assert(moves@ =~= moves@ + bishop_sq(board, side, bishops.0, s));
                    assert(moves@ =~= bishop_sqs(board, side, bishops.0, s as int + 1));
                }
            }
            s = s + 1;
        }
        moves
    }

    /// All orthogonal slider moves of `side` from the piece board `rooks`.
    #[verifier::rlimit(60)]
    pub fn rook_moves(rooks: BitBoard, board: Board, side: Sides) -> (r: Vec<Move>)
        ensures
            r@ == rook_sqs(board, side, rooks.0, 64),
    {
        let mut moves: Vec<Move> = Vec::new();
        let mut s: u8 = 0;
        while s < 64
            invariant
                s <= 64,
                moves@ == rook_sqs(board, side, rooks.0, s as int),
            decreases 64 - s,
        {
            if rooks.0 & (1u64 << (s as u64)) != 0 {
                let ghost pre = moves@;
                let f = s % 8;
                let rk = s / 8;
                Self::ray_walk(board, side, s, 1, 1, 7 - f, &mut moves);
                Self::ray_walk(board, side, s, -1, 1, f, &mut moves);
                Self::ray_walk(board, side, s, 8, 1, 7 - rk, &mut moves);
                Self::ray_walk(board, side, s, -8, 1, rk, &mut moves);
                proof {
                    assert(moves@ =~= pre + rook_rays(board, side, s));
                    assert(moves@ =~= rook_sqs(board, side, rooks.0, s as int + 1));
                }
            } else {
                proof {
                    assert(moves@ =~= moves@ + rook_sq(board, side, rooks.0, s));
                    assert(moves@ =~= rook_sqs(board, side, rooks.0, s as int + 1));
                }
            }
            s = s + 1;
        }
        moves
    }

    /// All knight jumps of `side` from the piece board `knights`.
    #[verifier::rlimit(100)]
    pub fn knight_moves(knights: BitBoard, board: Board, side: Sides) -> (r: Vec<Move>)
        ensures
            r@ == knight_sqs(board, side, knights.0, 64),
    {
        let mut moves: Vec<Move> = Vec::new();
        let mut s: u8 = 0;
        while s < 64
            invariant
                s <= 64,
                moves@ == knight_sqs(board, side, knights.0, s as int),
            decreases 64 - s,
        {
            if knights.0 & (1u64 << (s as u64)) != 0 {
                let ghost pre = moves@;
                Self::step_try(board, side, s, -2, 1, &mut moves);
                Self::step_try(board, side, s, 2, 1, &mut moves);
                Self::step_try(board, side, s, -1, 2, &mut moves);
                Self::step_try(board, side, s, 1, 2, &mut moves);
                Self::step_try(board, side, s, 2, -1, &mut moves);
                Self::step_try(board, side, s, -2, -1, &mut moves);
                Self::step_try(board, side, s, 1, -2, &mut moves);
                Self::step_try(board, side, s, -1, -2, &mut moves);
                proof {
                    lemma_chain8(
                        pre,
                        step_cand(board, side, s, -2, 1),
                        step_cand(board, side, s, 2, 1),
                        step_cand(board, side, s, -1, 2),
                        step_cand(board, side, s, 1, 2),
                        step_cand(board, side, s, 2, -1),
                        step_cand(board, side, s, -2, -1),
                        step_cand(board, side, s, 1, -2),
                        step_cand(board, side, s, -1, -2),
                    );
                    assert(moves@ == pre + knight_sq(board, side, knights.0, s));
                    assert(moves@ == knight_sqs(board, side, knights.0, s as int + 1));
                }
            } else {
                proof {
                    assert(moves@ =~= moves@ + knight_sq(board, side, knights.0, s));
                    assert(moves@ =~= knight_sqs(board, side, knights.0, s as int + 1));
                }
            }
            s = s + 1;
        }
        moves
    }

    /// A queen's moves from the piece board `bb`: its diagonal rays over all
    /// queen squares, then its orthogonal rays.
    pub fn queen_moves(bb: BitBoard, board: Board, side: Sides) -> (r: Vec<Move>)
        ensures
            r@ == queen_moves_spec(board, side, bb.0),
    {
        let mut moves = Self::bishop_moves(bb, board, side);
        let mut rm = Self::rook_moves(bb, board, side);
        moves.append(&mut rm);
        moves
    }

    /// All single king steps of `side` from the piece board `kings`.
    #[verifier::rlimit(100)]
    pub fn king_moves(kings: BitBoard, board: Board, side: Sides) -> (r: Vec<Move>)
        ensures
            r@ == king_sqs(board, side, kings.0, 64),
    {
        let mut moves: Vec<Move> = Vec::new();
        let mut s: u8 = 0;
        while s < 64
            invariant
                s <= 64,
                moves@ == king_sqs(board, side, kings.0, s as int),
            decreases 64 - s,
        {
            if kings.0 & (1u64 << (s as u64)) != 0 {
                let ghost pre = moves@;
                Self::step_try(board, side, s, 1, 0, &mut moves);
                Self::step_try(board, side, s, 1, 1, &mut moves);
                Self::step_try(board, side, s, 1, -1, &mut moves);
                Self::step_try(board, side, s, -1, 0, &mut moves);
                Self::step_try(board, side, s, -1, 1, &mut moves);
                Self::step_try(board, side, s, -1, -1, &mut moves);
                Self::step_try(board, side, s, 0, 1, &mut moves);
                Self::step_try(board, side, s, 0, -1, &mut moves);
                proof {
                    lemma_chain8(
                        pre,
                        step_cand(board, side, s, 1, 0),
                        step_cand(board, side, s, 1, 1),
                        step_cand(board, side, s, 1, -1),
                        step_cand(board, side, s, -1, 0),
                        step_cand(board, side, s, -1, 1),
                        step_cand(board, side, s, -1, -1),
                        step_cand(board, side, s, 0, 1),
                        step_cand(board, side, s, 0, -1),
                    );
                    assert(moves@ == pre + king_sq(board, side, kings.0, s));
                    assert(moves@ == king_sqs(board, side, kings.0, s as int + 1));
                }
            } else {
                proof {
                    assert(moves@ =~= moves@ + king_sq(board, side, kings.0, s));
                    assert(moves@ =~= king_sqs(board, side, kings.0, s as int + 1));
                }
            }
            s = s + 1;
        }
        moves
    }

    /// Every pseudo-legal move of `side`, and with `legal_check` only those
    /// whose resulting board admits no reply that captures the mover's king.
    #[verifier::rlimit(60)]
    pub fn gen_moves(board: Board, side: Sides, legal_check: bool) -> (r: Vec<Move>)
        requires
            legal_check ==> board.full_moves < usize::MAX,
        ensures
            r@ == gen_moves_spec(board, side, legal_check),
        decreases (if legal_check {
            1int
        } else {
            0int
        }),
    {
        let si = side.idx();
        let mut moves = Self::pawn_moves(board.bb_pieces[si][0], board, side);
        let mut bm = Self::bishop_moves(board.bb_pieces[si][1], board, side);
        moves.append(&mut bm);
        let mut nm = Self::knight_moves(board.bb_pieces[si][2], board, side);
        moves.append(&mut nm);
        let mut rm = Self::rook_moves(board.bb_pieces[si][3], board, side);
        moves.append(&mut rm);
        let mut qm = Self::queen_moves(board.bb_pieces[si][4], board, side);
        moves.append(&mut qm);
        let mut km = Self::king_moves(board.bb_pieces[si][5], board, side);
        moves.append(&mut km);
        proof {
            assert(moves@ =~= all_moves_spec(board, side));
        }
        if legal_check {
            let mut legal: Vec<Move> = Vec::new();
            let mut idx: usize = 0;
            while idx < moves.len()
                invariant
                    legal_check,
                    idx <= moves@.len(),
                    moves@ == all_moves_spec(board, side),
                    board.full_moves < usize::MAX,
                    gen_moves_spec(board, side, true) == legal@ + legal_filter_from(
                        board,
                        side,
                        moves@,
                        idx as int,
                    ),
                decreases moves@.len() - idx,
            {
                let m = moves[idx];
                proof {
                    lemma_all_moves_ok(board, side);
                    assert(move_ok(board, side, m));
                }
                let mut child = board;
                child.apply_move(m);
                let reply = Self::gen_moves(child, side.flip(), false);
                let mut is_legal = true;
                let mut k: usize = 0;
                while k < reply.len()
                    invariant
                        k <= reply@.len(),
                        is_legal <==> !(exists|t: int|
                            0 <= t < k && (#[trigger] reply@[t]).capture == Some(Pieces::KING)),
                    decreases reply@.len() - k,
                {
                    if matches!(reply[k].capture, Some(Pieces::KING)) {
                        is_legal = false;
                    }
                    k = k + 1;
                }
                proof {
                    assert(is_legal == spec_is_legal(board, side, m));
                }
                if is_legal {
                    legal.push(m);
                }
                idx = idx + 1;
                proof {
                    assert(gen_moves_spec(board, side, true) =~= legal@ + legal_filter_from(
                        board,
                        side,
                        moves@,
                        idx as int,
                    ));
                }
            }
            proof {
                assert(legal@ =~= gen_moves_spec(board, side, true));
            }
            legal
        } else {
            moves
        }
    }
}


// ---------------------------------------------------------------------------
// Legality soundness.
// ---------------------------------------------------------------------------

proof fn lemma_filter_legal(b: Board, side: Sides, ms: Seq<Move>, i: int)
    ensures
        forall|j: int|
            0 <= j < legal_filter_from(b, side, ms, i).len() ==> spec_is_legal(
                b,
                side,
                #[trigger] legal_filter_from(b, side, ms, i)[j],
            ),
    decreases ms.len() - i,
{
    if 0 <= i < ms.len() {
        lemma_filter_legal(b, side, ms, i + 1);
        let rest = legal_filter_from(b, side, ms, i + 1);
        let here = legal_filter_from(b, side, ms, i);
        assert forall|j: int| 0 <= j < here.len() implies spec_is_legal(
            b,
            side,
            #[trigger] here[j],
        ) by {
            if spec_is_legal(b, side, ms[i]) {
                if j == 0 {
                    assert(here[j] == ms[i]);
                } else {
                    assert(here[j] == rest[j - 1]);
                }
            } else {
                assert(here[j] == rest[j]);
            }
        }
    }
}

/// No move kept by the legality filter leads to a board where any
/// pseudo-legal reply captures the mover's king.
pub proof fn lemma_legality_soundness(b: Board, side: Sides)
    ensures
        forall|i: int|
            0 <= i < gen_moves_spec(b, side, true).len() ==> !has_king_capture(
                all_moves_spec(
                    b.spec_apply(#[trigger] gen_moves_spec(b, side, true)[i]),
                    side.spec_flip(),
                ),
            ),
{
    lemma_filter_legal(b, side, all_moves_spec(b, side), 0);
}

// ---------------------------------------------------------------------------
// Bit-level helper facts.
// ---------------------------------------------------------------------------

proof fn lemma_union6_zero(p0: u64, p1: u64, p2: u64, p3: u64, p4: u64, p5: u64, mm: u64)
    ensures
        (p0 | p1 | p2 | p3 | p4 | p5) & mm == 0 <==> (p0 & mm == 0 && p1 & mm == 0 && p2 & mm == 0
            && p3 & mm == 0 && p4 & mm == 0 && p5 & mm == 0),
{
    assert((p0 | p1 | p2 | p3 | p4 | p5) & mm == 0 <==> (p0 & mm == 0 && p1 & mm == 0 && p2 & mm
        == 0 && p3 & mm == 0 && p4 & mm == 0 && p5 & mm == 0)) by (bit_vector);
}

proof fn lemma_single_bit_excludes(x: u64, y: u64, p: u8)
    requires
        p < 64,
        y & (1u64 << (p as u64)) != 0,
        x & y == 0,
    ensures
        x & (1u64 << (p as u64)) == 0,
{
    let pp = p as u64;
    assert((y & (1u64 << pp) != 0 && x & y == 0 && pp < 64) ==> x & (1u64 << pp) == 0)
        by (bit_vector);
}

proof fn lemma_xor_two_bits(x: u64, pd: u8, ps: u8)
    requires
        pd < 64,
        ps < 64,
        pd != ps,
    ensures
        x ^ ((1u64 << (pd as u64)) | (1u64 << (ps as u64))) == (x ^ (1u64 << (pd as u64))) ^ (1u64
            << (ps as u64)),
{
    let d = pd as u64;
    let s = ps as u64;
    assert((d != s && d < 64 && s < 64) ==> x ^ ((1u64 << d) | (1u64 << s)) == (x ^ (1u64 << d))
        ^ (1u64 << s)) by (bit_vector);
}

proof fn lemma_upd_disjoint(x: u64, y: u64, d: u64, s: u64)
    requires
        x & y == 0,
        y & d == 0,
        y & s == 0,
    ensures
        (x ^ (d | s)) & y == 0,
{
    assert((x & y == 0 && y & d == 0 && y & s == 0) ==> (x ^ (d | s)) & y == 0) by (bit_vector);
}

proof fn lemma_remove_bit_disjoint(z: u64, y: u64, d: u64)
    requires
        z & y == 0,
        y & d == 0,
    ensures
        (z ^ d) & y == 0,
{
    assert((z & y == 0 && y & d == 0) ==> (z ^ d) & y == 0) by (bit_vector);
}

proof fn lemma_mover_vs_cap(x: u64, z: u64, pd: u8, ps: u8)
    requires
        pd < 64,
        ps < 64,
        x & z == 0,
        z & (1u64 << (pd as u64)) != 0,
        z & (1u64 << (ps as u64)) == 0,
    ensures
        (x ^ ((1u64 << (pd as u64)) | (1u64 << (ps as u64)))) & (z ^ (1u64 << (pd as u64))) == 0,
{
    let d = pd as u64;
    let s = ps as u64;
    assert((d < 64 && s < 64 && x & z == 0 && z & (1u64 << d) != 0 && z & (1u64 << s) == 0) ==> (x
        ^ ((1u64 << d) | (1u64 << s))) & (z ^ (1u64 << d)) == 0) by (bit_vector);
}

proof fn lemma_last_cap_hits(b: Board, o: int, p: u8, n: int, cp: Pieces)
    requires
        n <= 6,
        last_cap_from(b, o, p, n) == Some(cp),
    ensures
        0 <= cp.spec_idx() < n,
        b.piece(o, cp.spec_idx()) & bit(p) != 0,
    decreases n,
{
    if n > 0 {
        if b.piece(o, n - 1) & bit(p) != 0 {
            assert(kind_at(n - 1).spec_idx() == n - 1);
        } else {
            lemma_last_cap_hits(b, o, p, n - 1, cp);
        }
    }
}

proof fn lemma_last_cap_some(b: Board, o: int, p: u8, n: int)
    requires
        exists|k: int| 0 <= k < n && #[trigger] b.piece(o, k) & bit(p) != 0,
    ensures
        last_cap_from(b, o, p, n) is Some,
    decreases n,
{
    if n > 0 && b.piece(o, n - 1) & bit(p) == 0 {
        let w = choose|k: int| 0 <= k < n && #[trigger] b.piece(o, k) & bit(p) != 0;
        assert(0 <= w < n - 1);
        lemma_last_cap_some(b, o, p, n - 1);
    }
}

proof fn lemma_first_kind_hits(b: Board, s: int, p: u8, k0: int)
    requires
        0 <= k0 <= 5,
        exists|k: int| k0 <= k < 6 && #[trigger] b.piece(s, k) & bit(p) != 0,
    ensures
        k0 <= b.first_kind_from(s, p, k0) < 6,
        b.piece(s, b.first_kind_from(s, p, k0)) & bit(p) != 0,
        forall|k: int| k0 <= k < b.first_kind_from(s, p, k0) ==> #[trigger] b.piece(s, k) & bit(p)
            == 0,
    decreases 6 - k0,
{
    if b.piece(s, k0) & bit(p) == 0 {
        let w = choose|k: int| k0 <= k < 6 && #[trigger] b.piece(s, k) & bit(p) != 0;
        assert(k0 + 1 <= w < 6);
        lemma_first_kind_hits(b, s, p, k0 + 1);
    }
}

// ---------------------------------------------------------------------------
// Applying a generated move keeps the board well formed and never grows the
// piece count; a capture shrinks it by one.
// ---------------------------------------------------------------------------

/// Applying a `move_ok` move to a well-formed board yields a well-formed
/// board; the total piece count stays when nothing is captured and drops by
/// one on a capture.
pub proof fn lemma_apply_move_props(b: Board, side: Sides, m: Move)
    requires
        b.wf(),
        move_ok(b, side, m),
    ensures
        b.spec_apply(m).wf(),
        b.spec_apply(m).total_pop() == b.total_pop() - (if m.capture is Some {
            1int
        } else {
            0int
        }),
{
    let s = side.spec_idx();
    let o = 1 - s;
    let bs = bit(m.start);
    let bd = bit(m.dest);
    let wk = choose|k: int| 0 <= k < 6 && #[trigger] b.piece(s, k) & bs != 0;

    // The side that apply derives from the start square is the mover.
    if s == 0 {
        lemma_union6_zero(
            b.piece(0, 0),
            b.piece(0, 1),
            b.piece(0, 2),
            b.piece(0, 3),
            b.piece(0, 4),
            b.piece(0, 5),
            bs,
        );
        assert(b.side_occ(0) & bs != 0);
    } else {
        assert forall|j: int| 0 <= j < 6 implies #[trigger] b.piece(0, j) & bs == 0 by {
            lemma_single_bit_excludes(b.piece(0, j), b.piece(1, wk), m.start);
        }
        lemma_union6_zero(
            b.piece(0, 0),
            b.piece(0, 1),
            b.piece(0, 2),
            b.piece(0, 3),
            b.piece(0, 4),
            b.piece(0, 5),
            bs,
        );
        assert(b.side_occ(0) & bs == 0);
    }
    assert(b.apply_side(m) == s);

    lemma_first_kind_hits(b, s, m.start, 0);
    let kk = b.first_kind(s, m.start);
    assert(b.piece(s, kk) & bs != 0);

    // No piece board of the mover holds the destination square.
    assert forall|k: int| 0 <= k < 6 implies #[trigger] b.piece(s, k) & bd == 0 by {
        if b.bb_sides[s].0 & bd == 0 {
            lemma_union6_zero(
                b.piece(s, 0),
                b.piece(s, 1),
                b.piece(s, 2),
                b.piece(s, 3),
                b.piece(s, 4),
                b.piece(s, 5),
                bd,
            );
        } else {
            assert(b.bb_sides[o].0 & bd != 0);
            lemma_union6_zero(
                b.piece(o, 0),
                b.piece(o, 1),
                b.piece(o, 2),
                b.piece(o, 3),
                b.piece(o, 4),
                b.piece(o, 5),
                bd,
            );
            let wj = choose|j: int| 0 <= j < 6 && #[trigger] b.piece(o, j) & bd != 0;
            lemma_single_bit_excludes(b.piece(s, k), b.piece(o, wj), m.dest);
        }
    }
    assert(m.start != m.dest) by {
        if m.start == m.dest {
            assert(b.piece(s, kk) & bd == 0);
        }
    }

    let x = b.piece(s, kk);
    let x2 = x ^ (bd | bs);
    lemma_xor_two_bits(x, m.dest, m.start);
    crate::structs::lemma_popn_xor_bit(x, m.dest, 64);
    assert((x ^ bd) & bs != 0) by {
        let d = m.dest as u64;
        let ss = m.start as u64;
        let xx = x;
        assert((d != ss && d < 64 && ss < 64 && xx & (1u64 << ss) != 0) ==> (xx ^ (1u64 << d)) & (
        1u64 << ss) != 0) by (bit_vector);
    }
    crate::structs::lemma_popn_xor_bit(x ^ bd, m.start, 64);
    assert(crate::structs::pop64(x2) == crate::structs::pop64(x));

    let bp = b.spec_apply(m);
    let pieces = b.moved_pieces(m);

    assert forall|s1: int, k1: int|
        0 <= s1 < 2 && 0 <= k1 < 6 && (s1 != s || k1 != kk) implies #[trigger] b.piece(s1, k1)
        & bs == 0 by {
        lemma_single_bit_excludes(b.piece(s1, k1), x, m.start);
    }

    match m.capture {
        None => {
            // A piece on the destination would have made the capture field
            // `Some`, so the opposing boards miss the destination too.
            assert(b.bb_sides[o].0 & bd == 0) by {
                if b.bb_sides[o].0 & bd != 0 {
                    lemma_union6_zero(
                        b.piece(o, 0),
                        b.piece(o, 1),
                        b.piece(o, 2),
                        b.piece(o, 3),
                        b.piece(o, 4),
                        b.piece(o, 5),
                        bd,
                    );
                    lemma_last_cap_some(b, o, m.dest, 6);
                }
            }
            assert forall|j: int| 0 <= j < 6 implies #[trigger] b.piece(o, j) & bd == 0 by {
                lemma_union6_zero(
                    b.piece(o, 0),
                    b.piece(o, 1),
                    b.piece(o, 2),
                    b.piece(o, 3),
                    b.piece(o, 4),
                    b.piece(o, 5),
                    bd,
                );
            }
            assert forall|s1: int, k1: int|
                0 <= s1 < 2 && 0 <= k1 < 6 implies #[trigger] bp.piece(s1, k1) == (if s1 == s && k1
                == kk {
                x2
            } else {
                b.piece(s1, k1)
            }) by {}
            assert forall|s1: int, k1: int, s2: int, k2: int|
                0 <= s1 < 2 && 0 <= k1 < 6 && 0 <= s2 < 2 && 0 <= k2 < 6 && (s1 != s2 || k1 != k2)
                    implies #[trigger] bp.piece(s1, k1) & #[trigger] bp.piece(s2, k2) == 0 by {
                if s1 == s && k1 == kk {
                    lemma_upd_disjoint(x, b.piece(s2, k2), bd, bs);
                } else if s2 == s && k2 == kk {
                    lemma_upd_disjoint(x, b.piece(s1, k1), bd, bs);
                    let y1 = b.piece(s1, k1);
                    assert(x2 & y1 == 0 ==> y1 & x2 == 0) by (bit_vector);
                }
            }
            assert(bp.wf());
            assert(bp.total_pop() == b.total_pop());
        },
        Some(cp) => {
            assert(b.bb_sides[o].0 & bd != 0);
            lemma_last_cap_hits(b, o, m.dest, 6, cp);
            let ck = cp.spec_idx();
            let z = b.piece(o, ck);
            assert(z & bd != 0);
            let z2 = z ^ bd;
            crate::structs::lemma_popn_xor_bit(z, m.dest, 64);
            assert(crate::structs::pop64(z2) == crate::structs::pop64(z) - 1);
            // Any other board than the capture board misses the destination.
            assert forall|s1: int, k1: int|
                0 <= s1 < 2 && 0 <= k1 < 6 && (s1 != o || k1 != ck) implies #[trigger] b.piece(
                s1,
                k1,
            ) & bd == 0 by {
                if s1 == s {
                } else {
                    lemma_single_bit_excludes(b.piece(s1, k1), z, m.dest);
                }
            }
            assert forall|s1: int, k1: int|
                0 <= s1 < 2 && 0 <= k1 < 6 implies #[trigger] bp.piece(s1, k1) == (if s1 == s && k1
                == kk {
                x2
            } else if s1 == o && k1 == ck {
                z2
            } else {
                b.piece(s1, k1)
            }) by {}
            assert(z & bs == 0) by {
                assert(x & z == 0 ==> z & x == 0) by (bit_vector);
                lemma_single_bit_excludes(z, x, m.start);
            }
            assert forall|s1: int, k1: int, s2: int, k2: int|
                0 <= s1 < 2 && 0 <= k1 < 6 && 0 <= s2 < 2 && 0 <= k2 < 6 && (s1 != s2 || k1 != k2)
                    implies #[trigger] bp.piece(s1, k1) & #[trigger] bp.piece(s2, k2) == 0 by {
                let a1 = bp.piece(s1, k1);
                let a2 = bp.piece(s2, k2);
                if s1 == s && k1 == kk && s2 == o && k2 == ck {
                    lemma_mover_vs_cap(x, z, m.dest, m.start);
                } else if s2 == s && k2 == kk && s1 == o && k1 == ck {
                    lemma_mover_vs_cap(x, z, m.dest, m.start);
                    assert(x2 & z2 == 0 ==> z2 & x2 == 0) by (bit_vector);
                } else if s1 == s && k1 == kk {
                    lemma_upd_disjoint(x, b.piece(s2, k2), bd, bs);
                } else if s2 == s && k2 == kk {
                    lemma_upd_disjoint(x, b.piece(s1, k1), bd, bs);
                    let y1 = b.piece(s1, k1);
                    assert(x2 & y1 == 0 ==> y1 & x2 == 0) by (bit_vector);
                } else if s1 == o && k1 == ck {
                    lemma_remove_bit_disjoint(z, b.piece(s2, k2), bd);
                } else if s2 == o && k2 == ck {
                    lemma_remove_bit_disjoint(z, b.piece(s1, k1), bd);
                    let y1 = b.piece(s1, k1);
                    assert(z2 & y1 == 0 ==> y1 & z2 == 0) by (bit_vector);
                }
            }
            assert(bp.wf());
            assert(bp.total_pop() == b.total_pop() - 1);
        },
    }
}


// ---------------------------------------------------------------------------
// Bounds on how many moves the generator can return.
// ---------------------------------------------------------------------------

proof fn lemma_ray_len(b: Board, side: Sides, s0: u8, step: int, i: int, len: int)
    ensures
        ray(b, side, s0, step, i, len).len() <= (if len - i + 1 >= 0 { len - i + 1 } else { 0 }),
    decreases len - i + 1,
{
    if i <= len {
        lemma_ray_len(b, side, s0, step, i + 1, len);
    }
}

proof fn lemma_pawn_sqs_len(b: Board, side: Sides, bb: u64, n: int)
    requires n >= 0,
    ensures pawn_sqs(b, side, bb, n).len() <= 4 * n,
    decreases n,
{
    if n > 0 {
        lemma_pawn_sqs_len(b, side, bb, n - 1);
    }
}

proof fn lemma_bishop_sqs_len(b: Board, side: Sides, bb: u64, n: int)
    requires n >= 0,
    ensures bishop_sqs(b, side, bb, n).len() <= 28 * n,
    decreases n,
{
    if n > 0 {
        lemma_bishop_sqs_len(b, side, bb, n - 1);
        let s = (n - 1) as u8;
        if bb & bit(s) != 0 {
            let f = file_of(s as int);
            let r = rank_of(s as int);
            lemma_ray_len(b, side, s, 9, 1, min2(7 - f, 7 - r));
            lemma_ray_len(b, side, s, 7, 1, min2(f, 7 - r));
            lemma_ray_len(b, side, s, -9, 1, min2(f, r));
            lemma_ray_len(b, side, s, -7, 1, min2(7 - f, r));
        }
    }
}

proof fn lemma_rook_sqs_len(b: Board, side: Sides, bb: u64, n: int)
    requires n >= 0,
    ensures rook_sqs(b, side, bb, n).len() <= 28 * n,
    decreases n,
{
    if n > 0 {
        lemma_rook_sqs_len(b, side, bb, n - 1);
        let s = (n - 1) as u8;
        if bb & bit(s) != 0 {
            let f = file_of(s as int);
            let r = rank_of(s as int);
            lemma_ray_len(b, side, s, 1, 1, 7 - f);
            lemma_ray_len(b, side, s, -1, 1, f);
            lemma_ray_len(b, side, s, 8, 1, 7 - r);
            lemma_ray_len(b, side, s, -8, 1, r);
        }
    }
}

proof fn lemma_knight_sqs_len(b: Board, side: Sides, bb: u64, n: int)
    requires n >= 0,
    ensures knight_sqs(b, side, bb, n).len() <= 8 * n,
    decreases n,
{
    if n > 0 {
        lemma_knight_sqs_len(b, side, bb, n - 1);
    }
}

proof fn lemma_king_sqs_len(b: Board, side: Sides, bb: u64, n: int)
    requires n >= 0,
    ensures king_sqs(b, side, bb, n).len() <= 8 * n,
    decreases n,
{
    if n > 0 {
        lemma_king_sqs_len(b, side, bb, n - 1);
    }
}

proof fn lemma_filter_len(b: Board, side: Sides, ms: Seq<Move>, i: int)
    ensures legal_filter_from(b, side, ms, i).len() <= ms.len() - i || ms.len() - i < 0,
    decreases ms.len() - i,
{
    if 0 <= i < ms.len() {
        lemma_filter_len(b, side, ms, i + 1);
    }
}

/// The generator never returns more than 8448 moves.
pub proof fn lemma_gen_moves_len(b: Board, side: Sides, legal: bool)
    ensures gen_moves_spec(b, side, legal).len() <= 8448,
{
    let si = side.spec_idx();
    lemma_pawn_sqs_len(b, side, b.piece(si, 0), 64);
    lemma_bishop_sqs_len(b, side, b.piece(si, 1), 64);
    lemma_knight_sqs_len(b, side, b.piece(si, 2), 64);
    lemma_rook_sqs_len(b, side, b.piece(si, 3), 64);
    lemma_bishop_sqs_len(b, side, b.piece(si, 4), 64);
    lemma_rook_sqs_len(b, side, b.piece(si, 4), 64);
    lemma_king_sqs_len(b, side, b.piece(si, 5), 64);
    if legal {
        lemma_filter_len(b, side, all_moves_spec(b, side), 0);
    }
}

} // verus!
