use vstd::prelude::*;
use vstd::array::spec_array_update;

verus! {

/// The bitboard mask with exactly the bit for square `p` set.
pub open spec fn bit(p: u8) -> u64 {
    1u64 << (p as u64)
}

/// Number of set bits among the lowest `n` bit positions of `x`.
pub open spec fn popn(x: u64, n: int) -> nat
    decreases n,
{
    if n <= 0 {
        0
    } else {
        popn(x, n - 1) + (if x & (1u64 << ((n - 1) as u64)) != 0 {
            1nat
        } else {
            0nat
        })
    }
}

/// Number of set bits of a 64-bit word.
pub open spec fn pop64(x: u64) -> nat {
    popn(x, 64)
}

pub proof fn lemma_popn_bound(x: u64, n: int)
    ensures
        popn(x, n) <= (if n <= 0 { 0int } else { n }),
    decreases n,
{
    if n > 0 {
        lemma_popn_bound(x, n - 1);
    }
}

/// Toggling one bit position changes the count of the low `n` bits by exactly
/// one, in the direction given by the bit's old value, provided the position
/// lies below `n`.
pub proof fn lemma_popn_xor_bit(x: u64, p: u8, n: int)
    requires
        p < 64,
    ensures
        p < n <= 64 ==> popn(x ^ bit(p), n) == (if x & bit(p) != 0 {
            popn(x, n) - 1
        } else {
            popn(x, n) + 1int
        }),
        n <= p ==> popn(x ^ bit(p), n) == popn(x, n),
    decreases n,
{
    if n > 0 {
        lemma_popn_xor_bit(x, p, n - 1);
        if n <= 64 {
            let q = (n - 1) as u64;
            let pp = p as u64;
            if p == n - 1 {
                assert(pp < 64 ==> ((x ^ (1u64 << pp)) & (1u64 << pp) != 0 <==> x & (1u64 << pp)
                    == 0)) by (bit_vector);
            } else {
                assert(pp != q && pp < 64 && q < 64 ==> ((x ^ (1u64 << pp)) & (1u64 << q) == x & (
                1u64 << q))) by (bit_vector);
            }
        }
    }
}

#[derive(Clone, Copy, Debug, PartialEq, Eq, Structural, Hash)]
pub enum Sides {
    WHITE,
    BLACK,
}

impl Sides {
    /// The row of `Board::bb_pieces` that belongs to this side.
    pub open spec fn spec_idx(self) -> int {
        match self {
            Sides::WHITE => 0,
            Sides::BLACK => 1,
        }
    }

    pub fn idx(self) -> (i: usize)
        ensures
            i == self.spec_idx(),
    {
        match self {
            Sides::WHITE => 0,
            Sides::BLACK => 1,
        }
    }

    pub open spec fn spec_flip(self) -> Sides {
        match self {
            Sides::WHITE => Sides::BLACK,
            Sides::BLACK => Sides::WHITE,
        }
    }

    /// The opposing side.
    pub fn flip(self) -> (r: Sides)
        ensures
            r == self.spec_flip(),
    {
        match self {
            Sides::WHITE => Sides::BLACK,
            Sides::BLACK => Sides::WHITE,
        }
    }

    pub fn from_usize(i: usize) -> (r: Option<Sides>)
        ensures
            r == (if i == 0 {
                Some(Sides::WHITE)
            } else if i == 1 {
                Some(Sides::BLACK)
            } else {
                None::<Sides>
            }),
    {
        match i {
            0 => Some(Sides::WHITE),
            1 => Some(Sides::BLACK),
            _ => None,
        }
    }
}

#[derive(Clone, Copy, Debug, PartialEq, Eq, Structural)]
pub enum Pieces {
    PAWN,
    BISHOP,
    KNIGHT,
    ROOK,
    QUEEN,
    KING,
}

/// The piece kind stored at row `k` of a side's piece boards.
pub open spec fn kind_at(k: int) -> Pieces {
    if k == 0 {
        Pieces::PAWN
    } else if k == 1 {
        Pieces::BISHOP
    } else if k == 2 {
        Pieces::KNIGHT
    } else if k == 3 {
        Pieces::ROOK
    } else if k == 4 {
        Pieces::QUEEN
    } else {
        Pieces::KING
    }
}

impl Pieces {
    /// The row of a side's piece boards that holds this kind.
    pub open spec fn spec_idx(self) -> int {
        match self {
            Pieces::PAWN => 0,
            Pieces::BISHOP => 1,
            Pieces::KNIGHT => 2,
            Pieces::ROOK => 3,
            Pieces::QUEEN => 4,
            Pieces::KING => 5,
        }
    }

    pub fn idx(self) -> (i: usize)
        ensures
            i == self.spec_idx(),
    {
        match self {
            Pieces::PAWN => 0,
            Pieces::BISHOP => 1,
            Pieces::KNIGHT => 2,
            Pieces::ROOK => 3,
            Pieces::QUEEN => 4,
            Pieces::KING => 5,
        }
    }

    pub open spec fn spec_from_char(c: char) -> Option<(Sides, Pieces)> {
        if c == 'P' {
            Some((Sides::WHITE, Pieces::PAWN))
        } else if c == 'p' {
            Some((Sides::BLACK, Pieces::PAWN))
        } else if c == 'B' {
            Some((Sides::WHITE, Pieces::BISHOP))
        } else if c == 'b' {
            Some((Sides::BLACK, Pieces::BISHOP))
        } else if c == 'N' {
            Some((Sides::WHITE, Pieces::KNIGHT))
        } else if c == 'n' {
            Some((Sides::BLACK, Pieces::KNIGHT))
        } else if c == 'R' {
            Some((Sides::WHITE, Pieces::ROOK))
        } else if c == 'r' {
            Some((Sides::BLACK, Pieces::ROOK))
        } else if c == 'Q' {
            Some((Sides::WHITE, Pieces::QUEEN))
        } else if c == 'q' {
            Some((Sides::BLACK, Pieces::QUEEN))
        } else if c == 'K' {
            Some((Sides::WHITE, Pieces::KING))
        } else if c == 'k' {
            Some((Sides::BLACK, Pieces::KING))
        } else {
            None
        }
    }

    /// Reads one FEN piece letter; upper case is white, lower case black.
    pub fn from_char(c: char) -> (r: Option<(Sides, Pieces)>)
        ensures
            r == Self::spec_from_char(c),
    {
        match c {
            'P' => Some((Sides::WHITE, Pieces::PAWN)),
            'p' => Some((Sides::BLACK, Pieces::PAWN)),
            'B' => Some((Sides::WHITE, Pieces::BISHOP)),
            'b' => Some((Sides::BLACK, Pieces::BISHOP)),
            'N' => Some((Sides::WHITE, Pieces::KNIGHT)),
            'n' => Some((Sides::BLACK, Pieces::KNIGHT)),
            'R' => Some((Sides::WHITE, Pieces::ROOK)),
            'r' => Some((Sides::BLACK, Pieces::ROOK)),
            'Q' => Some((Sides::WHITE, Pieces::QUEEN)),
            'q' => Some((Sides::BLACK, Pieces::QUEEN)),
            'K' => Some((Sides::WHITE, Pieces::KING)),
            'k' => Some((Sides::BLACK, Pieces::KING)),
            _ => None,
        }
    }

    pub fn from_usize(i: usize) -> (r: Option<Pieces>)
        ensures
            r == (if i < 6 {
                Some(kind_at(i as int))
            } else {
                None::<Pieces>
            }),
    {
        match i {
            0 => Some(Pieces::PAWN),
            1 => Some(Pieces::BISHOP),
            2 => Some(Pieces::KNIGHT),
            3 => Some(Pieces::ROOK),
            4 => Some(Pieces::QUEEN),
            5 => Some(Pieces::KING),
            _ => None,
        }
    }
}

#[derive(Clone, Copy, Debug, PartialEq, Eq, Structural, Hash)]
pub struct BitBoard(pub u64);

impl BitBoard {
    /// The bitboard holding only square `pos`.
    pub fn from_pos(pos: u8) -> (r: Self)
        requires
            pos < 64,
        ensures
            r.0 == bit(pos),
    {
        BitBoard(1u64 << pos)
    }
}

/// A half move: where a piece stands, where it goes, and the opposing kind
/// observed on the destination square when the move was generated.
#[derive(Clone, Copy, Debug, PartialEq, Eq, Structural)]
pub struct Move {
    pub start: u8,
    pub dest: u8,
    pub capture: Option<Pieces>,
}

/// A position snapshot: one bitboard per (side, piece kind), the cached
/// per-side unions, whose turn it is, castling rights, the en-passant target
/// square and the move counters.
#[derive(Clone, Copy, Debug)]
pub struct Board {
    pub bb_pieces: [[BitBoard; 6]; 2],
    pub bb_sides: [BitBoard; 2],
    pub turn: Sides,
    pub white_can_oo: bool,
    pub black_can_oo: bool,
    pub white_can_ooo: bool,
    pub black_can_ooo: bool,
    pub en_passant_square: Option<u8>,
    pub half_moves: u64,
    pub full_moves: usize,
}

impl Board {
    pub open spec fn piece(self, s: int, k: int) -> u64 {
        self.bb_pieces[s][k].0
    }

    /// Union of one side's six piece boards.
    pub open spec fn side_occ(self, s: int) -> u64 {
        self.piece(s, 0) | self.piece(s, 1) | self.piece(s, 2) | self.piece(s, 3) | self.piece(
            s,
            4,
        ) | self.piece(s, 5)
    }

    /// Every square holds at most one (side, kind) pair, and the cached side
    /// unions agree with the piece boards.
    pub open spec fn wf(self) -> bool {
        &&& forall|s1: int, k1: int, s2: int, k2: int|
            0 <= s1 < 2 && 0 <= k1 < 6 && 0 <= s2 < 2 && 0 <= k2 < 6 && (s1 != s2 || k1 != k2)
                ==> #[trigger] self.piece(s1, k1) & #[trigger] self.piece(s2, k2) == 0
        &&& self.bb_sides[0].0 == self.side_occ(0)
        &&& self.bb_sides[1].0 == self.side_occ(1)
    }

    /// Total number of pieces on the board.
    pub open spec fn total_pop(self) -> nat {
        pop64(self.piece(0, 0)) + pop64(self.piece(0, 1)) + pop64(self.piece(0, 2)) + pop64(
            self.piece(0, 3),
        ) + pop64(self.piece(0, 4)) + pop64(self.piece(0, 5)) + pop64(self.piece(1, 0)) + pop64(
            self.piece(1, 1),
        ) + pop64(self.piece(1, 2)) + pop64(self.piece(1, 3)) + pop64(self.piece(1, 4)) + pop64(
            self.piece(1, 5),
        )
    }

    /// The side that `apply` moves: white when white occupies the start
    /// square, black otherwise.
    pub open spec fn apply_side(self, m: Move) -> int {
        if self.side_occ(0) & bit(m.start) != 0 {
            0
        } else {
            1
        }
    }

    /// The first piece row of side `s` (searching from `k` up) whose board
    /// holds the start square; row 0 when none does.
    pub open spec fn first_kind_from(self, s: int, p: u8, k: int) -> int
        decreases 6 - k,
    {
        if k >= 6 {
            0
        } else if self.piece(s, k) & bit(p) != 0 {
            k
        } else {
            self.first_kind_from(s, p, k + 1)
        }
    }

    pub open spec fn first_kind(self, s: int, p: u8) -> int {
        self.first_kind_from(s, p, 0)
    }

    /// The twelve piece boards after a move: start and dest toggled on the
    /// mover's board, and the captured kind's bit cleared on the opponent's.
    pub open spec fn moved_pieces(self, m: Move) -> [[BitBoard; 6]; 2] {
        let s = self.apply_side(m);
        let k = self.first_kind(s, m.start);
        let row = spec_array_update(
            self.bb_pieces[s],
            k,
            BitBoard(self.piece(s, k) ^ (bit(m.dest) | bit(m.start))),
        );
        let after_move = spec_array_update(self.bb_pieces, s, row);
        match m.capture {
            Some(cp) => {
                let o = 1 - s;
                let ck = cp.spec_idx();
                let row2 = spec_array_update(
                    after_move[o],
                    ck,
                    BitBoard(after_move[o][ck].0 ^ bit(m.dest)),
                );
                spec_array_update(after_move, o, row2)
            },
            None => after_move,
        }
    }

    /// White loses a castling right when its king or the matching rook square
    /// is vacated; likewise for black.
    pub open spec fn rights_after(self, m: Move) -> (bool, bool, bool, bool) {
        (
            self.white_can_oo && m.start != 4 && m.start != 7,
            self.black_can_oo && m.start != 60 && m.start != 63,
            self.white_can_ooo && m.start != 4 && m.start != 0,
            self.black_can_ooo && m.start != 60 && m.start != 56,
        )
    }

    /// The en-passant target exists only right after a two-square pawn
    /// advance and names the square the pawn skipped.
    pub open spec fn ep_after(self, m: Move) -> Option<u8> {
        let s = self.apply_side(m);
        let k = self.first_kind(s, m.start);
        if k == 0 && m.dest == m.start + 16 {
            Some((m.start + 8) as u8)
        } else if k == 0 && m.start == m.dest + 16 {
            Some((m.dest + 8) as u8)
        } else {
            None
        }
    }

    /// The board one half move later.
    pub open spec fn spec_apply(self, m: Move) -> Board {
        let pieces = self.moved_pieces(m);
        let occ0 = pieces[0][0].0 | pieces[0][1].0 | pieces[0][2].0 | pieces[0][3].0
            | pieces[0][4].0 | pieces[0][5].0;
        let occ1 = pieces[1][0].0 | pieces[1][1].0 | pieces[1][2].0 | pieces[1][3].0
            | pieces[1][4].0 | pieces[1][5].0;
        let rights = self.rights_after(m);
        Board {
            bb_pieces: pieces,
            bb_sides: [BitBoard(occ0), BitBoard(occ1)],
            turn: self.turn.spec_flip(),
            white_can_oo: rights.0,
            black_can_oo: rights.1,
            white_can_ooo: rights.2,
            black_can_ooo: rights.3,
            en_passant_square: self.ep_after(m),
            half_moves: self.half_moves,
            full_moves: (self.full_moves + 1) as usize,
        }
    }

    /// Recomputes the two per-side unions from the piece boards.
    pub fn get_sides(&self) -> (r: [BitBoard; 2])
        ensures
            r[0].0 == self.side_occ(0),
            r[1].0 == self.side_occ(1),
    {
        [
            BitBoard(
                self.bb_pieces[0][0].0 | self.bb_pieces[0][1].0 | self.bb_pieces[0][2].0
                    | self.bb_pieces[0][3].0 | self.bb_pieces[0][4].0 | self.bb_pieces[0][5].0,
            ),
            BitBoard(
                self.bb_pieces[1][0].0 | self.bb_pieces[1][1].0 | self.bb_pieces[1][2].0
                    | self.bb_pieces[1][3].0 | self.bb_pieces[1][4].0 | self.bb_pieces[1][5].0,
            ),
        ]
    }

}

/// A principal variation: the best move sequence found from a node.
#[derive(Clone, Debug)]
pub struct Line {
    moves: Vec<Move>,
}

impl View for Line {
    type V = Seq<Move>;

    closed spec fn view(&self) -> Seq<Move> {
        self.moves@
    }
}

impl Line {
    pub fn new() -> (r: Self)
        ensures
            r@ == Seq::<Move>::empty(),
    {
        Line { moves: Vec::new() }
    }

    pub fn add_move(&mut self, m: Move)
        ensures
            final(self)@ == old(self)@.push(m),
    {
        self.moves.push(m);
    }

    /// Appends another line's moves after this one's.
    pub fn extend(&mut self, line: &Self)
        ensures
            final(self)@ == old(self)@ + line@,
    {
        let mut i: usize = 0;
        while i < line.moves.len()
            invariant
                i <= line.moves.len(),
                self.moves@ == old(self).moves@ + line.moves@.subrange(0, i as int),
            decreases line.moves.len() - i,
        {
            self.moves.push(line.moves[i]);
            i = i + 1;
        }
        proof {
            assert(line.moves@.subrange(0, line.moves@.len() as int) =~= line.moves@);
            assert(self.moves@ =~= old(self).moves@ + line.moves@);
        }
    }

    pub fn len(&self) -> (r: usize)
        ensures
            r == self@.len(),
    {
        self.moves.len()
    }

    pub fn get(&self, i: usize) -> (r: Move)
        requires
            i < self@.len(),
        ensures
            r == self@[i as int],
    {
        self.moves[i]
    }
}


impl Board {

    /// The starting position as one value.
    pub open spec fn start_board() -> Board {
        Board {
            bb_pieces: [[BitBoard(65280u64), BitBoard(36u64), BitBoard(66u64), BitBoard(129u64),
                BitBoard(8u64), BitBoard(16u64)], [BitBoard(71776119061217280u64), BitBoard(
                2594073385365405696u64,
            ), BitBoard(4755801206503243776u64), BitBoard(9295429630892703744u64), BitBoard(
                576460752303423488u64,
            ), BitBoard(1152921504606846976u64)]],
            bb_sides: [BitBoard(65535u64), BitBoard(18446462598732840960u64)],
            turn: Sides::WHITE,
            white_can_oo: true,
            black_can_oo: true,
            white_can_ooo: true,
            black_can_ooo: true,
            en_passant_square: None,
            half_moves: 0u64,
            full_moves: 0usize,
        }
    }

    /// The piece board each (side, kind) pair holds in the standard starting
    /// position.
    pub open spec fn start_piece(s: int, k: int) -> u64 {
        if s == 0 {
            if k == 0 { 65280u64 }
            else if k == 1 { 36u64 }
            else if k == 2 { 66u64 }
            else if k == 3 { 129u64 }
            else if k == 4 { 8u64 }
            else { 16u64 }
        } else {
            if k == 0 { 71776119061217280u64 }
            else if k == 1 { 2594073385365405696u64 }
            else if k == 2 { 4755801206503243776u64 }
            else if k == 3 { 9295429630892703744u64 }
            else if k == 4 { 576460752303423488u64 }
            else { 1152921504606846976u64 }
        }
    }

    /// The standard starting position with white to move.
    pub open spec fn is_start(b: Board) -> bool {
        &&& forall|s: int, k: int|
            0 <= s < 2 && 0 <= k < 6 ==> #[trigger] b.piece(s, k) == Board::start_piece(s, k)
        &&& b.bb_sides[0].0 == 65535u64
        &&& b.bb_sides[1].0 == 18446462598732840960u64
        &&& b.turn == Sides::WHITE
        &&& b.white_can_oo && b.black_can_oo && b.white_can_ooo && b.black_can_ooo
        &&& b.en_passant_square is None
        &&& b.half_moves == 0
        &&& b.full_moves == 0
    }

    pub proof fn lemma_start_wf(b: Board)
        requires
            Board::is_start(b),
        ensures
            b.wf(),
    {
        assert(65280u64 & 36u64 == 0
            && 65280u64 & 66u64 == 0
            && 65280u64 & 129u64 == 0
            && 65280u64 & 8u64 == 0
            && 65280u64 & 16u64 == 0
            && 65280u64 & 71776119061217280u64 == 0
            && 65280u64 & 2594073385365405696u64 == 0
            && 65280u64 & 4755801206503243776u64 == 0
            && 65280u64 & 9295429630892703744u64 == 0
            && 65280u64 & 576460752303423488u64 == 0
            && 65280u64 & 1152921504606846976u64 == 0
            && 36u64 & 65280u64 == 0
            && 36u64 & 66u64 == 0
            && 36u64 & 129u64 == 0
            && 36u64 & 8u64 == 0
            && 36u64 & 16u64 == 0
            && 36u64 & 71776119061217280u64 == 0
            && 36u64 & 2594073385365405696u64 == 0
            && 36u64 & 4755801206503243776u64 == 0
            && 36u64 & 9295429630892703744u64 == 0
            && 36u64 & 576460752303423488u64 == 0
            && 36u64 & 1152921504606846976u64 == 0
            && 66u64 & 65280u64 == 0
            && 66u64 & 36u64 == 0
            && 66u64 & 129u64 == 0
            && 66u64 & 8u64 == 0
            && 66u64 & 16u64 == 0
            && 66u64 & 71776119061217280u64 == 0
            && 66u64 & 2594073385365405696u64 == 0
            && 66u64 & 4755801206503243776u64 == 0
            && 66u64 & 9295429630892703744u64 == 0
            && 66u64 & 576460752303423488u64 == 0
            && 66u64 & 1152921504606846976u64 == 0
            && 129u64 & 65280u64 == 0
            && 129u64 & 36u64 == 0
            && 129u64 & 66u64 == 0
            && 129u64 & 8u64 == 0
            && 129u64 & 16u64 == 0
            && 129u64 & 71776119061217280u64 == 0
            && 129u64 & 2594073385365405696u64 == 0
            && 129u64 & 4755801206503243776u64 == 0
            && 129u64 & 9295429630892703744u64 == 0
            && 129u64 & 576460752303423488u64 == 0
            && 129u64 & 1152921504606846976u64 == 0
            && 8u64 & 65280u64 == 0
            && 8u64 & 36u64 == 0
            && 8u64 & 66u64 == 0
            && 8u64 & 129u64 == 0
            && 8u64 & 16u64 == 0
            && 8u64 & 71776119061217280u64 == 0
            && 8u64 & 2594073385365405696u64 == 0
            && 8u64 & 4755801206503243776u64 == 0
            && 8u64 & 9295429630892703744u64 == 0
            && 8u64 & 576460752303423488u64 == 0
            && 8u64 & 1152921504606846976u64 == 0
            && 16u64 & 65280u64 == 0
            && 16u64 & 36u64 == 0
            && 16u64 & 66u64 == 0
            && 16u64 & 129u64 == 0
            && 16u64 & 8u64 == 0
            && 16u64 & 71776119061217280u64 == 0
            && 16u64 & 2594073385365405696u64 == 0
            && 16u64 & 4755801206503243776u64 == 0
            && 16u64 & 9295429630892703744u64 == 0
            && 16u64 & 576460752303423488u64 == 0
            && 16u64 & 1152921504606846976u64 == 0
            && 71776119061217280u64 & 65280u64 == 0
            && 71776119061217280u64 & 36u64 == 0
            && 71776119061217280u64 & 66u64 == 0
            && 71776119061217280u64 & 129u64 == 0
            && 71776119061217280u64 & 8u64 == 0
            && 71776119061217280u64 & 16u64 == 0
            && 71776119061217280u64 & 2594073385365405696u64 == 0
            && 71776119061217280u64 & 4755801206503243776u64 == 0
            && 71776119061217280u64 & 9295429630892703744u64 == 0
            && 71776119061217280u64 & 576460752303423488u64 == 0
            && 71776119061217280u64 & 1152921504606846976u64 == 0
            && 2594073385365405696u64 & 65280u64 == 0
            && 2594073385365405696u64 & 36u64 == 0
            && 2594073385365405696u64 & 66u64 == 0
            && 2594073385365405696u64 & 129u64 == 0
            && 2594073385365405696u64 & 8u64 == 0
            && 2594073385365405696u64 & 16u64 == 0
            && 2594073385365405696u64 & 71776119061217280u64 == 0
            && 2594073385365405696u64 & 4755801206503243776u64 == 0
            && 2594073385365405696u64 & 9295429630892703744u64 == 0
            && 2594073385365405696u64 & 576460752303423488u64 == 0
            && 2594073385365405696u64 & 1152921504606846976u64 == 0
            && 4755801206503243776u64 & 65280u64 == 0
            && 4755801206503243776u64 & 36u64 == 0
            && 4755801206503243776u64 & 66u64 == 0
            && 4755801206503243776u64 & 129u64 == 0
            && 4755801206503243776u64 & 8u64 == 0
            && 4755801206503243776u64 & 16u64 == 0
            && 4755801206503243776u64 & 71776119061217280u64 == 0
            && 4755801206503243776u64 & 2594073385365405696u64 == 0
            && 4755801206503243776u64 & 9295429630892703744u64 == 0
            && 4755801206503243776u64 & 576460752303423488u64 == 0
            && 4755801206503243776u64 & 1152921504606846976u64 == 0
            && 9295429630892703744u64 & 65280u64 == 0
            && 9295429630892703744u64 & 36u64 == 0
            && 9295429630892703744u64 & 66u64 == 0
            && 9295429630892703744u64 & 129u64 == 0
            && 9295429630892703744u64 & 8u64 == 0
            && 9295429630892703744u64 & 16u64 == 0
            && 9295429630892703744u64 & 71776119061217280u64 == 0
            && 9295429630892703744u64 & 2594073385365405696u64 == 0
            && 9295429630892703744u64 & 4755801206503243776u64 == 0
            && 9295429630892703744u64 & 576460752303423488u64 == 0
            && 9295429630892703744u64 & 1152921504606846976u64 == 0
            && 576460752303423488u64 & 65280u64 == 0
            && 576460752303423488u64 & 36u64 == 0
            && 576460752303423488u64 & 66u64 == 0
            && 576460752303423488u64 & 129u64 == 0
            && 576460752303423488u64 & 8u64 == 0
            && 576460752303423488u64 & 16u64 == 0
            && 576460752303423488u64 & 71776119061217280u64 == 0
            && 576460752303423488u64 & 2594073385365405696u64 == 0
            && 576460752303423488u64 & 4755801206503243776u64 == 0
            && 576460752303423488u64 & 9295429630892703744u64 == 0
            && 576460752303423488u64 & 1152921504606846976u64 == 0
            && 1152921504606846976u64 & 65280u64 == 0
            && 1152921504606846976u64 & 36u64 == 0
            && 1152921504606846976u64 & 66u64 == 0
            && 1152921504606846976u64 & 129u64 == 0
            && 1152921504606846976u64 & 8u64 == 0
            && 1152921504606846976u64 & 16u64 == 0
            && 1152921504606846976u64 & 71776119061217280u64 == 0
            && 1152921504606846976u64 & 2594073385365405696u64 == 0
            && 1152921504606846976u64 & 4755801206503243776u64 == 0
            && 1152921504606846976u64 & 9295429630892703744u64 == 0
            && 1152921504606846976u64 & 576460752303423488u64 == 0
            && 65280u64 | 36u64 | 66u64 | 129u64 | 8u64 | 16u64 == 65535u64
            && 71776119061217280u64 | 2594073385365405696u64 | 4755801206503243776u64 | 9295429630892703744u64 | 576460752303423488u64 | 1152921504606846976u64 == 18446462598732840960u64) by (bit_vector);
        assert forall|s1: int, k1: int, s2: int, k2: int|
            0 <= s1 < 2 && 0 <= k1 < 6 && 0 <= s2 < 2 && 0 <= k2 < 6 && (s1 != s2 || k1 != k2)
                implies #[trigger] b.piece(s1, k1) & #[trigger] b.piece(s2, k2) == 0 by {
            assert(b.piece(s1, k1) == Board::start_piece(s1, k1));
            assert(b.piece(s2, k2) == Board::start_piece(s2, k2));
        }
        assert(b.piece(0, 0) == 65280u64);
        assert(b.piece(0, 1) == 36u64);
        assert(b.piece(0, 2) == 66u64);
        assert(b.piece(0, 3) == 129u64);
        assert(b.piece(0, 4) == 8u64);
        assert(b.piece(0, 5) == 16u64);
        assert(b.piece(1, 0) == 71776119061217280u64);
        assert(b.piece(1, 1) == 2594073385365405696u64);
        assert(b.piece(1, 2) == 4755801206503243776u64);
        assert(b.piece(1, 3) == 9295429630892703744u64);
        assert(b.piece(1, 4) == 576460752303423488u64);
        assert(b.piece(1, 5) == 1152921504606846976u64);
    }
}

impl Default for Board {
    /// The standard starting position.
    fn default() -> (r: Self)
        ensures
            r == Board::start_board(),
            Board::is_start(r),
            r.wf(),
    {
        let r = Board {
            bb_pieces: [
                [
                    BitBoard(65280),
                    BitBoard(36),
                    BitBoard(66),
                    BitBoard(129),
                    BitBoard(8),
                    BitBoard(16),
                ],
                [
                    BitBoard(71776119061217280),
                    BitBoard(2594073385365405696),
                    BitBoard(4755801206503243776),
                    BitBoard(9295429630892703744),
                    BitBoard(576460752303423488),
                    BitBoard(1152921504606846976),
                ],
            ],
            bb_sides: [BitBoard(65535), BitBoard(18446462598732840960)],
            turn: Sides::WHITE,
            white_can_oo: true,
            black_can_oo: true,
            white_can_ooo: true,
            black_can_ooo: true,
            en_passant_square: None,
            half_moves: 0,
            full_moves: 0,
        };
        proof {
            Board::lemma_start_wf(r);
            assert(r.bb_pieces[0]@ =~= Board::start_board().bb_pieces[0]@);
            assert(r.bb_pieces[1]@ =~= Board::start_board().bb_pieces[1]@);
            assert(r.bb_pieces[0] == Board::start_board().bb_pieces[0]);
            assert(r.bb_pieces[1] == Board::start_board().bb_pieces[1]);
            assert(r.bb_pieces@ =~= Board::start_board().bb_pieces@);
            assert(r.bb_pieces == Board::start_board().bb_pieces);
            assert(r.bb_sides@ =~= Board::start_board().bb_sides@);
            assert(r.bb_sides == Board::start_board().bb_sides);
            assert(r == Board::start_board());
        }
        r
    }
}

/// The board reached by applying the moves of `ms` from index `i` on, in
/// order.
pub open spec fn apply_seq_from(b: Board, ms: Seq<Move>, i: int) -> Board
    decreases ms.len() - i,
{
    if i < 0 || i >= ms.len() {
        b
    } else {
        apply_seq_from(b.spec_apply(ms[i]), ms, i + 1)
    }
}

impl Board {
    pub fn apply_move(&mut self, m: Move)
        requires
            m.start < 64,
            m.dest < 64,
            old(self).full_moves < usize::MAX,
        ensures
            *final(self) == old(self).spec_apply(m),
    {
        let startbit: u64 = 1u64 << (m.start as u64);
        let destbit: u64 = 1u64 << (m.dest as u64);
        let sides = self.get_sides();
        let side: usize = if sides[0].0 & startbit != 0 {
            0
        } else {
            1
        };
        proof {
            assert(side as int == self.apply_side(m));
        }
        let mut kind: usize = 0;
        let mut j: usize = 0;
        let mut found = false;
        while j < 6 && !found
            invariant
                *self == *old(self),
                m.start < 64,
                startbit == bit(m.start),
                j <= 6,
                kind < 6,
                side < 2,
                side as int == self.apply_side(m),
                !found ==> kind == 0,
                !found ==> self.first_kind(side as int, m.start) == self.first_kind_from(
                    side as int,
                    m.start,
                    j as int,
                ),
                found ==> kind == self.first_kind(side as int, m.start),
            decreases 6 - j + (if found { 0int } else { 1int }),
        {
            if self.bb_pieces[side][j].0 & startbit != 0 {
                kind = j;
                found = true;
                proof {
                    assert(self.first_kind_from(side as int, m.start, j as int) == j);
                }
            } else {
                proof {
                    assert(self.first_kind_from(side as int, m.start, j as int)
                        == self.first_kind_from(side as int, m.start, j as int + 1));
                }
                j = j + 1;
            }
        }
        proof {
            if !found {
                assert(self.first_kind_from(side as int, m.start, 6) == 0);
            }
            assert(kind == self.first_kind(side as int, m.start));
        }
        let ghost pre = *self;
        self.bb_pieces[side][kind] = BitBoard(self.bb_pieces[side][kind].0 ^ (destbit | startbit));
        if let Some(cp) = m.capture {
            let o: usize = 1 - side;
            let ck = cp.idx();
            self.bb_pieces[o][ck] = BitBoard(self.bb_pieces[o][ck].0 ^ destbit);
        }
        proof {
            assert(self.bb_pieces == pre.moved_pieces(m));
        }
        let new_sides = self.get_sides();
        self.bb_sides = new_sides;
        self.white_can_oo = self.white_can_oo && m.start != 4 && m.start != 7;
        self.black_can_oo = self.black_can_oo && m.start != 60 && m.start != 63;
        self.white_can_ooo = self.white_can_ooo && m.start != 4 && m.start != 0;
        self.black_can_ooo = self.black_can_ooo && m.start != 60 && m.start != 56;
        self.en_passant_square = if kind == 0 && m.dest == m.start + 16 {
            Some(m.start + 8)
        } else if kind == 0 && m.start == m.dest + 16 {
            Some(m.dest + 8)
        } else {
            None
        };
        self.full_moves = self.full_moves + 1;
        self.turn = self.turn.flip();
        proof {
            let post = pre.spec_apply(m);
            assert(self.bb_sides[0] == post.bb_sides[0]);
            assert(self.bb_sides[1] == post.bb_sides[1]);
            assert(self.bb_sides == post.bb_sides);
            assert(*self == post);
        }
    }

    /// Applies a list of moves in order.
    pub fn apply_moves(&mut self, moves: Vec<Move>)
        requires
            forall|i: int|
                0 <= i < moves@.len() ==> (#[trigger] moves@[i]).start < 64 && moves@[i].dest < 64,
            old(self).full_moves + moves@.len() <= usize::MAX,
        ensures
            *final(self) == apply_seq_from(*old(self), moves@, 0),
    {
        let mut i: usize = 0;
        while i < moves.len()
            invariant
                i <= moves@.len(),
                forall|j: int|
                    0 <= j < moves@.len() ==> (#[trigger] moves@[j]).start < 64 && moves@[j].dest
                        < 64,
                self.full_moves + (moves@.len() - i) <= usize::MAX,
                apply_seq_from(*old(self), moves@, 0) == apply_seq_from(*self, moves@, i as int),
            decreases moves@.len() - i,
        {
            self.apply_move(moves[i]);
            i = i + 1;
        }
    }
}


} // verus!
