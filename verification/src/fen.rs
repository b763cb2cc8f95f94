use vstd::prelude::*;
use vstd::array::spec_array_update;
use crate::structs::{bit, BitBoard, Board, Pieces, Sides};
use crate::{alg_value, alph_to_pos};

verus! {

/// Failure to read a FEN record: wrong shape or an unrecognized token.
#[derive(Clone, Copy, Debug, PartialEq, Eq, Structural)]
pub struct FenError;

pub open spec fn is_digit(c: char) -> bool {
    '0' as int <= c as int <= '9' as int
}

pub open spec fn digit_val(c: char) -> int {
    c as int - '0' as int
}

pub open spec fn all_digits(s: Seq<char>) -> bool {
    forall|i: int| 0 <= i < s.len() ==> is_digit(#[trigger] s[i])
}

/// The number a digit string denotes, most significant digit first.
pub open spec fn digits_val(s: Seq<char>) -> int
    decreases s.len(),
{
    if s.len() == 0 {
        0
    } else {
        digits_val(s.drop_last()) * 10 + digit_val(s.last())
    }
}

pub proof fn lemma_digits_val_nonneg(s: Seq<char>)
    requires
        all_digits(s),
    ensures
        digits_val(s) >= 0,
    decreases s.len(),
{
    if s.len() > 0 {
        assert(all_digits(s.drop_last()));
        lemma_digits_val_nonneg(s.drop_last());
    }
}

pub proof fn lemma_digits_val_mono(s: Seq<char>, j: int)
    requires
        all_digits(s),
        0 <= j <= s.len(),
    ensures
        digits_val(s.take(j)) <= digits_val(s),
    decreases s.len() - j,
{
    if j < s.len() {
        lemma_digits_val_mono(s, j + 1);
        assert(s.take(j + 1).drop_last() =~= s.take(j));
        assert(all_digits(s.take(j + 1)));
        lemma_digits_val_nonneg(s.take(j));
        assert(digits_val(s.take(j + 1)) == digits_val(s.take(j)) * 10 + digit_val(s[j]));
    } else {
        assert(s.take(j) =~= s);
    }
}

/// Whether a decimal token is well formed and small enough for `u64`.
pub open spec fn number_ok(s: Seq<char>) -> bool {
    s.len() >= 1 && all_digits(s) && digits_val(s) <= u64::MAX
}

/// Reads a decimal token. `Ok` exactly on nonempty all-digit strings whose
/// value fits in a `u64`.
pub fn parse_number(s: &str) -> (r: Result<u64, FenError>)
    ensures
        number_ok(s@) ==> r == Ok::<u64, FenError>(digits_val(s@) as u64),
        !number_ok(s@) ==> r is Err,
{
    let n = s.unicode_len();
    if n == 0 {
        return Err(FenError);
    }
    let mut v: u64 = 0;
    let mut i: usize = 0;
    while i < n
        invariant
            n == s@.len(),
            i <= n,
            all_digits(s@.take(i as int)),
            v == digits_val(s@.take(i as int)),
        decreases n - i,
    {
        let c = s.get_char(i);
        let d: u64 = match c {
            '0' => 0,
            '1' => 1,
            '2' => 2,
            '3' => 3,
            '4' => 4,
            '5' => 5,
            '6' => 6,
            '7' => 7,
            '8' => 8,
            '9' => 9,
            _ => {
                proof {
                    assert(!is_digit(s@[i as int]));
                }
                return Err(FenError);
            },
        };
        proof {
            assert(s@.take(i as int + 1).drop_last() =~= s@.take(i as int));
            assert(all_digits(s@.take(i as int + 1)));
        }
        if v > (u64::MAX - d) / 10 {
            proof {
                if all_digits(s@) {
                    lemma_digits_val_mono(s@, i as int + 1);
                }
            }
            return Err(FenError);
        }
        v = v * 10 + d;
        i = i + 1;
    }
    proof {
        assert(s@.take(n as int) =~= s@);
    }
    Ok(v)
}

/// Whether some character of `s` equals `c`.
pub open spec fn has_char(s: Seq<char>, c: char) -> bool {
    exists|i: int| 0 <= i < s.len() && s[i] == c
}

/// All twelve piece boards of a parse in progress are empty.
pub open spec fn empty_boards() -> [[BitBoard; 6]; 2] {
    [[BitBoard(0u64), BitBoard(0u64), BitBoard(0u64), BitBoard(0u64), BitBoard(0u64), BitBoard(
        0u64,
    )], [BitBoard(0u64), BitBoard(0u64), BitBoard(0u64), BitBoard(0u64), BitBoard(0u64), BitBoard(
        0u64,
    )]]
}

/// One pass over a FEN placement field, from character `i` on, filling rank
/// `7 - g` from file `file`: a digit skips files, `/` moves one rank down,
/// and a piece letter sets one bit. Exactly eight rank groups are accepted,
/// and no rank may run past its eighth file.
pub open spec fn parse_pos_rec(s: Seq<char>, i: int, g: int, file: int, pl: [[BitBoard; 6]; 2]) -> Result<
    [[BitBoard; 6]; 2],
    FenError,
>
    decreases s.len() - i,
{
    if i < 0 || i >= s.len() {
        if g == 7 {
            Ok(pl)
        } else {
            Err(FenError)
        }
    } else {
        let c = s[i];
        if c == '/' {
            if g >= 7 {
                Err(FenError)
            } else {
                parse_pos_rec(s, i + 1, g + 1, 0, pl)
            }
        } else if is_digit(c) {
            if file + digit_val(c) <= 8 {
                parse_pos_rec(s, i + 1, g, file + digit_val(c), pl)
            } else {
                Err(FenError)
            }
        } else {
            match Pieces::spec_from_char(c) {
                Some(sp) => {
                    if file < 8 {
                        let sq = ((7 - g) * 8 + file) as u8;
                        let si = sp.0.spec_idx();
                        let ki = sp.1.spec_idx();
                        let nb = BitBoard(pl[si][ki].0 | bit(sq));
                        let pl2 = spec_array_update(pl, si, spec_array_update(pl[si], ki, nb));
                        parse_pos_rec(s, i + 1, g, file + 1, pl2)
                    } else {
                        Err(FenError)
                    }
                },
                None => Err(FenError),
            }
        }
    }
}

/// Which squares a parse in state `(g, file)` has already passed: the ranks
/// above `7 - g`, and on rank `7 - g` the files below `file`.
pub open spec fn placed(g: int, file: int, p: int) -> bool {
    p >= (7 - g) * 8 + 8 || ((7 - g) * 8 <= p < (7 - g) * 8 + file)
}

pub open spec fn boards_placed(pl: [[BitBoard; 6]; 2], g: int, file: int) -> bool {
    forall|si: int, ki: int, p: u8|
        0 <= si < 2 && 0 <= ki < 6 && p < 64 && #[trigger] (pl[si][ki].0 & bit(p)) != 0 ==> placed(
            g,
            file,
            p as int,
        )
}

pub open spec fn boards_disjoint(pl: [[BitBoard; 6]; 2]) -> bool {
    forall|s1: int, k1: int, s2: int, k2: int|
        0 <= s1 < 2 && 0 <= k1 < 6 && 0 <= s2 < 2 && 0 <= k2 < 6 && (s1 != s2 || k1 != k2)
            ==> #[trigger] pl[s1][k1].0 & #[trigger] pl[s2][k2].0 == 0
}

proof fn lemma_or_bit_keeps_disjoint(x: u64, y: u64, bb: u64)
    requires
        x & y == 0,
        y & bb == 0,
    ensures
        (x | bb) & y == 0,
        y & (x | bb) == 0,
{
    assert((x & y == 0 && y & bb == 0) ==> ((x | bb) & y == 0 && y & (x | bb) == 0))
        by (bit_vector);
}

proof fn lemma_bit_not_placed(pl: [[BitBoard; 6]; 2], g: int, file: int, sq: u8)
    requires
        boards_placed(pl, g, file),
        0 <= g <= 7,
        0 <= file < 8,
        sq == (7 - g) * 8 + file,
    ensures
        forall|si: int, ki: int|
            0 <= si < 2 && 0 <= ki < 6 ==> #[trigger] pl[si][ki].0 & bit(sq) == 0,
{
    assert forall|si: int, ki: int| 0 <= si < 2 && 0 <= ki < 6 implies #[trigger] pl[si][ki].0
        & bit(sq) == 0 by {
        if pl[si][ki].0 & bit(sq) != 0 {
            assert(placed(g, file, sq as int));
        }
    }
}

/// A successful placement parse starting from a consistent state yields
/// pairwise-disjoint piece boards.
proof fn lemma_parse_pos_disjoint(s: Seq<char>, i: int, g: int, file: int, pl: [[BitBoard; 6]; 2])
    requires
        0 <= g <= 7,
        0 <= file <= 8,
        boards_placed(pl, g, file),
        boards_disjoint(pl),
        parse_pos_rec(s, i, g, file, pl) is Ok,
    ensures
        boards_disjoint(parse_pos_rec(s, i, g, file, pl).unwrap()),
    decreases s.len() - i,
{
    if i < 0 || i >= s.len() {
    } else {
        let c = s[i];
        if c == '/' {
            assert(boards_placed(pl, g + 1, 0));
            lemma_parse_pos_disjoint(s, i + 1, g + 1, 0, pl);
        } else if is_digit(c) {
            if file + digit_val(c) <= 8 {
                assert(boards_placed(pl, g, file + digit_val(c)));
                lemma_parse_pos_disjoint(s, i + 1, g, file + digit_val(c), pl);
            }
        } else {
            match Pieces::spec_from_char(c) {
                Some(sp) => {
                    if file < 8 {
                        let sq = ((7 - g) * 8 + file) as u8;
                        let si = sp.0.spec_idx();
                        let ki = sp.1.spec_idx();
                        let nb = BitBoard(pl[si][ki].0 | bit(sq));
                        let pl2 = spec_array_update(pl, si, spec_array_update(pl[si], ki, nb));
                        lemma_bit_not_placed(pl, g, file, sq);
                        assert forall|s1: int, k1: int, s2: int, k2: int|
                            0 <= s1 < 2 && 0 <= k1 < 6 && 0 <= s2 < 2 && 0 <= k2 < 6 && (s1 != s2
                                || k1 != k2) implies #[trigger] pl2[s1][k1].0
                            & #[trigger] pl2[s2][k2].0 == 0 by {
                            if s1 == si && k1 == ki {
                                lemma_or_bit_keeps_disjoint(pl[si][ki].0, pl[s2][k2].0, bit(sq));
                            } else if s2 == si && k2 == ki {
                                lemma_or_bit_keeps_disjoint(pl[si][ki].0, pl[s1][k1].0, bit(sq));
                            }
                        }
                        assert forall|s1: int, k1: int, p: u8|
                            0 <= s1 < 2 && 0 <= k1 < 6 && p < 64 && #[trigger] (pl2[s1][k1].0
                                & bit(p)) != 0 implies placed(g, file + 1, p as int) by {
                            if s1 == si && k1 == ki {
                                if p != sq {
                                    let bp = bit(p);
                                    let bs = bit(sq);
                                    let x = pl[si][ki].0;
                                    let pp = p as u64;
                                    let qq = sq as u64;
                                    assert((pp != qq && pp < 64 && qq < 64 && (x | (1u64 << qq)) & (
                                    1u64 << pp) != 0) ==> x & (1u64 << pp) != 0) by (bit_vector);
                                    assert(placed(g, file, p as int));
                                }
                            } else {
                                assert(placed(g, file, p as int));
                            }
                        }
                        assert(boards_placed(pl2, g, file + 1));
                        lemma_parse_pos_disjoint(s, i + 1, g, file + 1, pl2);
                    }
                },
                None => {},
            }
        }
    }
}


/// Whether the six fields of a FEN record all parse.
pub open spec fn fen_ok6(
    t0: Seq<char>,
    t1: Seq<char>,
    t3: Seq<char>,
    t4: Seq<char>,
    t5: Seq<char>,
) -> bool {
    &&& parse_pos_rec(t0, 0, 0, 0, empty_boards()) is Ok
    &&& (t1 == seq!['w'] || t1 == seq!['b'])
    &&& (t3 == seq!['-'] || alg_value(t3) is Some)
    &&& number_ok(t4)
    &&& number_ok(t5)
    &&& digits_val(t5) <= usize::MAX
}

/// The board a well-formed FEN record denotes.
pub open spec fn fen_board6(
    t0: Seq<char>,
    t1: Seq<char>,
    t2: Seq<char>,
    t3: Seq<char>,
    t4: Seq<char>,
    t5: Seq<char>,
) -> Board {
    let pl = parse_pos_rec(t0, 0, 0, 0, empty_boards()).unwrap();
    Board {
        bb_pieces: pl,
        bb_sides: [
            BitBoard(
                pl[0][0].0 | pl[0][1].0 | pl[0][2].0 | pl[0][3].0 | pl[0][4].0 | pl[0][5].0,
            ),
            BitBoard(
                pl[1][0].0 | pl[1][1].0 | pl[1][2].0 | pl[1][3].0 | pl[1][4].0 | pl[1][5].0,
            ),
        ],
        turn: (if t1 == seq!['w'] {
            Sides::WHITE
        } else {
            Sides::BLACK
        }),
        white_can_oo: has_char(t2, 'K'),
        white_can_ooo: has_char(t2, 'Q'),
        black_can_oo: has_char(t2, 'k'),
        black_can_ooo: has_char(t2, 'q'),
        en_passant_square: (if t3 == seq!['-'] {
            None
        } else {
            alg_value(t3)
        }),
        half_moves: digits_val(t4) as u64,
        full_moves: digits_val(t5) as usize,
    }
}

pub struct Fen;

impl Fen {
    /// Reads a FEN placement field into the twelve piece boards; rejects a
    /// record without exactly eight rank groups or with a rank past its
    /// eighth file. On success the boards are pairwise disjoint.
    pub fn parse_position(part: &str) -> (r: Result<[[BitBoard; 6]; 2], FenError>)
        ensures
            r == parse_pos_rec(part@, 0, 0, 0, empty_boards()),
            r matches Ok(pl) ==> boards_disjoint(pl),
    {
        let mut pl: [[BitBoard; 6]; 2] = [[BitBoard(0u64); 6]; 2];
        proof {
            assert(pl[0]@ =~= empty_boards()[0]@);
            assert(pl[1]@ =~= empty_boards()[1]@);
            assert(pl[0] == empty_boards()[0] && pl[1] == empty_boards()[1]);
            assert(pl@ =~= empty_boards()@);
            assert(pl == empty_boards());
        }
        let n = part.unicode_len();
        let mut i: usize = 0;
        let mut g: u8 = 0;
        let mut file: u8 = 0;
        while i < n
            invariant
                n == part@.len(),
                i <= n,
                g <= 7,
                file <= 8,
                parse_pos_rec(part@, 0, 0, 0, empty_boards()) == parse_pos_rec(
                    part@,
                    i as int,
                    g as int,
                    file as int,
                    pl,
                ),
            decreases n - i,
        {
            let c = part.get_char(i);
            if c == '/' {
                if g >= 7 {
                    return Err(FenError);
                }
                g = g + 1;
                file = 0;
            } else {
                let d: u8 = match c {
                    '0' => 0,
                    '1' => 1,
                    '2' => 2,
                    '3' => 3,
                    '4' => 4,
                    '5' => 5,
                    '6' => 6,
                    '7' => 7,
                    '8' => 8,
                    '9' => 9,
                    _ => 10,
                };
                if d < 10 {
                    if file + d > 8 {
                        return Err(FenError);
                    }
                    file = file + d;
                } else {
                    match Pieces::from_char(c) {
                        Some((sd, pc)) => {
                            if file >= 8 {
                                return Err(FenError);
                            }
                            let sq: u8 = (7 - g) * 8 + file;
                            let si = sd.idx();
                            let ki = pc.idx();
                            pl[si][ki] = BitBoard(pl[si][ki].0 | (1u64 << (sq as u64)));
                            file = file + 1;
                        },
                        None => {
                            return Err(FenError);
                        },
                    }
                }
            }
            i = i + 1;
        }
        if g != 7 {
            return Err(FenError);
        }
        proof {
            if parse_pos_rec(part@, 0, 0, 0, empty_boards()) is Ok {
                assert(boards_placed(empty_boards(), 0, 0)) by {
                    assert forall|si: int, ki: int, p: u8|
                        0 <= si < 2 && 0 <= ki < 6 && p < 64 implies #[trigger] (
                    empty_boards()[si][ki].0 & bit(p)) == 0 by {
                        let pp = p as u64;
                        assert(pp < 64 ==> 0u64 & (1u64 << pp) == 0) by (bit_vector);
                    }
                }
                assert(boards_disjoint(empty_boards())) by {
                    assert forall|s1: int, k1: int, s2: int, k2: int|
                        0 <= s1 < 2 && 0 <= k1 < 6 && 0 <= s2 < 2 && 0 <= k2 < 6 && (s1 != s2 || k1
                            != k2) implies #[trigger] empty_boards()[s1][k1].0
                        & #[trigger] empty_boards()[s2][k2].0 == 0 by {
                        assert(0u64 & 0u64 == 0) by (bit_vector);
                    }
                }
                lemma_parse_pos_disjoint(part@, 0, 0, 0, empty_boards());
            }
        }
        Ok(pl)
    }

    /// Reads the en-passant field: `-` means none, otherwise a two-character
    /// algebraic square name.
    pub fn parse_en_passant(part: &str) -> (r: Result<Option<u8>, FenError>)
        ensures
            part@ == seq!['-'] ==> r == Ok::<Option<u8>, FenError>(None),
            part@ != seq!['-'] ==> r == (match alg_value(part@) {
                Some(p) => Ok::<Option<u8>, FenError>(Some(p)),
                None => Err::<Option<u8>, FenError>(FenError),
            }),
    {
        if part.unicode_len() == 1 {
            let c = part.get_char(0);
            if c == '-' {
                proof {
                    assert(part@ =~= seq!['-']);
                }
                return Ok(None);
            }
        }
        proof {
            if part@.len() == 1 && part@[0] == '-' {
                assert(part@ =~= seq!['-']);
            }
        }
        match alph_to_pos(part) {
            Ok(p) => Ok(Some(p)),
            Err(_) => Err(FenError),
        }
    }

    /// Reads the side-to-move field: `w` or `b`.
    pub fn parse_side_to_play(part: &str) -> (r: Result<Sides, FenError>)
        ensures
            part@ == seq!['w'] ==> r == Ok::<Sides, FenError>(Sides::WHITE),
            part@ == seq!['b'] ==> r == Ok::<Sides, FenError>(Sides::BLACK),
            part@ != seq!['w'] && part@ != seq!['b'] ==> r is Err,
    {
        if part.unicode_len() == 1 {
            let c = part.get_char(0);
            if c == 'w' {
                proof {
                    assert(part@ =~= seq!['w']);
                }
                return Ok(Sides::WHITE);
            }
            if c == 'b' {
                proof {
                    assert(part@ =~= seq!['b']);
                }
                return Ok(Sides::BLACK);
            }
        }
        proof {
            if part@.len() == 1 {
                if part@[0] == 'w' {
                    assert(part@ =~= seq!['w']);
                }
                if part@[0] == 'b' {
                    assert(part@ =~= seq!['b']);
                }
            }
        }
        Err(FenError)
    }

    /// Reads the castling field: each of `K`, `Q`, `k`, `q` grants one of
    /// the four rights by membership.
    pub fn parse_castling(part: &str) -> (r: Result<(bool, bool, bool, bool), FenError>)
        ensures
            r == Ok::<(bool, bool, bool, bool), FenError>(
                (
                    has_char(part@, 'K'),
                    has_char(part@, 'Q'),
                    has_char(part@, 'k'),
                    has_char(part@, 'q'),
                ),
            ),
    {
        let n = part.unicode_len();
        let mut wk = false;
        let mut wq = false;
        let mut bk = false;
        let mut bq = false;
        let mut i: usize = 0;
        while i < n
            invariant
                n == part@.len(),
                i <= n,
                wk <==> has_char(part@.take(i as int), 'K'),
                wq <==> has_char(part@.take(i as int), 'Q'),
                bk <==> has_char(part@.take(i as int), 'k'),
                bq <==> has_char(part@.take(i as int), 'q'),
            decreases n - i,
        {
            let c = part.get_char(i);
            proof {
                assert(part@.take(i as int + 1).drop_last() =~= part@.take(i as int));
                assert(part@.take(i as int + 1).last() == part@[i as int]);
            }
            if c == 'K' {
                wk = true;
            }
            if c == 'Q' {
                wq = true;
            }
            if c == 'k' {
                bk = true;
            }
            if c == 'q' {
                bq = true;
            }
            proof {
                let t = part@.take(i as int + 1);
                assert forall|ch: char| has_char(part@.take(i as int), ch) implies has_char(
                    t,
                    ch,
                ) by {
                    let w = choose|j: int|
                        0 <= j < part@.take(i as int).len() && part@.take(i as int)[j] == ch;
                    assert(t[w] == ch);
                }
                if part@[i as int] == 'K' {
                    assert(t[i as int] == 'K');
                }
                if part@[i as int] == 'Q' {
                    assert(t[i as int] == 'Q');
                }
                if part@[i as int] == 'k' {
                    assert(t[i as int] == 'k');
                }
                if part@[i as int] == 'q' {
                    assert(t[i as int] == 'q');
                }
            }
            i = i + 1;
        }
        proof {
            assert(part@.take(n as int) =~= part@);
        }
        Ok((wk, wq, bk, bq))
    }

    /// Reads the full-move counter: a decimal that fits in `usize`.
    pub fn parse_fullmoves(part: &str) -> (r: Result<usize, FenError>)
        ensures
            (number_ok(part@) && digits_val(part@) <= usize::MAX) ==> r == Ok::<usize, FenError>(
                digits_val(part@) as usize,
            ),
            !(number_ok(part@) && digits_val(part@) <= usize::MAX) ==> r is Err,
    {
        match parse_number(part) {
            Ok(v) => {
                proof {
                    lemma_digits_val_nonneg(part@);
                }
                if v <= usize::MAX as u64 {
                    Ok(v as usize)
                } else {
                    Err(FenError)
                }
            },
            Err(e) => Err(e),
        }
    }

    /// Reads the half-move clock: a decimal that fits in `u64`.
    pub fn parse_halfmoves(part: &str) -> (r: Result<u64, FenError>)
        ensures
            number_ok(part@) ==> r == Ok::<u64, FenError>(digits_val(part@) as u64),
            !number_ok(part@) ==> r is Err,
    {
        parse_number(part)
    }

    /// Builds a board from the six fields of a FEN record. `Ok` exactly when
    /// every field parses; the board is then well formed, with the cached
    /// side unions computed from the placement.
    pub fn from_fen(fen: &[&str]) -> (r: Result<Board, FenError>)
        ensures
            fen@.len() < 6 ==> r is Err,
            fen@.len() >= 6 ==> (r is Ok <==> fen_ok6(fen@[0]@, fen@[1]@, fen@[3]@, fen@[4]@, fen@[5]@)),
            r matches Ok(b) ==> b == fen_board6(
                fen@[0]@,
                fen@[1]@,
                fen@[2]@,
                fen@[3]@,
                fen@[4]@,
                fen@[5]@,
            ),
            r matches Ok(b) ==> {
                &&& fen@.len() >= 6
                &&& b.wf()
                &&& b.bb_pieces == parse_pos_rec(fen@[0]@, 0, 0, 0, empty_boards()).unwrap()
                &&& b.turn == (if fen@[1]@ == seq!['w'] {
                    Sides::WHITE
                } else {
                    Sides::BLACK
                })
                &&& b.white_can_oo == has_char(fen@[2]@, 'K')
                &&& b.white_can_ooo == has_char(fen@[2]@, 'Q')
                &&& b.black_can_oo == has_char(fen@[2]@, 'k')
                &&& b.black_can_ooo == has_char(fen@[2]@, 'q')
                &&& b.en_passant_square == (if fen@[3]@ == seq!['-'] {
                    None::<u8>
                } else {
                    alg_value(fen@[3]@)
                })
                &&& b.half_moves == digits_val(fen@[4]@)
                &&& b.full_moves == digits_val(fen@[5]@)
            },
    {
        if fen.len() < 6 {
            return Err(FenError);
        }
        let pos = match Self::parse_position(fen[0]) {
            Ok(p) => p,
            Err(e) => {
                return Err(e);
            },
        };
        let side_to_play = match Self::parse_side_to_play(fen[1]) {
            Ok(s) => s,
            Err(e) => {
                return Err(e);
            },
        };
        let castle_rights = match Self::parse_castling(fen[2]) {
            Ok(c) => c,
            Err(e) => {
                return Err(e);
            },
        };
        let en_passant = match Self::parse_en_passant(fen[3]) {
            Ok(ep) => ep,
            Err(e) => {
                return Err(e);
            },
        };
        let halfmoves = match Self::parse_halfmoves(fen[4]) {
            Ok(h) => h,
            Err(e) => {
                return Err(e);
            },
        };
        let fullmoves = match Self::parse_fullmoves(fen[5]) {
            Ok(f) => f,
            Err(e) => {
                return Err(e);
            },
        };
        let mut board = Board {
            bb_pieces: pos,
            bb_sides: [BitBoard(0), BitBoard(0)],
            turn: side_to_play,
            white_can_oo: castle_rights.0,
            white_can_ooo: castle_rights.1,
            black_can_oo: castle_rights.2,
            black_can_ooo: castle_rights.3,
            en_passant_square: en_passant,
            half_moves: halfmoves,
            full_moves: fullmoves,
        };
        let sides = board.get_sides();
        board.bb_sides = sides;
        proof {
            if number_ok(fen@[4]@) {
                lemma_digits_val_nonneg(fen@[4]@);
            }
            if number_ok(fen@[5]@) {
                lemma_digits_val_nonneg(fen@[5]@);
            }
            assert forall|s1: int, k1: int, s2: int, k2: int|
                0 <= s1 < 2 && 0 <= k1 < 6 && 0 <= s2 < 2 && 0 <= k2 < 6 && (s1 != s2 || k1 != k2)
                    implies #[trigger] board.piece(s1, k1) & #[trigger] board.piece(s2, k2)
                == 0 by {
                assert(board.piece(s1, k1) == pos[s1][k1].0);
                assert(board.piece(s2, k2) == pos[s2][k2].0);
            }
            assert(board.wf());
            let fb = fen_board6(fen@[0]@, fen@[1]@, fen@[2]@, fen@[3]@, fen@[4]@, fen@[5]@);
            assert(board.bb_sides[0] == fb.bb_sides[0]);
            assert(board.bb_sides[1] == fb.bb_sides[1]);
            assert(board.bb_sides@ =~= fb.bb_sides@);
            assert(board.bb_sides == fb.bb_sides);
            assert(board == fb);
        }
        Ok(board)
    }
}

} // verus!
