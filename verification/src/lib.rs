use vstd::prelude::*;

pub mod structs;
pub mod movegen;
pub mod engine;
pub mod threading;
pub mod fen;
pub mod time;
pub mod position;

use crate::structs::{pop64, popn};

verus! {

/// Failure of a square-name conversion: the input is not a square of the
/// board or not a two-character algebraic name.
#[derive(Clone, Copy, Debug, PartialEq, Eq, Structural)]
pub struct NotationError;

pub open spec fn file_char(f: int) -> char {
    if f == 0 {
        'a'
    } else if f == 1 {
        'b'
    } else if f == 2 {
        'c'
    } else if f == 3 {
        'd'
    } else if f == 4 {
        'e'
    } else if f == 5 {
        'f'
    } else if f == 6 {
        'g'
    } else {
        'h'
    }
}

pub open spec fn rank_char(r: int) -> char {
    if r == 0 {
        '1'
    } else if r == 1 {
        '2'
    } else if r == 2 {
        '3'
    } else if r == 3 {
        '4'
    } else if r == 4 {
        '5'
    } else if r == 5 {
        '6'
    } else if r == 6 {
        '7'
    } else {
        '8'
    }
}

/// The algebraic name of square `s`: file letter then rank digit.
pub open spec fn square_name(s: int) -> Seq<char> {
    seq![file_char(s % 8), rank_char(s / 8)]
}

pub open spec fn spec_file_of(c: char) -> Option<u8> {
    if c == 'a' {
        Some(0u8)
    } else if c == 'b' {
        Some(1u8)
    } else if c == 'c' {
        Some(2u8)
    } else if c == 'd' {
        Some(3u8)
    } else if c == 'e' {
        Some(4u8)
    } else if c == 'f' {
        Some(5u8)
    } else if c == 'g' {
        Some(6u8)
    } else if c == 'h' {
        Some(7u8)
    } else {
        None
    }
}

pub open spec fn spec_rank_of(c: char) -> Option<u8> {
    if c == '1' {
        Some(0u8)
    } else if c == '2' {
        Some(1u8)
    } else if c == '3' {
        Some(2u8)
    } else if c == '4' {
        Some(3u8)
    } else if c == '5' {
        Some(4u8)
    } else if c == '6' {
        Some(5u8)
    } else if c == '7' {
        Some(6u8)
    } else if c == '8' {
        Some(7u8)
    } else {
        None
    }
}

/// The square a two-character algebraic name denotes, if the name is well
/// formed.
pub open spec fn alg_value(s: Seq<char>) -> Option<u8> {
    if s.len() == 2 && spec_file_of(s[0]) is Some && spec_rank_of(s[1]) is Some {
        Some((spec_file_of(s[0]).unwrap() + spec_rank_of(s[1]).unwrap() * 8) as u8)
    } else {
        None
    }
}

/// Writes a square index as its algebraic name, `0` to `"a1"` up to `63` to
/// `"h8"`.
pub fn pos_to_alph(pos: u8) -> (r: Result<String, NotationError>)
    ensures
        pos < 64 ==> (r matches Ok(t) && t@ == square_name(pos as int)),
        pos >= 64 ==> r is Err,
{
    if pos > 63 {
        return Err(NotationError);
    }
    let file_str: &str = match pos % 8 {
        0 => "a",
        1 => "b",
        2 => "c",
        3 => "d",
        4 => "e",
        5 => "f",
        6 => "g",
        _ => "h",
    };
    let rank_str: &str = match pos / 8 {
        0 => "1",
        1 => "2",
        2 => "3",
        3 => "4",
        4 => "5",
        5 => "6",
        6 => "7",
        _ => "8",
    };
    proof {
        reveal_strlit("a");
        reveal_strlit("b");
        reveal_strlit("c");
        reveal_strlit("d");
        reveal_strlit("e");
        reveal_strlit("f");
        reveal_strlit("g");
        reveal_strlit("h");
        reveal_strlit("1");
        reveal_strlit("2");
        reveal_strlit("3");
        reveal_strlit("4");
        reveal_strlit("5");
        reveal_strlit("6");
        reveal_strlit("7");
        reveal_strlit("8");
    }
    let mut s = String::from_str(file_str);
    s.append(rank_str);
    proof {
        assert(s@ =~= square_name(pos as int));
    }
    Ok(s)
}

/// Reads a two-character algebraic square name back into its square index.
pub fn alph_to_pos(alph: &str) -> (r: Result<u8, NotationError>)
    ensures
        r == (match alg_value(alph@) {
            Some(p) => Ok::<u8, NotationError>(p),
            None => Err::<u8, NotationError>(NotationError),
        }),
{
    if alph.unicode_len() != 2 {
        return Err(NotationError);
    }
    let c0 = alph.get_char(0);
    let c1 = alph.get_char(1);
    let file: u8 = match c0 {
        'a' => 0,
        'b' => 1,
        'c' => 2,
        'd' => 3,
        'e' => 4,
        'f' => 5,
        'g' => 6,
        'h' => 7,
        _ => {
            return Err(NotationError);
        },
    };
    let rank: u8 = match c1 {
        '1' => 0,
        '2' => 1,
        '3' => 2,
        '4' => 3,
        '5' => 4,
        '6' => 5,
        '7' => 6,
        '8' => 7,
        _ => {
            return Err(NotationError);
        },
    };
    Ok(file + rank * 8)
}

/// Writing a square's algebraic name and reading it back gives the square
/// again.
pub proof fn lemma_square_name_round_trip(s: u8)
    requires
        s < 64,
    ensures
        alg_value(square_name(s as int)) == Some(s),
{
    let f = s as int % 8;
    let r = s as int / 8;
    assert(spec_file_of(file_char(f)) == Some(f as u8));
    assert(spec_rank_of(rank_char(r)) == Some(r as u8));
}

/// Counts the pieces on a bitboard: the number of set bits.
pub fn bitcount(i: u64) -> (r: u32)
    ensures
        r == pop64(i),
{
    let mut c: u32 = 0;
    let mut k: usize = 0;
    while k < 64
        invariant
            k <= 64,
            c == popn(i, k as int),
            c <= k,
        decreases 64 - k,
    {
        if i & (1u64 << (k as u64)) != 0 {
            c = c + 1;
        }
        k = k + 1;
    }
    c
}

} // verus!
