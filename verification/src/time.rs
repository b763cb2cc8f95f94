use vstd::prelude::*;
use vstd::array::spec_array_update;
use crate::fen::{all_digits, digits_val, lemma_digits_val_nonneg, number_ok, parse_number, FenError};

verus! {

/// Compares two string slices character by character.
pub fn str_is(s: &str, t: &str) -> (r: bool)
    ensures
        r <==> s@ == t@,
{
    let n = s.unicode_len();
    let m = t.unicode_len();
    if n != m {
        return false;
    }
    let mut i: usize = 0;
    while i < n
        invariant
            n == s@.len(),
            n == t@.len(),
            i <= n,
            forall|j: int| 0 <= j < i ==> s@[j] == t@[j],
        decreases n - i,
    {
        if s.get_char(i) != t.get_char(i) {
            return false;
        }
        i = i + 1;
    }
    proof {
        assert(s@ =~= t@);
    }
    true
}

/// Whether a token is a decimal number, with an optional leading minus,
/// whose value fits in an `i32`.
pub open spec fn i32_ok(s: Seq<char>) -> bool {
    if s.len() >= 1 && s[0] == '-' {
        s.len() >= 2 && all_digits(s.skip(1)) && digits_val(s.skip(1)) <= 0x8000_0000
    } else {
        s.len() >= 1 && all_digits(s) && digits_val(s) <= i32::MAX
    }
}

/// The value of such a token.
pub open spec fn i32_val(s: Seq<char>) -> int {
    if s.len() >= 1 && s[0] == '-' {
        -digits_val(s.skip(1))
    } else {
        digits_val(s)
    }
}

/// Reads a decimal token with an optional leading minus. `Ok` exactly when
/// the value fits in an `i32`.
pub fn parse_i32(s: &str) -> (r: Result<i32, FenError>)
    ensures
        i32_ok(s@) ==> r == Ok::<i32, FenError>(i32_val(s@) as i32),
        !i32_ok(s@) ==> r is Err,
{
    let n = s.unicode_len();
    if n == 0 {
        return Err(FenError);
    }
    if s.get_char(0) == '-' {
        let rest = s.substring_char(1, n);
        proof {
            assert(rest@ =~= s@.skip(1));
        }
        match parse_number(rest) {
            Ok(v) => {
                proof {
                    if number_ok(rest@) {
                        lemma_digits_val_nonneg(rest@);
                    }
                }
                if v <= 0x8000_0000u64 {
                    Ok((-(v as i64)) as i32)
                } else {
                    Err(FenError)
                }
            },
            Err(e) => Err(e),
        }
    } else {
        match parse_number(s) {
            Ok(v) => {
                proof {
                    if number_ok(s@) {
                        lemma_digits_val_nonneg(s@);
                    }
                }
                if v <= i32::MAX as u64 {
                    Ok(v as i32)
                } else {
                    Err(FenError)
                }
            },
            Err(e) => Err(e),
        }
    }
}

/// Whether a token is a decimal number that fits in a `u32`.
pub open spec fn u32_ok(s: Seq<char>) -> bool {
    s.len() >= 1 && all_digits(s) && digits_val(s) <= u32::MAX
}

/// Reads a decimal token. `Ok` exactly when the value fits in a `u32`.
pub fn parse_u32(s: &str) -> (r: Result<u32, FenError>)
    ensures
        u32_ok(s@) ==> r == Ok::<u32, FenError>(digits_val(s@) as u32),
        !u32_ok(s@) ==> r is Err,
{
    match parse_number(s) {
        Ok(v) => {
            proof {
                if number_ok(s@) {
                    lemma_digits_val_nonneg(s@);
                }
            }
            if v <= u32::MAX as u64 {
                Ok(v as u32)
            } else {
                Err(FenError)
            }
        },
        Err(e) => Err(e),
    }
}

/// Remaining clock time and increment for both sides, and the number of
/// moves to the next time control.
#[derive(Clone, Copy, Debug)]
pub struct TimerKeeper {
    pub time_msec: [i32; 2],
    pub inc_msec: [i32; 2],
    pub mtg: u32,
}

impl PartialEq for TimerKeeper {
    fn eq(&self, other: &TimerKeeper) -> (r: bool) {
        let r = self.time_msec[0] == other.time_msec[0] && self.time_msec[1] == other.time_msec[1]
            && self.inc_msec[0] == other.inc_msec[0] && self.inc_msec[1] == other.inc_msec[1]
            && self.mtg == other.mtg;
        proof {
            if r {
                assert(self.time_msec@ =~= other.time_msec@);
                assert(self.inc_msec@ =~= other.inc_msec@);
                assert(self.time_msec == other.time_msec);
                assert(self.inc_msec == other.inc_msec);
            }
        }
        r
    }
}

impl vstd::std_specs::cmp::PartialEqSpecImpl for TimerKeeper {
    open spec fn obeys_eq_spec() -> bool {
        true
    }

    open spec fn eq_spec(&self, other: &TimerKeeper) -> bool {
        *self == *other
    }
}

impl TimerKeeper {
    pub open spec fn init_spec() -> TimerKeeper {
        TimerKeeper { time_msec: [0i32, 0i32], inc_msec: [0i32, 0i32], mtg: 0u32 }
    }

    /// Whether every group of fields carries some value.
    pub open spec fn spec_blank(self) -> bool {
        (self.time_msec[0] != 0 || self.time_msec[1] != 0) && (self.inc_msec[0] != 0
            || self.inc_msec[1] != 0) && self.mtg != 0
    }

    pub fn new() -> (r: Self)
        ensures
            r == TimerKeeper::init_spec(),
    {
        let r = TimerKeeper { time_msec: [0; 2], inc_msec: [0; 2], mtg: 0 };
        proof {
            assert(r.time_msec@ =~= TimerKeeper::init_spec().time_msec@);
            assert(r.inc_msec@ =~= TimerKeeper::init_spec().inc_msec@);
            assert(r.time_msec == TimerKeeper::init_spec().time_msec);
            assert(r.inc_msec == TimerKeeper::init_spec().inc_msec);
        }
        r
    }

    /// True when all three field groups have been filled in.
    pub fn blank(&self) -> (r: bool)
        ensures
            r == self.spec_blank(),
    {
        (self.time_msec[0] != 0 || self.time_msec[1] != 0) && (self.inc_msec[0] != 0
            || self.inc_msec[1] != 0) && self.mtg != 0
    }
}

/// Everything a `go` command may constrain: the clock, and optional depth,
/// node, mate, and move-time limits.
#[derive(Clone, Copy, Debug)]
pub struct Constraints {
    pub time: Option<TimerKeeper>,
    pub depth: Option<u32>,
    pub nodes: Option<u32>,
    pub mate: Option<u32>,
    pub movetime: Option<u32>,
    pub infinite: bool,
    pub ponder: bool,
}

impl PartialEq for Constraints {
    fn eq(&self, other: &Constraints) -> (r: bool) {
        let teq = match (&self.time, &other.time) {
            (Option::None, Option::None) => true,
            (Option::Some(a), Option::Some(b)) => *a == *b,
            _ => false,
        };
        teq && self.depth == other.depth && self.nodes == other.nodes && self.mate == other.mate
            && self.movetime == other.movetime && self.infinite == other.infinite && self.ponder
            == other.ponder
    }
}

impl vstd::std_specs::cmp::PartialEqSpecImpl for Constraints {
    open spec fn obeys_eq_spec() -> bool {
        true
    }

    open spec fn eq_spec(&self, other: &Constraints) -> bool {
        *self == *other
    }
}

impl Constraints {
    pub open spec fn init_spec() -> Constraints {
        Constraints {
            time: Some(TimerKeeper::init_spec()),
            depth: None,
            nodes: None,
            mate: None,
            movetime: None,
            infinite: false,
            ponder: false,
        }
    }

    pub fn new() -> (r: Self)
        ensures
            r == Constraints::init_spec(),
    {
        Constraints {
            time: Some(TimerKeeper::new()),
            depth: None,
            nodes: None,
            mate: None,
            movetime: None,
            infinite: false,
            ponder: false,
        }
    }
}

/// One step of the `go` token scan: keywords set their flag or read the
/// following value token; anything else is skipped. A keyword with a value
/// consumes the value token too when one follows; a value that does not
/// parse leaves the field untouched, as the scan is best-effort.
pub open spec fn time_step(toks: Seq<Seq<char>>, i: int, c: Constraints, t: TimerKeeper) -> (
    Constraints,
    TimerKeeper,
)
    decreases toks.len() - i + 2,
{
    if i < 0 || i >= toks.len() {
        (c, t)
    } else {
        let w = toks[i];
        if w == "infinite"@ {
            time_step(toks, i + 1, Constraints { infinite: true, ..c }, t)
        } else if w == "ponder"@ {
            time_step(toks, i + 1, Constraints { ponder: true, ..c }, t)
        } else if w == "wtime"@ {
            if i + 1 < toks.len() {
                let t2 = if i32_ok(toks[i + 1]) {
                    TimerKeeper {
                        time_msec: spec_array_update(t.time_msec, 0, i32_val(toks[i + 1]) as i32),
                        ..t
                    }
                } else {
                    t
                };
                time_step(toks, i + 2, c, t2)
            } else {
                time_step(toks, i + 1, c, t)
            }
        } else if w == "btime"@ {
            if i + 1 < toks.len() {
                let t2 = if i32_ok(toks[i + 1]) {
                    TimerKeeper {
                        time_msec: spec_array_update(t.time_msec, 1, i32_val(toks[i + 1]) as i32),
                        ..t
                    }
                } else {
                    t
                };
                time_step(toks, i + 2, c, t2)
            } else {
                time_step(toks, i + 1, c, t)
            }
        } else if w == "winc"@ {
            if i + 1 < toks.len() {
                let t2 = if i32_ok(toks[i + 1]) {
                    TimerKeeper {
                        inc_msec: spec_array_update(t.inc_msec, 0, i32_val(toks[i + 1]) as i32),
                        ..t
                    }
                } else {
                    t
                };
                time_step(toks, i + 2, c, t2)
            } else {
                time_step(toks, i + 1, c, t)
            }
        } else if w == "binc"@ {
            if i + 1 < toks.len() {
                let t2 = if i32_ok(toks[i + 1]) {
                    TimerKeeper {
                        inc_msec: spec_array_update(t.inc_msec, 1, i32_val(toks[i + 1]) as i32),
                        ..t
                    }
                } else {
                    t
                };
                time_step(toks, i + 2, c, t2)
            } else {
                time_step(toks, i + 1, c, t)
            }
        } else if w == "movestogo"@ {
            if i + 1 < toks.len() {
                let t2 = if u32_ok(toks[i + 1]) {
                    TimerKeeper { mtg: (digits_val(toks[i + 1]) as u32), ..t }
                } else {
                    t
                };
                time_step(toks, i + 2, c, t2)
            } else {
                time_step(toks, i + 1, c, t)
            }
        } else if w == "depth"@ {
            if i + 1 < toks.len() {
                let c2 = if u32_ok(toks[i + 1]) {
                    Constraints { depth: Some(digits_val(toks[i + 1]) as u32), ..c }
                } else {
                    c
                };
                time_step(toks, i + 2, c2, t)
            } else {
                time_step(toks, i + 1, c, t)
            }
        } else if w == "nodes"@ {
            if i + 1 < toks.len() {
                let c2 = if u32_ok(toks[i + 1]) {
                    Constraints { nodes: Some(digits_val(toks[i + 1]) as u32), ..c }
                } else {
                    c
                };
                time_step(toks, i + 2, c2, t)
            } else {
                time_step(toks, i + 1, c, t)
            }
        } else if w == "mate"@ {
            if i + 1 < toks.len() {
                let c2 = if u32_ok(toks[i + 1]) {
                    Constraints { mate: Some(digits_val(toks[i + 1]) as u32), ..c }
                } else {
                    c
                };
                time_step(toks, i + 2, c2, t)
            } else {
                time_step(toks, i + 1, c, t)
            }
        } else if w == "movetime"@ {
            // The value is read from the command's fourth token, and one
            // extra token is consumed only when that token exists.
            if 3 < toks.len() {
                let c2 = if u32_ok(toks[3]) {
                    Constraints { movetime: Some(digits_val(toks[3]) as u32), ..c }
                } else {
                    c
                };
                time_step(toks, i + 2, c2, t)
            } else {
                time_step(toks, i + 1, c, t)
            }
        } else {
            time_step(toks, i + 1, c, t)
        }
    }
}

/// What `Time::parse_time` returns: the scan's constraints, with the clock
/// attached once every clock field group was filled.
pub open spec fn parse_time_spec(toks: Seq<Seq<char>>) -> Constraints {
    let r = time_step(toks, 0, Constraints::init_spec(), TimerKeeper::init_spec());
    if !r.1.spec_blank() {
        Constraints { time: Some(r.1), ..r.0 }
    } else {
        r.0
    }
}

pub struct Time;

impl Time {
    /// Scans the tokens of a `go` command into search constraints.
    pub fn parse_time(time_args: &[&str]) -> (r: Constraints)
        ensures
            r == parse_time_spec(time_args.deep_view()),
    {
        let ghost toks = time_args.deep_view();
        let n = time_args.len();
        proof {
            assert(toks.len() == time_args@.len());
        }
        let mut constraints = Constraints::new();
        let mut time = TimerKeeper::new();
        let mut token_id: usize = 0;
        while token_id < n
            invariant
                n == toks.len(),
                token_id <= n + 1,
                toks == time_args.deep_view(),
                time_step(toks, 0, Constraints::init_spec(), TimerKeeper::init_spec())
                    == time_step(toks, token_id as int, constraints, time),
            decreases n + 1 - token_id,
        {
            let t = time_args[token_id];
            proof {
                assert(toks[token_id as int] == t@);
            }
            if str_is(t, "infinite") {
                constraints.infinite = true;
            } else if str_is(t, "ponder") {
                constraints.ponder = true;
            } else if str_is(t, "wtime") {
                if token_id + 1 < n {
                    let w = time_args[token_id + 1];
                    proof {
                        assert(toks[token_id as int + 1] == w@);
                    }
                    match parse_i32(w) {
                        Ok(v) => {
                            time.time_msec[0] = v;
                        },
                        Err(_) => {},
                    }
                    token_id = token_id + 1;
                }
            } else if str_is(t, "btime") {
                if token_id + 1 < n {
                    let w = time_args[token_id + 1];
                    proof {
                        assert(toks[token_id as int + 1] == w@);
                    }
                    match parse_i32(w) {
                        Ok(v) => {
                            time.time_msec[1] = v;
                        },
                        Err(_) => {},
                    }
                    token_id = token_id + 1;
                }
            } else if str_is(t, "winc") {
                if token_id + 1 < n {
                    let w = time_args[token_id + 1];
                    proof {
                        assert(toks[token_id as int + 1] == w@);
                    }
                    match parse_i32(w) {
                        Ok(v) => {
                            time.inc_msec[0] = v;
                        },
                        Err(_) => {},
                    }
                    token_id = token_id + 1;
                }
            } else if str_is(t, "binc") {
                if token_id + 1 < n {
                    let w = time_args[token_id + 1];
                    proof {
                        assert(toks[token_id as int + 1] == w@);
                    }
                    match parse_i32(w) {
                        Ok(v) => {
                            time.inc_msec[1] = v;
                        },
                        Err(_) => {},
                    }
                    token_id = token_id + 1;
                }
            } else if str_is(t, "movestogo") {
                if token_id + 1 < n {
                    let w = time_args[token_id + 1];
                    proof {
                        assert(toks[token_id as int + 1] == w@);
                    }
                    match parse_u32(w) {
                        Ok(v) => {
                            time.mtg = v;
                        },
                        Err(_) => {},
                    }
                    token_id = token_id + 1;
                }
            } else if str_is(t, "depth") {
                if token_id + 1 < n {
                    let w = time_args[token_id + 1];
                    proof {
                        assert(toks[token_id as int + 1] == w@);
                    }
                    match parse_u32(w) {
                        Ok(v) => {
                            constraints.depth = Some(v);
                        },
                        Err(_) => {},
                    }
                    token_id = token_id + 1;
                }
            } else if str_is(t, "nodes") {
                if token_id + 1 < n {
                    let w = time_args[token_id + 1];
                    proof {
                        assert(toks[token_id as int + 1] == w@);
                    }
                    match parse_u32(w) {
                        Ok(v) => {
                            constraints.nodes = Some(v);
                        },
                        Err(_) => {},
                    }
                    token_id = token_id + 1;
                }
            } else if str_is(t, "mate") {
                if token_id + 1 < n {
                    let w = time_args[token_id + 1];
                    proof {
                        assert(toks[token_id as int + 1] == w@);
                    }
                    match parse_u32(w) {
                        Ok(v) => {
                            constraints.mate = Some(v);
                        },
                        Err(_) => {},
                    }
                    token_id = token_id + 1;
                }
            } else if str_is(t, "movetime") {
                if 3 < n {
                    let w = time_args[3];
                    proof {
                        assert(toks[3] == w@);
                    }
                    match parse_u32(w) {
                        Ok(v) => {
                            constraints.movetime = Some(v);
                        },
                        Err(_) => {},
                    }
                    if token_id + 1 < n {
                        token_id = token_id + 1;
                    } else {
                        proof {
                            assert(time_step(toks, token_id as int + 2, constraints, time)
                                == time_step(toks, token_id as int + 1, constraints, time));
                        }
                    }
                }
            }
            token_id = token_id + 1;
        }
        if !time.blank() {
            constraints.time = Some(time);
        }
        constraints
    }
}

} // verus!
