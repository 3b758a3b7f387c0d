use vstd::prelude::*;

use crate::board::Config;
use crate::error::{AppError, GameError};

verus! {

pub open spec fn is_space(c: char) -> bool {
    c == ' ' || c == '\t' || c == '\n' || c == '\r'
}

/// `s` without its leading blanks.
pub open spec fn trim_start(s: Seq<char>) -> Seq<char>
    decreases s.len(),
{
    if s.len() > 0 && is_space(s[0]) {
        trim_start(s.drop_first())
    } else {
        s
    }
}

/// `s` without its trailing blanks.
pub open spec fn trim_end(s: Seq<char>) -> Seq<char>
    decreases s.len(),
{
    if s.len() > 0 && is_space(s.last()) {
        trim_end(s.drop_last())
    } else {
        s
    }
}

pub open spec fn trim(s: Seq<char>) -> Seq<char> {
    trim_end(trim_start(s))
}

pub open spec fn flush(cur: Seq<char>) -> Seq<Seq<char>> {
    if cur.len() > 0 {
        seq![cur]
    } else {
        seq![]
    }
}

/// The blank-separated words of `cur + s`.
pub open spec fn split_words(s: Seq<char>, cur: Seq<char>) -> Seq<Seq<char>>
    decreases s.len(),
{
    if s.len() == 0 {
        flush(cur)
    } else if is_space(s[0]) {
        flush(cur) + split_words(s.drop_first(), seq![])
    } else {
        split_words(s.drop_first(), cur.push(s[0]))
    }
}

/// The blank-separated words of `s`.
pub open spec fn words(s: Seq<char>) -> Seq<Seq<char>> {
    split_words(s, seq![])
}

pub open spec fn is_digit(c: char) -> bool {
    '0' <= c && c <= '9'
}

pub open spec fn all_digits(w: Seq<char>) -> bool {
    forall|i: int| 0 <= i < w.len() ==> is_digit(#[trigger] w[i])
}

/// The number that a string of decimal digits writes.
pub open spec fn decimal_value(w: Seq<char>) -> nat
    decreases w.len(),
{
    if w.len() == 0 {
        0
    } else {
        decimal_value(w.drop_last()) * 10 + ((w.last() as u32 - '0' as u32) as nat)
    }
}

/// A word that reads as a `usize`: decimal digits, at least one, whose value fits.
pub open spec fn parse_usize(w: Seq<char>) -> Option<usize> {
    if w.len() > 0 && all_digits(w) && decimal_value(w) <= usize::MAX {
        Some(decimal_value(w) as usize)
    } else {
        None
    }
}

proof fn lemma_decimal_value_grows(w: Seq<char>, i: int)
    requires
        0 <= i <= w.len(),
        all_digits(w),
    ensures
        decimal_value(w.take(i)) <= decimal_value(w),
    decreases w.len() - i,
{
    if i < w.len() {
        lemma_decimal_value_grows(w, i + 1);
        assert(w.take(i + 1).drop_last() =~= w.take(i));
    } else {
        assert(w.take(i) =~= w);
    }
}

/// Reads a word as a `usize`.
pub fn parse_number(w: &Vec<char>) -> (r: Option<usize>)
    ensures
        r == parse_usize(w@),
{
    let n = w.len();
    if n == 0 {
        return None;
    }
    let mut acc: usize = 0;
    let mut i: usize = 0;
    while i < n
        invariant
            n == w@.len(),
            i <= n,
            all_digits(w@.take(i as int)),
            acc == decimal_value(w@.take(i as int)),
        decreases n - i,
    {
        let c = w[i];
        proof {
            assert(w@.take(i + 1).drop_last() =~= w@.take(i as int));
        }
        if !('0' <= c && c <= '9') {
            proof {
                assert(!is_digit(w@[i as int]));
            }
            return None;
        }
        let d = (c as u32 - '0' as u32) as usize;
        if acc > (usize::MAX - d) / 10 {
            proof {
                assert(acc * 10 + d > usize::MAX) by (nonlinear_arith)
                    requires
                        acc > (usize::MAX - d) / 10,
                        d <= 9,
                ;
                if all_digits(w@) {
                    lemma_decimal_value_grows(w@, i + 1);
                }
            }
            return None;
        }
        proof {
            assert(acc * 10 + d <= usize::MAX) by (nonlinear_arith)
                requires
                    acc <= (usize::MAX - d) / 10,
                    d <= 9,
            ;
        }
        acc = acc * 10 + d;
        i = i + 1;
    }
    proof {
        assert(w@.take(n as int) =~= w@);
    }
    Some(acc)
}

pub open spec fn views(v: Seq<Vec<char>>) -> Seq<Seq<char>> {
    v.map_values(|w: Vec<char>| w@)
}

/// Splits `s` into its blank-separated words.
pub fn split_whitespace(s: &Vec<char>) -> (r: Vec<Vec<char>>)
    ensures
        views(r@) == words(s@),
{
    let n = s.len();
    let mut out: Vec<Vec<char>> = Vec::new();
    let mut cur: Vec<char> = Vec::new();
    let mut i: usize = 0;
    proof {
        assert(s@.skip(0) =~= s@);
        assert(views(out@) + split_words(s@.skip(0), cur@) =~= words(s@));
    }
    while i < n
        invariant
            n == s@.len(),
            i <= n,
            views(out@) + split_words(s@.skip(i as int), cur@) == words(s@),
        decreases n - i,
    {
        let c = s[i];
        let ghost rest = s@.skip(i as int);
        proof {
            assert(rest[0] == c);
            assert(rest.drop_first() =~= s@.skip(i + 1));
        }
        if c == ' ' || c == '\t' || c == '\n' || c == '\r' {
            let ghost before = views(out@);
            let ghost cv = cur@;
            let ghost tail = split_words(s@.skip(i + 1), seq![]);
            proof {
                assert(split_words(rest, cv) == flush(cv) + tail);
            }
            if cur.len() > 0 {
                out.push(cur);
                cur = Vec::new();
                proof {
                    assert(views(out@) =~= before + flush(cv));
                }
            } else {
                proof {
                    assert(flush(cv) =~= Seq::<Seq<char>>::empty());
                }
            }
            proof {
                assert(cur@ =~= Seq::<char>::empty());
                assert(before + (flush(cv) + tail) =~= (before + flush(cv)) + tail);
            }
        } else {
            let ghost cv = cur@;
            cur.push(c);
            proof {
                assert(split_words(rest, cv) == split_words(s@.skip(i + 1), cur@));
            }
        }
        i = i + 1;
    }
    let ghost before = views(out@);
    let ghost cv = cur@;
    proof {
        assert(s@.skip(n as int) =~= Seq::<char>::empty());
    }
    if cur.len() > 0 {
        out.push(cur);
        proof {
            assert(views(out@) =~= before + flush(cv));
        }
    } else {
        proof {
            assert(before + flush(cv) =~= before);
        }
    }
    out
}

/// `s` without its leading and trailing blanks.
pub fn trim_chars(s: &Vec<char>) -> (r: Vec<char>)
    ensures
        r@ == trim(s@),
{
    let n = s.len();
    let mut i: usize = 0;
    proof {
        assert(s@.skip(0) =~= s@);
    }
    while i < n && (s[i] == ' ' || s[i] == '\t' || s[i] == '\n' || s[i] == '\r')
        invariant
            n == s@.len(),
            i <= n,
            trim_start(s@) == trim_start(s@.skip(i as int)),
        decreases n - i,
    {
        proof {
            assert(s@.skip(i as int).drop_first() =~= s@.skip(i + 1));
        }
        i = i + 1;
    }
    let ghost t = s@.skip(i as int);
    proof {
        assert(trim_start(t) == t);
        assert(t.take(n - i) =~= t);
    }
    let mut j: usize = n;
    while j > i && (s[j - 1] == ' ' || s[j - 1] == '\t' || s[j - 1] == '\n' || s[j - 1] == '\r')
        invariant
            n == s@.len(),
            i <= j <= n,
            t == s@.skip(i as int),
            trim_end(t) == trim_end(t.take(j - i)),
        decreases j,
    {
        proof {
            assert(t.take(j - i).drop_last() =~= t.take(j - 1 - i));
        }
        j = j - 1;
    }
    proof {
        assert(trim_end(t.take(j - i)) == t.take(j - i));
    }
    let mut r: Vec<char> = Vec::new();
    let mut k: usize = i;
    while k < j
        invariant
            n == s@.len(),
            i <= k <= j,
            j <= n,
            r@ == s@.subrange(i as int, k as int),
        decreases j - k,
    {
        r.push(s[k]);
        proof {
            assert(r@ =~= s@.subrange(i as int, k + 1));
        }
        k = k + 1;
    }
    proof {
        assert(r@ =~= t.take(j - i));
    }
    r
}

/// A menu command.
#[derive(Clone, Copy, PartialEq, Eq, Debug, Structural)]
pub enum Command {
    /// `q`: leave the game, or the program from the menu.
    Quit,
    /// `e`, `n`, `h`: a preset game.
    Easy,
    Normal,
    Hard,
    /// `c: rows cols mines`: a game of a custom size.
    Custom(Config),
    /// Nothing but blanks was typed.
    Nothing,
}

/// What the menu text `s` asks for; `None` for text that is no command.
pub open spec fn command_of(s: Seq<char>) -> Option<Result<Command, AppError>> {
    let t = trim(s);
    if t == seq!['q'] {
        Some(Ok(Command::Quit))
    } else if t == seq!['e'] {
        Some(Ok(Command::Easy))
    } else if t == seq!['n'] {
        Some(Ok(Command::Normal))
    } else if t == seq!['h'] {
        Some(Ok(Command::Hard))
    } else if t.len() >= 2 && t[0] == 'c' && t[1] == ':' {
        let ws = words(t.skip(2));
        if ws.len() != 3 {
            Some(Err(AppError::InvalidCustom))
        } else if parse_usize(ws[0]) is None || parse_usize(ws[1]) is None || parse_usize(ws[2]) is None {
            Some(Err(AppError::ParseIntErr))
        } else {
            let row = parse_usize(ws[0])->0;
            let col = parse_usize(ws[1])->0;
            let mine = parse_usize(ws[2])->0;
            if row * col < usize::MAX && 0 < mine < row * col {
                Some(Ok(Command::Custom(Config { row, col, mine })))
            } else {
                Some(Err(AppError::InvalidMineCount))
            }
        }
    } else if t.len() == 0 {
        Some(Ok(Command::Nothing))
    } else {
        None
    }
}

fn is_single(t: &Vec<char>, c: char) -> (r: bool)
    ensures
        r == (t@ == seq![c]),
{
    let r = t.len() == 1 && t[0] == c;
    proof {
        if t@.len() == 1 && t@[0] == c {
            assert(t@ =~= seq![c]);
        }
    }
    r
}

/// Reads the menu text `s`.
pub fn parse_command(s: &Vec<char>) -> (r: Result<Command, AppError>)
    ensures
        command_of(s@) matches Some(x) ==> r == x,
        command_of(s@) is None ==> (r matches Err(AppError::UnknownCmd(t)) && t@ == trim(s@)),
{
    let t = trim_chars(s);
    if is_single(&t, 'q') {
        Ok(Command::Quit)
    } else if is_single(&t, 'e') {
        Ok(Command::Easy)
    } else if is_single(&t, 'n') {
        Ok(Command::Normal)
    } else if is_single(&t, 'h') {
        Ok(Command::Hard)
    } else if t.len() >= 2 && t[0] == 'c' && t[1] == ':' {
        let mut rest: Vec<char> = Vec::new();
        let mut k: usize = 2;
        while k < t.len()
            invariant
                2 <= k <= t@.len(),
                rest@ == t@.subrange(2, k as int),
            decreases t@.len() - k,
        {
            rest.push(t[k]);
            proof {
                assert(rest@ =~= t@.subrange(2, k + 1));
            }
            k = k + 1;
        }
        proof {
            assert(rest@ =~= t@.skip(2));
        }
        let ws = split_whitespace(&rest);
        if ws.len() != 3 {
            return Err(AppError::InvalidCustom);
        }
        proof {
            assert(views(ws@)[0] == ws@[0]@);
            assert(views(ws@)[1] == ws@[1]@);
            assert(views(ws@)[2] == ws@[2]@);
        }
        let row = parse_number(&ws[0]);
        let col = parse_number(&ws[1]);
        let mine = parse_number(&ws[2]);
        match (row, col, mine) {
            (Some(row), Some(col), Some(mine)) => match Config::new(row, col, mine) {
                Ok(cfg) => Ok(Command::Custom(cfg)),
                Err(_) => Err(AppError::InvalidMineCount),
            },
            _ => Err(AppError::ParseIntErr),
        }
    } else if t.len() == 0 {
        Ok(Command::Nothing)
    } else {
        Err(AppError::UnknownCmd(t))
    }
}

/// The 0-based cell that the move text `s` names: two numbers, row then
/// column, counted from 1.
pub open spec fn move_of(s: Seq<char>) -> Result<(int, int), GameError> {
    let ws = words(s);
    if ws.len() != 2 {
        Err(GameError::InvalidInput)
    } else if parse_usize(ws[0]) is None || parse_usize(ws[1]) is None {
        Err(GameError::ParseIntErr)
    } else if parse_usize(ws[0])->0 > i32::MAX || parse_usize(ws[1])->0 > i32::MAX {
        Err(GameError::InvalidInput)
    } else {
        Ok((parse_usize(ws[0])->0 - 1, parse_usize(ws[1])->0 - 1))
    }
}

/// Reads the move text `s`.
pub fn parse_move(s: &Vec<char>) -> (r: Result<(i32, i32), GameError>)
    ensures
        r matches Ok((x, y)) ==> move_of(s@) == Ok::<(int, int), GameError>((x as int, y as int)),
        r matches Err(e) ==> move_of(s@) == Err::<(int, int), GameError>(e),
{
    let ws = split_whitespace(s);
    if ws.len() != 2 {
        return Err(GameError::InvalidInput);
    }
    proof {
        assert(views(ws@)[0] == ws@[0]@);
        assert(views(ws@)[1] == ws@[1]@);
    }
    match (parse_number(&ws[0]), parse_number(&ws[1])) {
        (Some(x), Some(y)) => {
            if x > 2147483647 || y > 2147483647 {
                Err(GameError::InvalidInput)
            } else {
                Ok((x as i32 - 1, y as i32 - 1))
            }
        },
        _ => Err(GameError::ParseIntErr),
    }
}

} // verus!
