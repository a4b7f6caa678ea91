//! Parsing the command text: newline-separated lines, each of the form
//! `<direction> <magnitude>` with a single space separator.

use vstd::prelude::*;
use vstd::string::StrSliceExecFns;
use crate::command::{Command, CommandError, Direction};

verus! {

/// Index of the first occurrence of `c` in `s`, or `-1` if `c` is absent.
pub open spec fn find_char(s: Seq<char>, c: char) -> int
    decreases s.len(),
{
    if s.len() == 0 {
        -1
    } else if s[0] == c {
        0
    } else if find_char(s.skip(1), c) == -1 {
        -1
    } else {
        find_char(s.skip(1), c) + 1
    }
}

/// If `c` is absent from `s`, `find_char` reports `-1`.
pub proof fn lemma_find_char_none(s: Seq<char>, c: char)
    requires
        forall|j: int| 0 <= j < s.len() ==> s[j] != c,
    ensures
        find_char(s, c) == -1,
    decreases s.len(),
{
    if s.len() > 0 {
        lemma_find_char_none(s.skip(1), c);
    }
}

/// If `k` is the first index holding `c`, `find_char` reports `k`.
pub proof fn lemma_find_char_at(s: Seq<char>, c: char, k: int)
    requires
        0 <= k < s.len(),
        s[k] == c,
        forall|j: int| 0 <= j < k ==> s[j] != c,
    ensures
        find_char(s, c) == k,
    decreases s.len(),
{
    if k > 0 {
        lemma_find_char_at(s.skip(1), c, k - 1);
    }
}

pub open spec fn is_digit(c: char) -> bool {
    48 <= c as u32 <= 57
}

pub open spec fn digit_value(c: char) -> int {
    c as u32 - 48
}

pub open spec fn all_digits(s: Seq<char>) -> bool {
    forall|j: int| 0 <= j < s.len() ==> is_digit(#[trigger] s[j])
}

/// The non-negative integer written by a digit string, most significant first.
pub open spec fn digits_value(s: Seq<char>) -> int
    decreases s.len(),
{
    if s.len() == 0 {
        0
    } else {
        digits_value(s.drop_last()) * 10 + digit_value(s.last())
    }
}

pub proof fn lemma_digits_value_nonneg(s: Seq<char>)
    requires
        all_digits(s),
    ensures
        digits_value(s) >= 0,
    decreases s.len(),
{
    if s.len() > 0 {
        assert(all_digits(s.drop_last()));
        lemma_digits_value_nonneg(s.drop_last());
    }
}

/// A digit string is worth at least any of its prefixes.
pub proof fn lemma_digits_value_prefix(s: Seq<char>, k: int)
    requires
        all_digits(s),
        0 <= k <= s.len(),
    ensures
        digits_value(s.take(k)) <= digits_value(s),
    decreases s.len(),
{
    if k == s.len() {
        assert(s.take(k) =~= s);
    } else {
        assert(all_digits(s.drop_last()));
        assert(s.take(k) =~= s.drop_last().take(k));
        lemma_digits_value_prefix(s.drop_last(), k);
        lemma_digits_value_nonneg(s.drop_last());
    }
}

/// The magnitude token as `i32::from_str` reads it: an optional leading
/// `+` or `-`, then one or more decimal digits, the value within `i32`
/// range; `None` when the token has any other shape.
pub open spec fn parse_magnitude(s: Seq<char>) -> Option<i32> {
    let neg = s.len() > 0 && s[0] == '-';
    let ds = if s.len() > 0 && (s[0] == '-' || s[0] == '+') {
        s.skip(1)
    } else {
        s
    };
    if ds.len() == 0 || !all_digits(ds) {
        None
    } else {
        let v = if neg {
            -digits_value(ds)
        } else {
            digits_value(ds)
        };
        if i32::MIN <= v <= i32::MAX {
            Some(v as i32)
        } else {
            None
        }
    }
}

/// The direction named by a word, if it is one of the three recognized.
pub open spec fn direction_of(s: Seq<char>) -> Option<Direction> {
    if s == "forward"@ {
        Some(Direction::Forward)
    } else if s == "up"@ {
        Some(Direction::Up)
    } else if s == "down"@ {
        Some(Direction::Down)
    } else {
        None
    }
}

/// One line, split at its first space into direction and magnitude.
/// A missing separator is reported first, then a bad magnitude, then an
/// unknown direction, as the line is examined left to right.
pub open spec fn parse_line(line: Seq<char>) -> Result<Command, CommandError> {
    let i = find_char(line, ' ');
    if !(0 <= i < line.len()) {
        Err(CommandError::MissingSeparator)
    } else {
        match parse_magnitude(line.skip(i + 1)) {
            None => Err(CommandError::InvalidMagnitude),
            Some(v) => match direction_of(line.take(i)) {
                None => Err(CommandError::UnknownDirection),
                Some(d) => Ok(Command { dir: d, val: v }),
            },
        }
    }
}

/// Whether the characters `[start, end)` of `cs` spell exactly `lit`.
fn seg_eq(cs: &Vec<char>, start: usize, end: usize, lit: &str) -> (b: bool)
    requires
        start <= end <= cs@.len(),
    ensures
        b == (cs@.subrange(start as int, end as int) == lit@),
{
    let n: usize = lit.unicode_len();
    if end - start != n {
        proof {
            assert(cs@.subrange(start as int, end as int).len() != lit@.len());
        }
        return false;
    }
    let mut j: usize = 0;
    while j < n
        invariant
            j <= n,
            n == lit@.len(),
            start + n == end,
            end <= cs@.len(),
            forall|p: int| 0 <= p < j ==> cs@.subrange(start as int, end as int)[p] == lit@[p],
        decreases n - j,
    {
        let a = cs[start + j];
        let b = lit.get_char(j);
        if a != b {
            proof {
                assert(cs@.subrange(start as int, end as int)[j as int] != lit@[j as int]);
            }
            return false;
        }
        j += 1;
    }
    proof {
        assert(cs@.subrange(start as int, end as int) =~= lit@);
    }
    true
}

/// Reads the magnitude token in `[start, end)` of `cs`.
fn scan_magnitude(cs: &Vec<char>, start: usize, end: usize) -> (r: Option<i32>)
    requires
        start <= end <= cs@.len(),
    ensures
        r == parse_magnitude(cs@.subrange(start as int, end as int)),
{
    let ghost s = cs@.subrange(start as int, end as int);
    let mut neg = false;
    let mut dstart: usize = start;
    if start < end && (cs[start] == '-' || cs[start] == '+') {
        neg = cs[start] == '-';
        dstart = start + 1;
    }
    let ghost ds = cs@.subrange(dstart as int, end as int);
    proof {
        if s.len() > 0 && (s[0] == '-' || s[0] == '+') {
            assert(ds =~= s.skip(1));
        } else {
            assert(ds =~= s);
        }
    }
    if dstart == end {
        return None;
    }
    let mut acc: u64 = 0;
    let mut j: usize = dstart;
    while j < end
        invariant
            start <= dstart <= j <= end <= cs@.len(),
            s == cs@.subrange(start as int, end as int),
            ds == cs@.subrange(dstart as int, end as int),
            neg == (s.len() > 0 && s[0] == '-'),
            ds == (if s.len() > 0 && (s[0] == '-' || s[0] == '+') {
                s.skip(1)
            } else {
                s
            }),
            ds.len() > 0,
            all_digits(ds.take(j - dstart)),
            acc == digits_value(ds.take(j - dstart)),
            acc <= 0x8000_0000u64,
        decreases end - j,
    {
        let ghost m = j - dstart;
        let c = cs[j];
        let u: u32 = c as u32;
        proof {
            assert(ds[m] == c);
        }
        if u < 48 || u > 57 {
            proof {
                assert(!is_digit(ds[m]));
                assert(!all_digits(ds));
            }
            return None;
        }
        let d: u64 = (u - 48) as u64;
        let acc2: u64 = acc * 10 + d;
        proof {
            assert(ds.take(m + 1).drop_last() =~= ds.take(m));
            assert(ds.take(m + 1).last() == ds[m]);
            assert(digits_value(ds.take(m + 1)) == acc * 10 + digit_value(ds[m]));
            assert(all_digits(ds.take(m + 1)));
        }
        if acc2 > 0x8000_0000u64 {
            proof {
                if all_digits(ds) {
                    lemma_digits_value_prefix(ds, m + 1);
                    assert(digits_value(ds) > 0x8000_0000);
                }
            }
            return None;
        }
        acc = acc2;
        j += 1;
    }
    proof {
        assert(ds.take(end - dstart) =~= ds);
        assert(all_digits(ds));
        assert(acc == digits_value(ds));
    }
    if neg {
        let v: i64 = -(acc as i64);
        proof {
            assert(i32::MIN <= -digits_value(ds) <= i32::MAX);
            assert(v as i32 as int == -digits_value(ds));
        }
        return Some(v as i32);
    }
    if acc > 0x7FFF_FFFFu64 {
        proof {
            assert(digits_value(ds) > i32::MAX);
        }
        return None;
    }
    proof {
        assert(acc as i32 as int == digits_value(ds));
    }
    Some(acc as i32)
}

/// Reads the command on the line held in `[start, end)` of `cs`.
fn scan_line(cs: &Vec<char>, start: usize, end: usize) -> (r: Result<Command, CommandError>)
    requires
        start <= end <= cs@.len(),
    ensures
        r == parse_line(cs@.subrange(start as int, end as int)),
{
    let ghost line = cs@.subrange(start as int, end as int);
    let mut j: usize = start;
    while j < end && cs[j] != ' '
        invariant
            start <= j <= end <= cs@.len(),
            forall|p: int| start <= p < j ==> cs@[p] != ' ',
        decreases end - j,
    {
        j += 1;
    }
    if j == end {
        proof {
            lemma_find_char_none(line, ' ');
        }
        return Err(CommandError::MissingSeparator);
    }
    let ghost i = j - start;
    proof {
        lemma_find_char_at(line, ' ', i);
        assert(cs@.subrange(j + 1, end as int) =~= line.skip(i + 1));
    }
    let v = match scan_magnitude(cs, j + 1, end) {
        None => {
            return Err(CommandError::InvalidMagnitude);
        },
        Some(v) => v,
    };
    proof {
        assert(cs@.subrange(start as int, j as int) =~= line.take(i));
    }
    if seg_eq(cs, start, j, "forward") {
        Ok(Command { dir: Direction::Forward, val: v })
    } else if seg_eq(cs, start, j, "up") {
        Ok(Command { dir: Direction::Up, val: v })
    } else if seg_eq(cs, start, j, "down") {
        Ok(Command { dir: Direction::Down, val: v })
    } else {
        Err(CommandError::UnknownDirection)
    }
}

/// The whole text as a command sequence: lines are separated by `'\n'`,
/// a final newline terminates the last line rather than opening an empty
/// one, and the empty text holds no commands. The result is the first
/// line's error, if any, else the sequence of parsed commands.
pub open spec fn parse_text(s: Seq<char>) -> Result<Seq<Command>, CommandError>
    decreases s.len(),
{
    if s.len() == 0 {
        Ok(Seq::empty())
    } else {
        let i = find_char(s, '\n');
        if 0 <= i < s.len() {
            match parse_line(s.take(i)) {
                Err(e) => Err(e),
                Ok(c) => match parse_text(s.skip(i + 1)) {
                    Err(e) => Err(e),
                    Ok(rest) => Ok(seq![c] + rest),
                },
            }
        } else {
            match parse_line(s) {
                Err(e) => Err(e),
                Ok(c) => Ok(seq![c]),
            }
        }
    }
}

/// Parses the whole command text, yielding the commands in order, or the
/// error of the first bad line, exactly as [`parse_text`] reads it.
pub fn parse_commands(movements: &str) -> (r: Result<Vec<Command>, CommandError>)
    ensures
        (match parse_text(movements@) {
            Ok(cmds) => r matches Ok(v) && v@ == cmds,
            Err(e) => r == Err::<Vec<Command>, CommandError>(e),
        }),
{
    let n: usize = movements.unicode_len();
    let mut cs: Vec<char> = Vec::new();
    let mut i: usize = 0;
    while i < n
        invariant
            i <= n,
            n == movements@.len(),
            cs@ == movements@.take(i as int),
        decreases n - i,
    {
        cs.push(movements.get_char(i));
        proof {
            assert(cs@ =~= movements@.take(i + 1));
        }
        i += 1;
    }
    proof {
        assert(cs@ =~= movements@);
    }

    let mut out: Vec<Command> = Vec::new();
    let mut pos: usize = 0;
    while pos < n
        invariant
            pos <= n,
            n == cs@.len(),
            cs@ == movements@,
            (match parse_text(cs@.skip(pos as int)) {
                Ok(rest) => parse_text(cs@) == Ok::<Seq<Command>, CommandError>(out@ + rest),
                Err(e) => parse_text(cs@) == Err::<Seq<Command>, CommandError>(e),
            }),
        decreases n - pos,
    {
        let ghost rest = cs@.skip(pos as int);
        let mut j: usize = pos;
        while j < n && cs[j] != '\n'
            invariant
                pos <= j <= n,
                n == cs@.len(),
                forall|p: int| pos <= p < j ==> cs@[p] != '\n',
            decreases n - j,
        {
            j += 1;
        }
        proof {
            if j == n {
                lemma_find_char_none(rest, '\n');
                assert(cs@.subrange(pos as int, j as int) =~= rest);
            } else {
                lemma_find_char_at(rest, '\n', j - pos);
                assert(cs@.subrange(pos as int, j as int) =~= rest.take(j - pos));
            }
        }
        match scan_line(&cs, pos, j) {
            Err(e) => {
                proof {
                    assert(parse_text(rest) == Err::<Seq<Command>, CommandError>(e));
                }
                return Err(e);
            },
            Ok(c) => {
                let ghost out0 = out@;
                out.push(c);
                if j < n {
                    proof {
                        assert(rest.skip(j - pos + 1) =~= cs@.skip(j + 1));
                        match parse_text(cs@.skip(j + 1)) {
                            Ok(rr) => {
                                assert(parse_text(rest) == Ok::<Seq<Command>, CommandError>(
                                    seq![c] + rr,
                                ));
                                assert(out0 + (seq![c] + rr) =~= out@ + rr);
                            },
                            Err(_) => {},
                        }
                    }
                    pos = j + 1;
                } else {
                    proof {
                        assert(parse_text(rest) == Ok::<Seq<Command>, CommandError>(seq![c]));
                        assert(cs@.skip(n as int) =~= Seq::<char>::empty());
                        assert(parse_text(cs@.skip(n as int)) == Ok::<Seq<Command>, CommandError>(
                            Seq::empty(),
                        ));
                        assert(out0 + seq![c] =~= out@ + Seq::empty());
                    }
                    pos = n;
                }
            },
        }
    }
    proof {
        assert(cs@.skip(pos as int) =~= Seq::<char>::empty());
        assert(parse_text(cs@.skip(pos as int)) == Ok::<Seq<Command>, CommandError>(Seq::empty()));
        assert(out@ + Seq::<Command>::empty() =~= out@);
    }
    Ok(out)
}

} // verus!
