//! Reading and writing patterns in the run-length text encoding.
//!
//! A row is a list of runs: `b` is a dead cell and `o` a live cell, a number
//! before either says how many there are.  Rows end with `$`, the pattern
//! ends with `!`.  Line breaks are no part of a pattern: a pattern is
//! written in lines of 80 characters at the most, wherever the break falls,
//! and its lines are read as one.

use crate::point::Point;
use vstd::prelude::*;

verus! {

/// Why a text is no pattern.
#[derive(Copy, Clone, PartialEq, Eq, Structural, Debug)]
pub enum RleError {
    /// A character that is no digit and none of `b`, `o` and `!` stands in a
    /// row.
    BadToken,
    /// A count or a coordinate is beyond 64 bits.
    TooLarge,
}

/// `String::push` of std appends the given character to the end of the
/// string.
pub assume_specification[ String::push ](s: &mut String, c: char)
    ensures
        final(s)@ == old(s)@.push(c),
;

/// The characters of a text.
pub fn to_chars(s: &str) -> (v: Vec<char>)
    ensures
        v@ == s@,
{
    let mut v: Vec<char> = Vec::new();
    for c in it: s.chars()
        invariant
            v@ == it.seq().take(it.index() as int),
            it.seq() == s@,
    {
        v.push(c);
    }
    v
}

/// The text that is made of the given characters.
pub fn to_text(v: &Vec<char>) -> (s: String)
    ensures
        s@ == v@,
{
    let mut s = String::new();
    let mut i: usize = 0;
    while i < v.len()
        invariant
            i <= v.len(),
            s@ == v@.take(i as int),
        decreases v.len() - i,
    {
        s.push(v[i]);
        proof {
            assert(v@.take(i + 1) =~= v@.take(i as int).push(v@[i as int]));
        }
        i = i + 1;
    }
    proof {
        assert(v@.take(v.len() as int) =~= v@);
    }
    s
}

/// Whether a character is one of the digits `0` to `9`.
pub open spec fn is_digit(c: char) -> bool {
    '0' <= c <= '9'
}

/// The number that a digit stands for.
pub open spec fn digit_value(c: char) -> int {
    (c as u32) - ('0' as u32)
}

/// The coordinates `a`, `a + 1`, ... up to, not including, `b`.
pub open spec fn run(a: int, b: int) -> Seq<i64> {
    Seq::new((b - a) as nat, |k: int| (a + k) as i64)
}

/// A list put before a result that is a list.
pub open spec fn after<T>(acc: Seq<T>, r: Result<Seq<T>, RleError>) -> Result<Seq<T>, RleError> {
    match r {
        Ok(rest) => Ok(acc + rest),
        Err(e) => Err(e),
    }
}

/// The columns of the live cells that the rest of a row names, from the
/// character `i` on, where the next cell stands in column `pos` and the
/// digits read last make the number `prefix`.
pub open spec fn row_from(row: Seq<char>, i: int, pos: int, prefix: int, set: bool) -> Result<
    Seq<i64>,
    RleError,
>
    decreases row.len() - i,
{
    if i < 0 || i >= row.len() {
        Ok(Seq::empty())
    } else {
        let c = row[i];
        if is_digit(c) {
            let np = prefix * 10 + digit_value(c);
            if np > i64::MAX {
                Err(RleError::TooLarge)
            } else {
                row_from(row, i + 1, pos, np, true)
            }
        } else {
            let repeat = if set {
                prefix
            } else {
                1
            };
            if c == 'b' {
                if pos + repeat > i64::MAX {
                    Err(RleError::TooLarge)
                } else {
                    row_from(row, i + 1, pos + repeat, 0, false)
                }
            } else if c == 'o' {
                if pos + repeat > i64::MAX {
                    Err(RleError::TooLarge)
                } else {
                    after(run(pos, pos + repeat), row_from(row, i + 1, pos + repeat, 0, false))
                }
            } else if c == '!' {
                Ok(Seq::empty())
            } else {
                Err(RleError::BadToken)
            }
        }
    }
}

/// The columns of the live cells that a row names.
pub open spec fn row_spec(row: Seq<char>) -> Result<Seq<i64>, RleError> {
    row_from(row, 0, 0, 0, false)
}

fn row_coords(text: &Vec<char>, from: usize, to: usize) -> (r: Result<Vec<i64>, RleError>)
    requires
        from <= to <= text@.len(),
    ensures
        match r {
            Ok(v) => row_spec(text@.subrange(from as int, to as int)) == Ok::<Seq<i64>, RleError>(
                v@,
            ),
            Err(e) => row_spec(text@.subrange(from as int, to as int)) == Err::<
                Seq<i64>,
                RleError,
            >(e),
        },
{
    let ghost row = text@.subrange(from as int, to as int);
    let mut out: Vec<i64> = Vec::new();
    let mut pos: i64 = 0;
    let mut prefixnum: i64 = 0;
    let mut prefixset = false;
    let mut i: usize = from;
    while i < to
        invariant
            from <= i <= to <= text@.len(),
            row == text@.subrange(from as int, to as int),
            0 <= pos,
            0 <= prefixnum,
            row_spec(row) == after(out@, row_from(row, i - from, pos as int, prefixnum as int, prefixset)),
        decreases to - i,
    {
        let c = text[i];
        proof {
            assert(row[i - from] == c);
        }
        if c >= '0' && c <= '9' {
            let d: i64 = ((c as u32) - ('0' as u32)) as i64;
            if prefixnum > (i64::MAX - d) / 10 {
                return Err(RleError::TooLarge);
            }
            prefixnum = prefixnum * 10 + d;
            prefixset = true;
        } else {
            let repeat: i64 = if prefixset {
                prefixnum
            } else {
                1
            };
            if c == 'b' {
                if pos > i64::MAX - repeat {
                    return Err(RleError::TooLarge);
                }
            } else if c == 'o' {
                if pos > i64::MAX - repeat {
                    return Err(RleError::TooLarge);
                }
                let ghost before = out@;
                let mut k: i64 = pos;
                while k < pos + repeat
                    invariant
                        pos <= k <= pos + repeat <= i64::MAX,
                        repeat >= 0,
                        out@ == before + run(pos as int, k as int),
                    decreases pos + repeat - k,
                {
                    out.push(k);
                    proof {
                        assert(run(pos as int, k + 1) =~= run(pos as int, k as int).push(k));
                    }
                    k = k + 1;
                }
                proof {
                    let rest = row_from(row, i - from + 1, pos + repeat, 0, false);
                    match rest {
                        Ok(tail) => {
                            assert(before + (run(pos as int, pos + repeat) + tail) =~= (before
                                + run(pos as int, pos + repeat)) + tail);
                        },
                        Err(_) => {},
                    }
                }
            } else if c == '!' {
                proof {
                    assert(out@ + Seq::<i64>::empty() =~= out@);
                }
                return Ok(out);
            } else {
                return Err(RleError::BadToken);
            }
            pos = pos + repeat;
            prefixset = false;
            prefixnum = 0;
        }
        i = i + 1;
    }
    proof {
        assert(out@ + Seq::<i64>::empty() =~= out@);
    }
    Ok(out)
}

/// The columns of the live cells that a row of a pattern names.  The row
/// holds digits, `b`, `o` and `!` alone, and counts within 64 bits:
/// `row_error` tells.
pub fn iter_coords(boardrow: &str) -> (r: Result<Vec<i64>, RleError>)
    requires
        row_spec(boardrow@) is Ok,
    ensures
        r matches Ok(v) && row_spec(boardrow@) == Ok::<Seq<i64>, RleError>(v@),
{
    let text = to_chars(boardrow);
    proof {
        assert(text@.subrange(0, text@.len() as int) =~= text@);
    }
    row_coords(&text, 0, text.len())
}

/// Why a text is no row of a pattern, if it is none.
pub fn row_error(boardrow: &str) -> (r: Option<RleError>)
    ensures
        r == match row_spec(boardrow@) {
            Ok(_) => None::<RleError>,
            Err(e) => Some(e),
        },
{
    let text = to_chars(boardrow);
    proof {
        assert(text@.subrange(0, text@.len() as int) =~= text@);
    }
    match row_coords(&text, 0, text.len()) {
        Ok(_) => None,
        Err(e) => Some(e),
    }
}

/// The first place from `from` on and before `to` at which `c` stands, or
/// `to` where it stands at none.
pub open spec fn find_char(s: Seq<char>, from: int, to: int, c: char) -> int
    decreases to - from,
{
    if from >= to {
        to
    } else if s[from] == c {
        from
    } else {
        find_char(s, from + 1, to, c)
    }
}

pub proof fn lemma_find_bounds(s: Seq<char>, from: int, to: int, c: char)
    requires
        from <= to,
    ensures
        from <= find_char(s, from, to, c) <= to,
    decreases to - from,
{
    if from < to && s[from] != c {
        lemma_find_bounds(s, from + 1, to, c);
    }
}

fn find(text: &Vec<char>, from: usize, to: usize, c: char) -> (r: usize)
    requires
        from <= to <= text@.len(),
    ensures
        r == find_char(text@, from as int, to as int, c),
        from <= r <= to,
{
    let mut i = from;
    while i < to && text[i] != c
        invariant
            from <= i <= to <= text@.len(),
            find_char(text@, from as int, to as int, c) == find_char(
                text@,
                i as int,
                to as int,
                c,
            ),
        decreases to - i,
    {
        i = i + 1;
    }
    i
}

/// The live cells of a row, which is the row `y` of the pattern.
pub open spec fn row_points(xs: Seq<i64>, y: i64) -> Seq<Point> {
    Seq::new(xs.len(), |k: int| Point { x: xs[k], y })
}

/// The live cells that the rows of a text name, from the character `p` on
/// and before the character `le`, where the next row is the row `y`.  With
/// them comes the number of the row after the last one.
pub open spec fn pieces_from(s: Seq<char>, p: int, le: int, y: int) -> Result<
    (Seq<Point>, int),
    RleError,
>
    decreases le - p + 1,
{
    if p >= le {
        Ok((Seq::empty(), y))
    } else {
        let q = find_char(s, p, le, '$');
        proof {
            lemma_find_bounds(s, p, le, '$');
        }
        match row_spec(s.subrange(p, q)) {
            Err(e) => Err(e),
            Ok(xs) => if y + 1 > i64::MAX {
                Err(RleError::TooLarge)
            } else {
                match pieces_from(s, q + 1, le, y + 1) {
                    Err(e) => Err(e),
                    Ok((rest, y2)) => Ok((row_points(xs, y as i64) + rest, y2)),
                }
            },
        }
    }
}

/// The place at which the rows of a pattern text begin, looked for from the
/// line that begins at `start`: after the lines that begin with `#C`, and
/// after the line that follows them, which names the size and the rule.
pub open spec fn body_start(s: Seq<char>, start: int) -> int
    decreases s.len() - start + 1,
{
    if start < 0 || start >= s.len() {
        s.len() as int
    } else {
        let end = find_char(s, start, s.len() as int, '\n');
        proof {
            lemma_find_bounds(s, start, s.len() as int, '\n');
        }
        if end - start >= 2 && s[start] == '#' && s[start + 1] == 'C' {
            body_start(s, end + 1)
        } else if end < s.len() {
            end + 1
        } else {
            s.len() as int
        }
    }
}

/// Whether a line ends at the character `i`: a line feed stands there, or a
/// carriage return before a line feed.
pub open spec fn line_end_at(s: Seq<char>, i: int) -> bool {
    s[i] == '\n' || (s[i] == '\r' && i + 1 < s.len() && s[i + 1] == '\n')
}

/// The text from the character `i` on as one line: without its line ends.
pub open spec fn joined(s: Seq<char>, i: int) -> Seq<char>
    decreases s.len() - i,
{
    if i < 0 || i >= s.len() {
        Seq::empty()
    } else if line_end_at(s, i) {
        joined(s, i + 1)
    } else {
        seq![s[i]] + joined(s, i + 1)
    }
}

/// The live cells that a pattern text names.  Rows end with `$` and nowhere
/// else: the lines of the text are read as one.
pub open spec fn parse_spec(s: Seq<char>) -> Result<Seq<Point>, RleError> {
    let body = joined(s, body_start(s, 0));
    match pieces_from(body, 0, body.len() as int, 0) {
        Err(e) => Err(e),
        Ok((pts, _)) => Ok(pts),
    }
}

/// Reads the rows of a text and appends their live cells to `points`.
fn parse_line(text: &Vec<char>, start: usize, le: usize, y: i64, points: &mut Vec<Point>) -> (r:
    Result<i64, RleError>)
    requires
        start <= le <= text@.len(),
        0 <= y,
    ensures
        match r {
            Ok(y2) => {
                &&& y <= y2
                &&& exists|pts: Seq<Point>|
                    pieces_from(text@, start as int, le as int, y as int) == Ok::<
                        (Seq<Point>, int),
                        RleError,
                    >((pts, y2 as int)) && final(points)@ == old(points)@ + pts
            },
            Err(e) => pieces_from(text@, start as int, le as int, y as int) == Err::<
                (Seq<Point>, int),
                RleError,
            >(e),
        },
{
    let mut p = start;
    let mut row = y;
    let ghost mut done: Seq<Point> = Seq::empty();
    proof {
        assert(old(points)@ + done =~= old(points)@);
    }
    while p < le
        invariant
            start <= p,
            le <= text@.len(),
            y <= row,
            points@ == old(points)@ + done,
            match pieces_from(text@, p as int, le as int, row as int) {
                Ok((rest, y2)) => pieces_from(text@, start as int, le as int, y as int) == Ok::<
                    (Seq<Point>, int),
                    RleError,
                >((done + rest, y2)),
                Err(e) => pieces_from(text@, start as int, le as int, y as int) == Err::<
                    (Seq<Point>, int),
                    RleError,
                >(e),
            },
        decreases le - p,
    {
        let q = find(text, p, le, '$');
        let xs = match row_coords(text, p, q) {
            Ok(xs) => xs,
            Err(e) => {
                return Err(e);
            },
        };
        if row == i64::MAX {
            return Err(RleError::TooLarge);
        }
        let ghost before = points@;
        let mut k: usize = 0;
        while k < xs.len()
            invariant
                k <= xs.len(),
                points@ == before + row_points(xs@, row).take(k as int),
            decreases xs.len() - k,
        {
            points.push(Point { x: xs[k], y: row });
            proof {
                assert(row_points(xs@, row).take(k + 1) =~= row_points(xs@, row).take(
                    k as int,
                ).push(Point { x: xs@[k as int], y: row }));
            }
            k = k + 1;
        }
        proof {
            assert(row_points(xs@, row).take(xs.len() as int) =~= row_points(xs@, row));
            let rp = row_points(xs@, row);
            match pieces_from(text@, q + 1, le as int, row + 1) {
                Ok((rest, y2)) => {
                    assert((done + rp) + rest =~= done + (rp + rest));
                },
                Err(_) => {},
            }
            done = done + rp;
            assert(points@ =~= old(points)@ + done);
        }
        row = row + 1;
        p = if q < le {
            q + 1
        } else {
            le
        };
    }
    proof {
        assert(done + Seq::<Point>::empty() =~= done);
    }
    Ok(row)
}

/// The live cells that a pattern text names, or why it names none.
fn read_pattern(text: &Vec<char>) -> (r: Result<Vec<Point>, RleError>)
    ensures
        match r {
            Ok(v) => parse_spec(text@) == Ok::<Seq<Point>, RleError>(v@),
            Err(e) => parse_spec(text@) == Err::<Seq<Point>, RleError>(e),
        },
{
    let mut header = true;
    let mut start: usize = 0;
    while header && start < text.len()
        invariant
            start <= text@.len(),
            header ==> body_start(text@, 0) == body_start(text@, start as int),
            !header ==> body_start(text@, 0) == start,
        decreases text.len() - start + (if header { 1int } else { 0int }),
    {
        let end = find(text, start, text.len(), '\n');
        let comment = end - start >= 2 && text[start] == '#' && text[start + 1] == 'C';
        proof {
            assert(body_start(text@, text@.len() as int) == text@.len());
            assert(body_start(text@, (text@.len() + 1) as int) == text@.len());
        }
        header = comment;
        start = if end < text.len() {
            end + 1
        } else {
            text.len()
        };
    }
    let ghost from = start as int;
    let mut body: Vec<char> = Vec::new();
    let mut i: usize = start;
    proof {
        assert(body@ + joined(text@, from) =~= joined(text@, from));
    }
    while i < text.len()
        invariant
            start <= i <= text@.len(),
            from == start,
            body@ + joined(text@, i as int) == joined(text@, from),
        decreases text.len() - i,
    {
        let c = text[i];
        let ends = c == '\n' || (c == '\r' && i + 1 < text.len() && text[i + 1] == '\n');
        if !ends {
            let ghost before = body@;
            body.push(c);
            proof {
                assert(body@ + joined(text@, i + 1) =~= before + (seq![c] + joined(text@, i + 1)));
            }
        }
        i = i + 1;
    }
    proof {
        assert(body@ + Seq::<char>::empty() =~= body@);
    }
    let mut points: Vec<Point> = Vec::new();
    match parse_line(&body, 0, body.len(), 0, &mut points) {
        Ok(_) => {
            proof {
                assert(Seq::<Point>::empty() + points@ =~= points@);
            }
            Ok(points)
        },
        Err(e) => Err(e),
    }
}

/// The live cells that a pattern text names.  Lines that begin with `#C` and
/// the line after them, which names the size and the rule, are passed over.
/// The text is a pattern: its rows hold digits, `b`, `o` and `!` alone, and
/// its counts and rows stay within 64 bits.  `pattern_error` tells.
pub fn parse_fle_file(file_contents: &str) -> (r: Result<Vec<Point>, RleError>)
    requires
        parse_spec(file_contents@) is Ok,
    ensures
        r matches Ok(v) && parse_spec(file_contents@) == Ok::<Seq<Point>, RleError>(v@),
{
    let text = to_chars(file_contents);
    read_pattern(&text)
}

/// Why a text is no pattern, if it is none.
pub fn pattern_error(file_contents: &str) -> (r: Option<RleError>)
    ensures
        r == match parse_spec(file_contents@) {
            Ok(_) => None::<RleError>,
            Err(e) => Some(e),
        },
{
    let text = to_chars(file_contents);
    match read_pattern(&text) {
        Ok(_) => None,
        Err(e) => Some(e),
    }
}

/// The character of a digit.
pub open spec fn digit_char(d: int) -> char {
    (('0' as u32) + d) as char
}

/// A number written with decimal digits.
pub open spec fn decimal(n: nat) -> Seq<char>
    decreases n,
{
    if n < 10 {
        seq![digit_char(n as int)]
    } else {
        decimal(n / 10).push(digit_char((n % 10) as int))
    }
}

/// A list read from its end.
pub open spec fn backwards(s: Seq<char>) -> Seq<char> {
    Seq::new(s.len(), |i: int| s[s.len() - 1 - i])
}

fn digit_of(d: u128) -> (c: char)
    requires
        d < 10,
    ensures
        c == digit_char(d as int),
{
    let b: u8 = 48 + (d as u8);
    b as char
}

/// Appends `n`, written with decimal digits, to `out`.
fn push_decimal(out: &mut Vec<char>, n: u128)
    ensures
        final(out)@ == old(out)@ + decimal(n as nat),
{
    let mut tmp: Vec<char> = Vec::new();
    tmp.push(digit_of(n % 10));
    let mut m = n / 10;
    proof {
        assert(backwards(tmp@) =~= seq![digit_char((n % 10) as int)]);
        if n >= 10 {
            assert(decimal(n as nat) =~= decimal((n / 10) as nat) + backwards(tmp@));
        } else {
            assert(decimal(n as nat) =~= Seq::<char>::empty() + backwards(tmp@));
        }
    }
    while m > 0
        invariant
            tmp@.len() >= 1,
            decimal(n as nat) == (if m > 0 {
                decimal(m as nat)
            } else {
                Seq::<char>::empty()
            }) + backwards(tmp@),
        decreases m,
    {
        let ghost before = tmp@;
        tmp.push(digit_of(m % 10));
        proof {
            let d = digit_char((m % 10) as int);
            assert(backwards(tmp@) =~= seq![d] + backwards(before));
            if m >= 10 {
                assert(decimal(m as nat) + backwards(before) =~= decimal((m / 10) as nat)
                    + backwards(tmp@));
            } else {
                assert(decimal(m as nat) + backwards(before) =~= Seq::<char>::empty() + backwards(
                    tmp@,
                ));
            }
        }
        m = m / 10;
    }
    let mut k: usize = tmp.len();
    while k > 0
        invariant
            k <= tmp@.len(),
            out@ == old(out)@ + backwards(tmp@).take(tmp@.len() - k),
        decreases k,
    {
        k = k - 1;
        out.push(tmp[k]);
        proof {
            assert(backwards(tmp@).take(tmp@.len() - k) =~= backwards(tmp@).take(
                tmp@.len() - k - 1,
            ).push(tmp@[k as int]));
        }
    }
    proof {
        assert(backwards(tmp@).take(tmp@.len() as int) =~= backwards(tmp@));
        assert(decimal(n as nat) =~= backwards(tmp@));
    }
}

/// Two lists that are in order, row by row, put together in order.  Of two
/// equal points the one of the first list comes first.
pub open spec fn merge(a: Seq<Point>, b: Seq<Point>) -> Seq<Point>
    decreases a.len() + b.len(),
{
    if a.len() == 0 {
        b
    } else if b.len() == 0 {
        a
    } else if b[0].spec_precedes(a[0]) {
        seq![b[0]] + merge(a, b.drop_first())
    } else {
        seq![a[0]] + merge(a.drop_first(), b)
    }
}

/// The points in order, row by row: both halves in order, put together.
pub open spec fn sorted_points(s: Seq<Point>) -> Seq<Point>
    decreases s.len(),
{
    if s.len() <= 1 {
        s
    } else {
        let m = (s.len() / 2) as int;
        merge(sorted_points(s.take(m)), sorted_points(s.skip(m)))
    }
}

/// Whether the points are in order, row by row.
pub open spec fn in_order(s: Seq<Point>) -> bool {
    forall|i: int, j: int| 0 <= i < j < s.len() ==> !s[j].spec_precedes(s[i])
}

pub proof fn lemma_merge_in_order(a: Seq<Point>, b: Seq<Point>)
    requires
        in_order(a),
        in_order(b),
    ensures
        in_order(merge(a, b)),
        merge(a, b).len() == a.len() + b.len(),
        forall|p: Point| merge(a, b).contains(p) <==> (a.contains(p) || b.contains(p)),
    decreases a.len() + b.len(),
{
    let m = merge(a, b);
    if a.len() == 0 {
    } else if b.len() == 0 {
    } else if b[0].spec_precedes(a[0]) {
        let rest = merge(a, b.drop_first());
        assert(in_order(b.drop_first())) by {
            assert forall|i: int, j: int| 0 <= i < j < b.drop_first().len() implies !b.drop_first()[j].spec_precedes(
                b.drop_first()[i],
            ) by {
                assert(!b[j + 1].spec_precedes(b[i + 1]));
            }
        }
        lemma_merge_in_order(a, b.drop_first());
        assert forall|p: Point| m.contains(p) <==> (a.contains(p) || b.contains(p)) by {
            if m.contains(p) {
                let i = choose|i: int| 0 <= i < m.len() && m[i] == p;
                if i == 0 {
                    assert(b[0] == p);
                } else {
                    assert(rest[i - 1] == p);
                    assert(rest.contains(p));
                    if b.drop_first().contains(p) {
                        let j = choose|j: int| 0 <= j < b.drop_first().len() && b.drop_first()[j] == p;
                        assert(b[j + 1] == p);
                    }
                }
            }
            if a.contains(p) {
                assert(rest.contains(p));
                let i = choose|i: int| 0 <= i < rest.len() && rest[i] == p;
                assert(m[i + 1] == p);
            }
            if b.contains(p) {
                let j = choose|j: int| 0 <= j < b.len() && b[j] == p;
                if j == 0 {
                    assert(m[0] == p);
                } else {
                    assert(b.drop_first()[j - 1] == p);
                    assert(rest.contains(p));
                    let i = choose|i: int| 0 <= i < rest.len() && rest[i] == p;
                    assert(m[i + 1] == p);
                }
            }
        }
        assert forall|i: int, j: int| 0 <= i < j < m.len() implies !m[j].spec_precedes(m[i]) by {
            if i == 0 {
                let q = m[j];
                assert(rest[j - 1] == q);
                assert(rest.contains(q));
                if a.contains(q) {
                    let k = choose|k: int| 0 <= k < a.len() && a[k] == q;
                    if k > 0 {
                        assert(!a[k].spec_precedes(a[0]));
                    }
                } else {
                    let k = choose|k: int| 0 <= k < b.drop_first().len() && b.drop_first()[k] == q;
                    assert(!b[k + 1].spec_precedes(b[0]));
                }
            } else {
                assert(!rest[j - 1].spec_precedes(rest[i - 1]));
            }
        }
    } else {
        let rest = merge(a.drop_first(), b);
        assert(in_order(a.drop_first())) by {
            assert forall|i: int, j: int| 0 <= i < j < a.drop_first().len() implies !a.drop_first()[j].spec_precedes(
                a.drop_first()[i],
            ) by {
                assert(!a[j + 1].spec_precedes(a[i + 1]));
            }
        }
        lemma_merge_in_order(a.drop_first(), b);
        assert forall|p: Point| m.contains(p) <==> (a.contains(p) || b.contains(p)) by {
            if m.contains(p) {
                let i = choose|i: int| 0 <= i < m.len() && m[i] == p;
                if i == 0 {
                    assert(a[0] == p);
                } else {
                    assert(rest[i - 1] == p);
                    assert(rest.contains(p));
                    if a.drop_first().contains(p) {
                        let j = choose|j: int| 0 <= j < a.drop_first().len() && a.drop_first()[j] == p;
                        assert(a[j + 1] == p);
                    }
                }
            }
            if b.contains(p) {
                assert(rest.contains(p));
                let i = choose|i: int| 0 <= i < rest.len() && rest[i] == p;
                assert(m[i + 1] == p);
            }
            if a.contains(p) {
                let j = choose|j: int| 0 <= j < a.len() && a[j] == p;
                if j == 0 {
                    assert(m[0] == p);
                } else {
                    assert(a.drop_first()[j - 1] == p);
                    assert(rest.contains(p));
                    let i = choose|i: int| 0 <= i < rest.len() && rest[i] == p;
                    assert(m[i + 1] == p);
                }
            }
        }
        assert forall|i: int, j: int| 0 <= i < j < m.len() implies !m[j].spec_precedes(m[i]) by {
            if i == 0 {
                let q = m[j];
                assert(rest[j - 1] == q);
                assert(rest.contains(q));
                if b.contains(q) {
                    let k = choose|k: int| 0 <= k < b.len() && b[k] == q;
                    if k > 0 {
                        assert(!b[k].spec_precedes(b[0]));
                    }
                } else {
                    let k = choose|k: int| 0 <= k < a.drop_first().len() && a.drop_first()[k] == q;
                    assert(!a[k + 1].spec_precedes(a[0]));
                }
            } else {
                assert(!rest[j - 1].spec_precedes(rest[i - 1]));
            }
        }
    }
}

/// The points that `sorted_points` gives are in order, and they are the
/// points that it was given.
pub proof fn lemma_sorted_points(s: Seq<Point>)
    ensures
        in_order(sorted_points(s)),
        sorted_points(s).len() == s.len(),
        forall|p: Point| sorted_points(s).contains(p) <==> s.contains(p),
    decreases s.len(),
{
    if s.len() > 1 {
        let m = (s.len() / 2) as int;
        let a = s.take(m);
        let b = s.skip(m);
        lemma_sorted_points(a);
        lemma_sorted_points(b);
        lemma_merge_in_order(sorted_points(a), sorted_points(b));
        assert forall|p: Point| sorted_points(s).contains(p) <==> s.contains(p) by {
            if s.contains(p) {
                let i = choose|i: int| 0 <= i < s.len() && s[i] == p;
                if i < m {
                    assert(a[i] == p);
                    assert(a.contains(p));
                } else {
                    assert(b[i - m] == p);
                    assert(b.contains(p));
                }
            }
            if a.contains(p) {
                let i = choose|i: int| 0 <= i < a.len() && a[i] == p;
                assert(s[i] == p);
            }
            if b.contains(p) {
                let i = choose|i: int| 0 <= i < b.len() && b[i] == p;
                assert(s[i + m] == p);
            }
        }
    }
}

fn merge_points(a: &Vec<Point>, b: &Vec<Point>) -> (out: Vec<Point>)
    requires
        a@.len() + b@.len() <= usize::MAX,
    ensures
        out@ == merge(a@, b@),
{
    let mut out: Vec<Point> = Vec::new();
    let mut i: usize = 0;
    let mut j: usize = 0;
    proof {
        assert(a@.skip(0) =~= a@);
        assert(b@.skip(0) =~= b@);
        assert(out@ + merge(a@, b@) =~= merge(a@, b@));
    }
    while i < a.len() || j < b.len()
        invariant
            i <= a@.len(),
            j <= b@.len(),
            out@ + merge(a@.skip(i as int), b@.skip(j as int)) == merge(a@, b@),
        decreases a@.len() - i + b@.len() - j,
    {
        let ghost ra = a@.skip(i as int);
        let ghost rb = b@.skip(j as int);
        let take_b = if i >= a.len() {
            true
        } else if j >= b.len() {
            false
        } else {
            b[j].precedes(&a[i])
        };
        if take_b {
            proof {
                assert(rb.drop_first() =~= b@.skip(j + 1));
                assert(rb[0] == b@[j as int]);
                if i >= a.len() {
                    assert(ra.len() == 0);
                    assert(merge(a@.skip(i as int), b@.skip(j + 1)) == b@.skip(j + 1));
                    assert(rb =~= seq![rb[0]] + rb.drop_first());
                }
                assert(out@.push(b@[j as int]) + merge(ra, rb.drop_first()) =~= out@ + (seq![rb[0]]
                    + merge(ra, rb.drop_first())));
            }
            out.push(b[j]);
            j = j + 1;
        } else {
            proof {
                assert(ra.drop_first() =~= a@.skip(i + 1));
                assert(ra[0] == a@[i as int]);
                if j >= b.len() {
                    assert(rb.len() == 0);
                    assert(merge(a@.skip(i + 1), b@.skip(j as int)) == a@.skip(i + 1)) by {
                        if a@.skip(i + 1).len() == 0 {
                            assert(a@.skip(i + 1) =~= b@.skip(j as int));
                        }
                    }
                    assert(ra =~= seq![ra[0]] + ra.drop_first());
                }
                assert(out@.push(a@[i as int]) + merge(ra.drop_first(), rb) =~= out@ + (seq![ra[0]]
                    + merge(ra.drop_first(), rb)));
            }
            out.push(a[i]);
            i = i + 1;
        }
    }
    proof {
        assert(out@ + Seq::<Point>::empty() =~= out@);
    }
    out
}

fn sort_range(v: &Vec<Point>, lo: usize, hi: usize) -> (out: Vec<Point>)
    requires
        lo <= hi <= v@.len(),
    ensures
        out@ == sorted_points(v@.subrange(lo as int, hi as int)),
        out@.len() == hi - lo,
    decreases hi - lo,
{
    let ghost s = v@.subrange(lo as int, hi as int);
    if hi - lo <= 1 {
        let mut out: Vec<Point> = Vec::new();
        if hi - lo == 1 {
            out.push(v[lo]);
        }
        proof {
            assert(out@ =~= s);
        }
        out
    } else {
        let mid = lo + (hi - lo) / 2;
        let a = sort_range(v, lo, mid);
        let b = sort_range(v, mid, hi);
        proof {
            assert(s.take(((hi - lo) / 2) as int) =~= v@.subrange(lo as int, mid as int));
            assert(s.skip(((hi - lo) / 2) as int) =~= v@.subrange(mid as int, hi as int));
            lemma_sorted_points(s);
        }
        merge_points(&a, &b)
    }
}

/// The lowest column of the points, of which there is one at least.
pub open spec fn min_x(s: Seq<Point>) -> int
    decreases s.len(),
{
    if s.len() <= 1 {
        s[0].x as int
    } else {
        let rest = min_x(s.drop_last());
        if s.last().x < rest {
            s.last().x as int
        } else {
            rest
        }
    }
}

/// `n` row ends.
pub open spec fn dollars(n: int) -> Seq<char> {
    Seq::new(n as nat, |i: int| '$')
}

/// The run of dead cells that stands before a live cell `gap` columns on.
pub open spec fn gap_token(gap: int) -> Seq<char> {
    if gap == 1 {
        seq!['b']
    } else if gap > 1 {
        decimal(gap as nat).push('b')
    } else {
        Seq::empty()
    }
}

/// The text for the points from the `i`-th on, which are in order.  The text
/// stands in column `x` of row `y`, and rows begin in column `minx`.
pub open spec fn rle_from(sorted: Seq<Point>, i: int, x: int, y: int, minx: int) -> Seq<char>
    decreases sorted.len() - i,
{
    if i < 0 || i >= sorted.len() {
        seq!['!', '\n']
    } else {
        let p = sorted[i];
        let down = y < p.y;
        let x1 = if down {
            minx
        } else {
            x
        };
        let y1 = if down {
            p.y as int
        } else {
            y
        };
        (if down {
            dollars(p.y - y)
        } else {
            Seq::empty()
        }) + gap_token(p.x - x1) + seq!['o'] + rle_from(sorted, i + 1, p.x + 1, y1, minx)
    }
}

/// The rows of a pattern as text, every live cell written as a single `o`.
/// The first row is the lowest row of the points and the first column their
/// lowest column, in whatever order the points are given.
pub open spec fn rle_contents(points: Seq<Point>) -> Seq<char> {
    if points.len() == 0 {
        seq!['!', '\n']
    } else {
        rle_from(
            sorted_points(points),
            0,
            min_x(points),
            sorted_points(points)[0].y as int,
            min_x(points),
        )
    }
}

/// The first of the points in order is the least of them: none stands in a
/// row before its row.
pub proof fn lemma_first_point(s: Seq<Point>, i: int)
    requires
        0 <= i < s.len(),
    ensures
        !s[i].spec_precedes(sorted_points(s)[0]),
        sorted_points(s)[0].y <= s[i].y,
{
    lemma_sorted_points(s);
    let sorted = sorted_points(s);
    assert(s.contains(s[i]));
    assert(sorted.contains(s[i]));
    let j = choose|j: int| 0 <= j < sorted.len() && sorted[j] == s[i];
    if j > 0 {
        assert(!sorted[j].spec_precedes(sorted[0]));
    }
}

/// Two lists that are in order when put one after the other are put
/// together in order as they are.
proof fn lemma_merge_in_place(a: Seq<Point>, b: Seq<Point>)
    requires
        in_order(a + b),
    ensures
        merge(a, b) == a + b,
    decreases a.len(),
{
    let s = a + b;
    if a.len() == 0 {
        assert(s =~= b);
    } else if b.len() == 0 {
        assert(s =~= a);
    } else {
        assert(s[0] == a[0] && s[a.len() as int] == b[0]);
        assert(!b[0].spec_precedes(a[0]));
        let rest = a.drop_first() + b;
        assert forall|i: int, j: int| 0 <= i < j < rest.len() implies !rest[j].spec_precedes(
            rest[i],
        ) by {
            assert(rest[i] == s[i + 1] && rest[j] == s[j + 1]);
        }
        lemma_merge_in_place(a.drop_first(), b);
        assert(seq![a[0]] + rest =~= s);
    }
}

/// Points that are in order are left as they are.
pub proof fn lemma_sorted_fixed(s: Seq<Point>)
    requires
        in_order(s),
    ensures
        sorted_points(s) == s,
    decreases s.len(),
{
    if s.len() > 1 {
        let m = (s.len() / 2) as int;
        let a = s.take(m);
        let b = s.skip(m);
        assert forall|i: int, j: int| 0 <= i < j < a.len() implies !a[j].spec_precedes(a[i]) by {
            assert(a[i] == s[i] && a[j] == s[j]);
        }
        assert forall|i: int, j: int| 0 <= i < j < b.len() implies !b[j].spec_precedes(b[i]) by {
            assert(b[i] == s[i + m] && b[j] == s[j + m]);
        }
        lemma_sorted_fixed(a);
        lemma_sorted_fixed(b);
        assert(a + b =~= s);
        lemma_merge_in_place(a, b);
    }
}

/// The lowest column of points is the column of one of them, and no point
/// stands in a column before it.
pub proof fn lemma_min_x(s: Seq<Point>)
    requires
        s.len() > 0,
    ensures
        forall|i: int| 0 <= i < s.len() ==> min_x(s) <= (#[trigger] s[i]).x,
        exists|i: int| 0 <= i < s.len() && (#[trigger] s[i]).x == min_x(s),
    decreases s.len(),
{
    if s.len() <= 1 {
        assert(s[0].x == min_x(s));
    } else {
        let front = s.drop_last();
        lemma_min_x(front);
        let w = choose|i: int| 0 <= i < front.len() && (#[trigger] front[i]).x == min_x(front);
        assert(front[w] == s[w]);
        assert forall|i: int| 0 <= i < s.len() implies min_x(s) <= (#[trigger] s[i]).x by {
            if i < front.len() {
                assert(front[i] == s[i]);
            }
        }
        if s.last().x < min_x(front) {
            assert(s[s.len() - 1].x == min_x(s));
        } else {
            assert(s[w].x == min_x(s));
        }
    }
}

/// The order in which the points are given plays no part in the text: it
/// is the text of the points in order, row by row.
pub proof fn lemma_contents_in_order(points: Seq<Point>)
    ensures
        in_order(sorted_points(points)),
        rle_contents(points) == rle_contents(sorted_points(points)),
{
    let sorted = sorted_points(points);
    lemma_sorted_points(points);
    if points.len() > 0 {
        lemma_sorted_fixed(sorted);
        lemma_min_x(points);
        lemma_min_x(sorted);
        let i = choose|i: int| 0 <= i < points.len() && (#[trigger] points[i]).x == min_x(points);
        let j = choose|j: int| 0 <= j < sorted.len() && (#[trigger] sorted[j]).x == min_x(sorted);
        assert(points.contains(points[i]));
        assert(sorted.contains(points[i]));
        let i2 = choose|k: int| 0 <= k < sorted.len() && sorted[k] == points[i];
        assert(min_x(sorted) <= sorted[i2].x);
        assert(sorted.contains(sorted[j]));
        assert(points.contains(sorted[j]));
        let j2 = choose|k: int| 0 <= k < points.len() && points[k] == sorted[j];
        assert(min_x(points) <= points[j2].x);
        assert(min_x(points) == min_x(sorted));
    }
}

fn contents_chars(points: &Vec<Point>) -> (out: Vec<char>)
    ensures
        out@ == rle_contents(points@),
{
    let mut s: Vec<char> = Vec::new();
    if points.len() == 0 {
        s.push('!');
        s.push('\n');
        proof {
            assert(s@ =~= seq!['!', '\n']);
        }
        return s;
    }
    let mut minx: i64 = points[0].x;
    let mut k: usize = 1;
    while k < points.len()
        invariant
            1 <= k <= points@.len(),
            minx == min_x(points@.take(k as int)),
        decreases points.len() - k,
    {
        proof {
            assert(points@.take(k + 1).drop_last() =~= points@.take(k as int));
        }
        if points[k].x < minx {
            minx = points[k].x;
        }
        k = k + 1;
    }
    proof {
        assert(points@.take(points.len() as int) =~= points@);
        assert(points@.subrange(0, points.len() as int) =~= points@);
    }
    let sorted = sort_range(points, 0, points.len());
    let mut y: i64 = sorted[0].y;
    let mut x: i128 = minx as i128;
    let mut i: usize = 0;
    proof {
        assert(s@ + rle_from(sorted@, 0, x as int, y as int, minx as int) =~= rle_contents(
            points@,
        ));
    }
    while i < sorted.len()
        invariant
            i <= sorted@.len(),
            i64::MIN <= x <= i64::MAX + 1,
            s@ + rle_from(sorted@, i as int, x as int, y as int, minx as int) == rle_contents(
                points@,
            ),
        decreases sorted.len() - i,
    {
        let p = sorted[i];
        let ghost before = s@;
        let ghost y0 = y;
        let ghost x0 = x;
        let ghost down = y < p.y;
        while y < p.y
            invariant
                y0 <= y,
                down == (y0 < p.y),
                down ==> y <= p.y,
                !down ==> y == y0 && x == x0,
                down && y > y0 ==> x == minx,
                down && y == y0 ==> x == x0,
                s@ == before + dollars(y - y0),
            decreases p.y - y,
        {
            s.push('$');
            x = minx as i128;
            proof {
                assert(dollars(y + 1 - y0) =~= dollars(y - y0).push('$'));
            }
            y = y + 1;
        }
        let gap: i128 = (p.x as i128) - x;
        let ghost mid = s@;
        if gap == 1 {
            s.push('b');
        } else if gap > 1 {
            push_decimal(&mut s, gap as u128);
            s.push('b');
        }
        s.push('o');
        proof {
            let x1 = if down {
                minx as int
            } else {
                x0 as int
            };
            let y1 = if down {
                p.y as int
            } else {
                y0 as int
            };
            assert(x == x1 && y == y1);
            assert(mid == before + (if down {
                dollars(p.y - y0)
            } else {
                Seq::<char>::empty()
            })) by {
                if !down {
                    assert(dollars(0) =~= Seq::<char>::empty());
                    assert(before + Seq::<char>::empty() =~= before);
                }
            }
            let tail = rle_from(sorted@, i + 1, p.x + 1, y1, minx as int);
            assert(s@ =~= mid + gap_token(gap as int) + seq!['o']);
            assert(s@ + tail =~= before + ((if down {
                dollars(p.y - y0)
            } else {
                Seq::<char>::empty()
            }) + gap_token(p.x - x1) + seq!['o'] + tail));
        }
        x = (p.x as i128) + 1;
        i = i + 1;
    }
    proof {
        assert(rle_from(sorted@, sorted@.len() as int, x as int, y as int, minx as int)
            =~= seq!['!', '\n']);
    }
    s.push('!');
    s.push('\n');
    proof {
        assert(s@ =~= rle_contents(points@));
    }
    s
}

/// The rows of a pattern as text, every live cell written as a single `o`.
pub fn generate_rle_contents(points: &Vec<Point>) -> (s: String)
    ensures
        s@ == rle_contents(points@),
{
    let chars = contents_chars(points);
    to_text(&chars)
}

/// What is written for a run of `count` live cells.
pub open spec fn flush(count: nat) -> Seq<char> {
    if count == 0 {
        Seq::empty()
    } else if count == 1 {
        seq!['o']
    } else {
        decimal(count).push('o')
    }
}

/// The text from the character `i` on with every run of `o` written as its
/// length and one `o`, where `count` of them were read just before.  A run
/// at the very end of the text is left out.
pub open spec fn compress_from(s: Seq<char>, i: int, count: nat) -> Seq<char>
    decreases s.len() - i,
{
    if i < 0 || i >= s.len() {
        Seq::empty()
    } else if s[i] == 'o' {
        compress_from(s, i + 1, count + 1)
    } else {
        flush(count).push(s[i]) + compress_from(s, i + 1, 0)
    }
}

fn compress_chars(text: &Vec<char>) -> (out: Vec<char>)
    ensures
        out@ == compress_from(text@, 0, 0),
{
    let mut s: Vec<char> = Vec::new();
    let mut o_count: usize = 0;
    let mut i: usize = 0;
    proof {
        assert(s@ + compress_from(text@, 0, 0) =~= compress_from(text@, 0, 0));
    }
    while i < text.len()
        invariant
            i <= text@.len(),
            o_count <= i,
            s@ + compress_from(text@, i as int, o_count as nat) == compress_from(text@, 0, 0),
        decreases text.len() - i,
    {
        let c = text[i];
        if c == 'o' {
            o_count = o_count + 1;
        } else {
            let ghost before = s@;
            if o_count == 1 {
                s.push('o');
            } else if o_count > 1 {
                push_decimal(&mut s, o_count as u128);
                s.push('o');
            }
            s.push(c);
            proof {
                assert(s@ =~= before + flush(o_count as nat).push(c));
                assert(s@ + compress_from(text@, i + 1, 0) =~= before + (flush(
                    o_count as nat,
                ).push(c) + compress_from(text@, i + 1, 0)));
            }
            o_count = 0;
        }
        i = i + 1;
    }
    proof {
        assert(s@ + Seq::<char>::empty() =~= s@);
    }
    s
}

/// The text with every run of `o` written as its length and one `o`.
pub fn compress_os(orig_str: &str) -> (s: String)
    ensures
        s@ == compress_from(orig_str@, 0, 0),
{
    let text = to_chars(orig_str);
    let out = compress_chars(&text);
    to_text(&out)
}

/// `x` divided by `y`, rounded up.
pub fn cdiv(x: i64, y: i64) -> (r: i64)
    requires
        0 <= x,
        0 < y,
        x + y - 1 <= i64::MAX,
    ensures
        r == (x + y - 1) / (y as int),
{
    (x - 1 + y) / y
}

/// The text from the character `i` on in lines of `spacing` characters at
/// the most, where `col` characters of the line were written already: a
/// line break is put before the character that finds its line full.
pub open spec fn wrap_from(s: Seq<char>, i: int, col: int, spacing: int) -> Seq<char>
    decreases s.len() - i,
{
    if i < 0 || i >= s.len() {
        Seq::empty()
    } else if s[i] == '\n' {
        seq!['\n'] + wrap_from(s, i + 1, 0, spacing)
    } else if col >= spacing {
        seq!['\n', s[i]] + wrap_from(s, i + 1, 1, spacing)
    } else {
        seq![s[i]] + wrap_from(s, i + 1, col + 1, spacing)
    }
}

/// For every character of `wrap_from`, whether it is a line break that was
/// put in.
pub open spec fn cuts_from(s: Seq<char>, i: int, col: int, spacing: int) -> Seq<bool>
    decreases s.len() - i,
{
    if i < 0 || i >= s.len() {
        Seq::empty()
    } else if s[i] == '\n' {
        seq![false] + cuts_from(s, i + 1, 0, spacing)
    } else if col >= spacing {
        seq![true, false] + cuts_from(s, i + 1, 1, spacing)
    } else {
        seq![false] + cuts_from(s, i + 1, col + 1, spacing)
    }
}

/// The text in lines of `spacing` characters at the most.
pub open spec fn wrap(s: Seq<char>, spacing: int) -> Seq<char> {
    wrap_from(s, 0, 0, spacing)
}

/// The text `t` without the characters that `cut` marks.
pub open spec fn uncut(t: Seq<char>, cut: Seq<bool>) -> Seq<char>
    decreases t.len(),
{
    if t.len() == 0 || cut.len() == 0 {
        Seq::empty()
    } else if cut[0] {
        uncut(t.skip(1), cut.skip(1))
    } else {
        seq![t[0]] + uncut(t.skip(1), cut.skip(1))
    }
}

/// Whether no line of `t` is longer than `spacing`: every stretch without a
/// line break has `spacing` characters at the most.
pub open spec fn lines_fit(t: Seq<char>, spacing: int) -> bool {
    forall|a: int, b: int| 0 <= a <= b <= t.len() && #[trigger] unbroken(t, a, b) ==> b - a <= spacing
}

/// Whether no line break stands from the character `a` on and before the
/// character `b`.
pub open spec fn unbroken(t: Seq<char>, a: int, b: int) -> bool {
    forall|k: int| a <= k < b ==> t[k] != '\n'
}

proof fn lemma_wrap_fits_from(s: Seq<char>, i: int, col: int, spacing: int)
    requires
        0 <= i <= s.len(),
        1 <= spacing,
        0 <= col <= spacing,
    ensures
        lines_fit(wrap_from(s, i, col, spacing), spacing),
        forall|b: int|
            0 <= b <= wrap_from(s, i, col, spacing).len() && #[trigger] unbroken(
                wrap_from(s, i, col, spacing),
                0,
                b,
            ) ==> b <= spacing - col,
    decreases s.len() - i,
{
    let w = wrap_from(s, i, col, spacing);
    if i < s.len() {
        let c = s[i];
        if c == '\n' {
            let rest = wrap_from(s, i + 1, 0, spacing);
            lemma_wrap_fits_from(s, i + 1, 0, spacing);
            assert(w =~= seq!['\n'] + rest);
            assert forall|a: int, b: int| 0 <= a <= b <= w.len() && #[trigger] unbroken(
                w,
                a,
                b,
            ) implies b - a <= spacing && (a == 0 ==> b <= spacing - col) by {
                if a == 0 {
                    if b > 0 {
                        assert(w[0] == '\n');
                    }
                } else {
                    assert(unbroken(rest, a - 1, b - 1)) by {
                        assert forall|k: int| a - 1 <= k < b - 1 implies rest[k] != '\n' by {
                            assert(w[k + 1] == rest[k]);
                        }
                    }
                }
            }
        } else if col >= spacing {
            let rest = wrap_from(s, i + 1, 1, spacing);
            lemma_wrap_fits_from(s, i + 1, 1, spacing);
            assert(w =~= seq!['\n', c] + rest);
            assert forall|a: int, b: int| 0 <= a <= b <= w.len() && #[trigger] unbroken(
                w,
                a,
                b,
            ) implies b - a <= spacing && (a == 0 ==> b <= spacing - col) by {
                if a == 0 {
                    if b > 0 {
                        assert(w[0] == '\n');
                    }
                } else if a == 1 {
                    if b >= 2 {
                        assert(unbroken(rest, 0, b - 2)) by {
                            assert forall|k: int| 0 <= k < b - 2 implies rest[k] != '\n' by {
                                assert(w[k + 2] == rest[k]);
                            }
                        }
                    }
                } else {
                    assert(unbroken(rest, a - 2, b - 2)) by {
                        assert forall|k: int| a - 2 <= k < b - 2 implies rest[k] != '\n' by {
                            assert(w[k + 2] == rest[k]);
                        }
                    }
                }
            }
        } else {
            let rest = wrap_from(s, i + 1, col + 1, spacing);
            lemma_wrap_fits_from(s, i + 1, col + 1, spacing);
            assert(w =~= seq![c] + rest);
            assert forall|a: int, b: int| 0 <= a <= b <= w.len() && #[trigger] unbroken(
                w,
                a,
                b,
            ) implies b - a <= spacing && (a == 0 ==> b <= spacing - col) by {
                if a == 0 {
                    if b >= 1 {
                        assert(unbroken(rest, 0, b - 1)) by {
                            assert forall|k: int| 0 <= k < b - 1 implies rest[k] != '\n' by {
                                assert(w[k + 1] == rest[k]);
                            }
                        }
                    }
                } else {
                    assert(unbroken(rest, a - 1, b - 1)) by {
                        assert forall|k: int| a - 1 <= k < b - 1 implies rest[k] != '\n' by {
                            assert(w[k + 1] == rest[k]);
                        }
                    }
                }
            }
        }
    }
}

/// No line of a text that was cut into lines is longer than `spacing`.
pub proof fn lemma_wrap_fits(s: Seq<char>, spacing: int)
    requires
        1 <= spacing,
    ensures
        lines_fit(wrap(s, spacing), spacing),
{
    lemma_wrap_fits_from(s, 0, 0, spacing);
}

proof fn lemma_wrap_keeps_from(s: Seq<char>, i: int, col: int, spacing: int)
    requires
        0 <= i <= s.len(),
    ensures
        cuts_from(s, i, col, spacing).len() == wrap_from(s, i, col, spacing).len(),
        uncut(wrap_from(s, i, col, spacing), cuts_from(s, i, col, spacing)) == s.skip(i),
    decreases s.len() - i,
{
    let w = wrap_from(s, i, col, spacing);
    let m = cuts_from(s, i, col, spacing);
    if i >= s.len() {
        assert(s.skip(i) =~= Seq::<char>::empty());
    } else {
        let c = s[i];
        assert(s.skip(i) =~= seq![c] + s.skip(i + 1));
        if c == '\n' {
            lemma_wrap_keeps_from(s, i + 1, 0, spacing);
            assert(w.skip(1) =~= wrap_from(s, i + 1, 0, spacing));
            assert(m.skip(1) =~= cuts_from(s, i + 1, 0, spacing));
        } else if col >= spacing {
            lemma_wrap_keeps_from(s, i + 1, 1, spacing);
            let w1 = w.skip(1);
            let m1 = m.skip(1);
            assert(w1.skip(1) =~= wrap_from(s, i + 1, 1, spacing));
            assert(m1.skip(1) =~= cuts_from(s, i + 1, 1, spacing));
            assert(uncut(w1, m1) == seq![c] + uncut(w1.skip(1), m1.skip(1)));
            assert(uncut(w, m) == uncut(w1, m1));
        } else {
            lemma_wrap_keeps_from(s, i + 1, col + 1, spacing);
            assert(w.skip(1) =~= wrap_from(s, i + 1, col + 1, spacing));
            assert(m.skip(1) =~= cuts_from(s, i + 1, col + 1, spacing));
        }
    }
}

/// A text that was cut into lines is the text again when the line breaks
/// that were put in are taken out.
pub proof fn lemma_wrap_keeps(s: Seq<char>, spacing: int)
    ensures
        cuts_from(s, 0, 0, spacing).len() == wrap(s, spacing).len(),
        uncut(wrap(s, spacing), cuts_from(s, 0, 0, spacing)) == s,
{
    lemma_wrap_keeps_from(s, 0, 0, spacing);
    assert(s.skip(0) =~= s);
}

/// The text in lines of `spacing` characters at the most: a line break is
/// put in wherever a line would be longer.
pub fn split_string_to_lines(ins: &str, spacing: i64) -> (outs: String)
    requires
        0 < spacing,
    ensures
        outs@ == wrap(ins@, spacing as int),
        lines_fit(outs@, spacing as int),
        uncut(outs@, cuts_from(ins@, 0, 0, spacing as int)) == ins@,
{
    let text = to_chars(ins);
    let mut out: Vec<char> = Vec::new();
    let mut col: u64 = 0;
    proof {
        lemma_wrap_fits(text@, spacing as int);
        lemma_wrap_keeps(text@, spacing as int);
    }
    let mut i: usize = 0;
    proof {
        assert(out@ + wrap_from(text@, 0, 0, spacing as int) =~= wrap(text@, spacing as int));
    }
    while i < text.len()
        invariant
            i <= text@.len(),
            0 < spacing,
            col <= spacing,
            out@ + wrap_from(text@, i as int, col as int, spacing as int) == wrap(
                text@,
                spacing as int,
            ),
        decreases text.len() - i,
    {
        let c = text[i];
        let ghost before = out@;
        let ghost rest0 = wrap_from(text@, i + 1, 0, spacing as int);
        let ghost rest1 = wrap_from(text@, i + 1, 1, spacing as int);
        let ghost rest2 = wrap_from(text@, i + 1, col + 1, spacing as int);
        if c == '\n' {
            out.push(c);
            proof {
                assert(out@ + rest0 =~= before + (seq!['\n'] + rest0));
            }
            col = 0;
        } else if col >= spacing as u64 {
            out.push('\n');
            out.push(c);
            proof {
                assert(out@ + rest1 =~= before + (seq!['\n', c] + rest1));
            }
            col = 1;
        } else {
            out.push(c);
            proof {
                assert(out@ + rest2 =~= before + (seq![c] + rest2));
            }
            col = col + 1;
        }
        i = i + 1;
    }
    proof {
        assert(out@ + Seq::<char>::empty() =~= out@);
    }
    to_text(&out)
}

/// The first line of every pattern that is written.
pub open spec fn rle_header() -> Seq<char> {
    "x = 0, y = 0, rule = B3/S23\n"@
}

/// The pattern of the given points as text, in lines of 80 characters at
/// the most.
pub fn write_rle(points: &Vec<Point>) -> (s: String)
    ensures
        s@ == wrap(rle_header() + compress_from(rle_contents(points@), 0, 0), 80),
{
    let mut out = to_chars("x = 0, y = 0, rule = B3/S23\n");
    let body = contents_chars(points);
    let packed = compress_chars(&body);
    let mut k: usize = 0;
    let ghost head = out@;
    while k < packed.len()
        invariant
            k <= packed@.len(),
            out@ == head + packed@.take(k as int),
        decreases packed.len() - k,
    {
        out.push(packed[k]);
        proof {
            assert(packed@.take(k + 1) =~= packed@.take(k as int).push(packed@[k as int]));
        }
        k = k + 1;
    }
    proof {
        assert(packed@.take(packed@.len() as int) =~= packed@);
    }
    let whole = to_text(&out);
    split_string_to_lines(whole.as_str(), 80)
}

} // verus!
