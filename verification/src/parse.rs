//! The text form of a board: nine lines of nine whitespace-separated
//! tokens. Reading is lenient: a token that is not a number, or a number
//! above nine, stands for an empty cell, and so does a token that is
//! missing; what follows the ninth token of a line or the ninth line is
//! not read.

use vstd::prelude::*;
use crate::grid::{grid, on_grid, value_at, Board};
use crate::solution::in_range;

verus! {

/// White space: the characters with the Unicode property `White_Space`.
pub open spec fn is_space(c: char) -> bool {
    let n = c as int;
    ||| 0x09 <= n <= 0x0D
    ||| n == 0x20
    ||| n == 0x85
    ||| n == 0xA0
    ||| n == 0x1680
    ||| 0x2000 <= n <= 0x200A
    ||| n == 0x2028
    ||| n == 0x2029
    ||| n == 0x202F
    ||| n == 0x205F
    ||| n == 0x3000
}

/// A decimal digit.
pub open spec fn is_digit(c: char) -> bool {
    '0' <= c <= '9'
}

/// The number that a sequence of decimal digits writes.
pub open spec fn number(d: Seq<char>) -> int
    decreases d.len(),
{
    if d.len() == 0 {
        0
    } else {
        number(d.drop_last()) * 10 + (d.last() as int - '0' as int)
    }
}

/// Every character is a decimal digit.
pub open spec fn all_digits(d: Seq<char>) -> bool {
    forall|i: int| 0 <= i < d.len() ==> is_digit(#[trigger] d[i])
}

/// The token without the `+` that may stand in front of it.
pub open spec fn unsigned_part(t: Seq<char>) -> Seq<char> {
    if t.len() > 0 && t[0] == '+' {
        t.drop_first()
    } else {
        t
    }
}

/// The value of a token: the number it writes, if it is made of decimal
/// digits, with or without a `+` in front, and the number is at most
/// nine; zero for any other token, and for the empty one.
pub open spec fn token_value(t: Seq<char>) -> int {
    let d = unsigned_part(t);
    if d.len() > 0 && all_digits(d) && number(d) <= 9 {
        number(d)
    } else {
        0
    }
}

/// Where the line that holds position `i` ends: at the next line feed at
/// or after `i`, or at the end of the text.
pub open spec fn line_end(s: Seq<char>, i: int) -> int
    decreases s.len() - i,
{
    if i < 0 || i >= s.len() || s[i] == '\n' {
        i
    } else {
        line_end(s, i + 1)
    }
}

/// Where line `r` starts: the first line at the start of the text, each
/// later one behind the line feed that ends the line before it. Past the
/// last line feed every further line is empty.
pub open spec fn line_start(s: Seq<char>, r: nat) -> int
    decreases r,
{
    if r == 0 {
        0
    } else {
        let e = line_end(s, line_start(s, (r - 1) as nat));
        if e < s.len() {
            e + 1
        } else {
            e
        }
    }
}

/// The first position at or after `i`, before `end`, that holds no white
/// space; `end` if there is none.
pub open spec fn skip_spaces(s: Seq<char>, i: int, end: int) -> int
    decreases end - i,
{
    if i < 0 || i >= end || i >= s.len() || !is_space(s[i]) {
        i
    } else {
        skip_spaces(s, i + 1, end)
    }
}

/// The first position at or after `i`, before `end`, that holds white
/// space; `end` if there is none.
pub open spec fn word_end(s: Seq<char>, i: int, end: int) -> int
    decreases end - i,
{
    if i < 0 || i >= end || i >= s.len() || is_space(s[i]) {
        i
    } else {
        word_end(s, i + 1, end)
    }
}

/// Where token `c` of line `r` starts.
pub open spec fn token_start(s: Seq<char>, r: nat, c: nat) -> int
    decreases c,
{
    let end = line_end(s, line_start(s, r));
    if c == 0 {
        skip_spaces(s, line_start(s, r), end)
    } else {
        skip_spaces(s, word_end(s, token_start(s, r, (c - 1) as nat), end), end)
    }
}

/// Token `c` of line `r`; empty if the line has no such token.
pub open spec fn token(s: Seq<char>, r: nat, c: nat) -> Seq<char> {
    let end = line_end(s, line_start(s, r));
    let from = token_start(s, r, c);
    s.subrange(from, word_end(s, from, end))
}

/// The grid that a text stands for: the cell at row `r`, column `c` holds
/// the value of token `c` of line `r`.
pub open spec fn parsed(s: Seq<char>) -> Seq<Seq<int>> {
    Seq::new(9, |r: int| Seq::new(9, |c: int| token_value(token(s, r as nat, c as nat))))
}

proof fn lemma_number_bounds(d: Seq<char>)
    requires
        all_digits(d),
    ensures
        number(d) >= 0,
    decreases d.len(),
{
    if d.len() > 0 {
        assert(is_digit(d[d.len() - 1]));
        lemma_number_bounds(d.drop_last());
    }
}

/// The characters of a text, in order.
fn characters(text: &str) -> (chars: Vec<char>)
    ensures
        chars@ == text@,
{
    let mut chars: Vec<char> = Vec::new();
    for c in it: text.chars()
        invariant
            chars@ == it.seq().take(it.index() as int),
            it.seq() == text@,
    {
        chars.push(c);
    }
    chars
}

/// Whether `c` is white space.
fn is_blank(c: char) -> (blank: bool)
    ensures
        blank == is_space(c),
{
    let n: u32 = c as u32;
    (0x09 <= n && n <= 0x0D) || n == 0x20 || n == 0x85 || n == 0xA0 || n == 0x1680 || (0x2000 <= n
        && n <= 0x200A) || n == 0x2028 || n == 0x2029 || n == 0x202F || n == 0x205F || n == 0x3000
}

fn find_line_end(chars: &[char], start: usize) -> (end: usize)
    requires
        start <= chars.len(),
    ensures
        end == line_end(chars@, start as int),
        start <= end <= chars.len(),
{
    let mut i: usize = start;
    while i < chars.len()
        invariant
            start <= i <= chars.len(),
            line_end(chars@, start as int) == line_end(chars@, i as int),
        decreases chars.len() - i,
    {
        if chars[i] == '\n' {
            return i;
        }
        i += 1;
    }
    i
}

fn find_word_start(chars: &[char], start: usize, end: usize) -> (at: usize)
    requires
        start <= end <= chars.len(),
    ensures
        at == skip_spaces(chars@, start as int, end as int),
        start <= at <= end,
{
    let mut i: usize = start;
    while i < end
        invariant
            start <= i <= end <= chars.len(),
            skip_spaces(chars@, start as int, end as int) == skip_spaces(
                chars@,
                i as int,
                end as int,
            ),
        decreases end - i,
    {
        if !is_blank(chars[i]) {
            return i;
        }
        i += 1;
    }
    i
}

fn find_word_end(chars: &[char], start: usize, end: usize) -> (at: usize)
    requires
        start <= end <= chars.len(),
    ensures
        at == word_end(chars@, start as int, end as int),
        start <= at <= end,
{
    let mut i: usize = start;
    while i < end
        invariant
            start <= i <= end <= chars.len(),
            word_end(chars@, start as int, end as int) == word_end(chars@, i as int, end as int),
        decreases end - i,
    {
        if is_blank(chars[i]) {
            return i;
        }
        i += 1;
    }
    i
}

/// The value of the token that spans `from..to`.
fn read_token(chars: &[char], from: usize, to: usize) -> (value: usize)
    requires
        from <= to <= chars.len(),
    ensures
        value == token_value(chars@.subrange(from as int, to as int)),
        value <= 9,
{
    let ghost t = chars@.subrange(from as int, to as int);
    let mut i: usize = from;
    if i < to && chars[i] == '+' {
        i += 1;
    }
    let first: usize = i;
    let ghost d = chars@.subrange(first as int, to as int);
    proof {
        if first > from {
            assert(t[0] == '+');
            assert(d =~= t.drop_first());
        } else {
            if t.len() > 0 {
                assert(t[0] == chars@[from as int]);
            }
            assert(d =~= t);
        }
    }
    if i == to {
        return 0;
    }
    let mut acc: usize = 0;
    while i < to
        invariant
            from <= first <= i <= to <= chars.len(),
            t == chars@.subrange(from as int, to as int),
            d == chars@.subrange(first as int, to as int),
            d == unsigned_part(t),
            all_digits(d.take(i - first)),
            acc <= 10,
            acc == if number(d.take(i - first)) <= 9 {
                number(d.take(i - first))
            } else {
                10
            },
        decreases to - i,
    {
        let c = chars[i];
        assert(d[i - first] == c);
        if !('0' <= c && c <= '9') {
            assert(!is_digit(d[i - first]));
            return 0;
        }
        assert(all_digits(d.take(i - first + 1))) by {
            let now = d.take(i - first);
            let next = d.take(i - first + 1);
            assert forall|k: int| 0 <= k < next.len() implies is_digit(#[trigger] next[k]) by {
                if k < now.len() {
                    assert(next[k] == now[k]);
                }
            }
        }
        let digit: usize = (c as u32 - '0' as u32) as usize;
        proof {
            let now = d.take(i - first);
            let next = d.take(i - first + 1);
            assert(next.drop_last() =~= now);
            assert(next.last() == c);
            lemma_number_bounds(now);
        }
        if acc < 10 {
            acc = acc * 10 + digit;
            if acc > 9 {
                acc = 10;
            }
        }
        i += 1;
    }
    proof {
        assert(d.take(to - first) =~= d);
    }
    if acc <= 9 {
        acc
    } else {
        0
    }
}

/// Reads a board from the characters of its text form.
fn parse_chars(chars: &[char]) -> (board: Board)
    ensures
        grid(board) == parsed(chars@),
{
    let ghost s = chars@;
    let mut board: Board = [[0; 9]; 9];
    let mut start: usize = 0;
    let mut row: usize = 0;
    while row < 9
        invariant
            row <= 9,
            s == chars@,
            start <= chars.len(),
            start == line_start(s, row as nat),
            forall|r: int, c: int|
                0 <= r < row && 0 <= c < 9 ==> #[trigger] value_at(grid(board), r, c)
                    == token_value(token(s, r as nat, c as nat)),
        decreases 9 - row,
    {
        let end: usize = find_line_end(chars, start);
        let mut at: usize = start;
        let mut col: usize = 0;
        while col < 9
            invariant
                row < 9,
                col <= 9,
                s == chars@,
                start <= at <= end <= chars.len(),
                start == line_start(s, row as nat),
                end == line_end(s, start as int),
                at == if col == 0 {
                    start as int
                } else {
                    word_end(s, token_start(s, row as nat, (col - 1) as nat), end as int)
                },
                forall|r: int, c: int|
                    0 <= r < row && 0 <= c < 9 ==> #[trigger] value_at(grid(board), r, c)
                        == token_value(token(s, r as nat, c as nat)),
                forall|c: int|
                    0 <= c < col ==> #[trigger] value_at(grid(board), row as int, c) == token_value(
                        token(s, row as nat, c as nat),
                    ),
            decreases 9 - col,
        {
            let from: usize = find_word_start(chars, at, end);
            let to: usize = find_word_end(chars, from, end);
            let value: usize = read_token(chars, from, to);
            let ghost before = grid(board);
            board[row][col] = value;
            proof {
                assert(from == token_start(s, row as nat, col as nat));
                assert(s.subrange(from as int, to as int) == token(s, row as nat, col as nat));
                assert forall|r: int, c: int|
                    on_grid(r, c) && !(r == row && c == col) implies #[trigger] value_at(
                    grid(board),
                    r,
                    c,
                ) == value_at(before, r, c) by {}
            }
            at = to;
            col += 1;
        }
        start = if end < chars.len() {
            end + 1
        } else {
            end
        };
        row += 1;
    }
    proof {
        let g = grid(board);
        let p = parsed(s);
        assert forall|r: int| 0 <= r < 9 implies #[trigger] g[r] == p[r] by {
            assert forall|c: int| 0 <= c < 9 implies g[r][c] == p[r][c] by {
                assert(value_at(g, r, c) == token_value(token(s, r as nat, c as nat)));
            }
            assert(g[r] =~= p[r]);
        }
        assert(g =~= p);
    }
    board
}

/// Reads a board from its text form. The cell at row `r`, column `c`
/// holds the value of token `c` of line `r`: the number that the token
/// writes if that is one of `0..=9`, and `0`, the empty cell, for any
/// other token and for a token that is not there.
pub fn parse_board(text: &str) -> (board: Board)
    ensures
        grid(board) == parsed(text@),
        in_range(grid(board)),
{
    let chars = characters(text);
    let board = parse_chars(chars.as_slice());
    proof {
        let g = grid(board);
        assert forall|r: int, c: int| on_grid(r, c) implies 0 <= #[trigger] value_at(g, r, c)
            <= 9 by {
            let t = token(text@, r as nat, c as nat);
            assert(value_at(g, r, c) == token_value(t));
            if all_digits(unsigned_part(t)) {
                lemma_number_bounds(unsigned_part(t));
            }
        }
    }
    board
}

} // verus!
