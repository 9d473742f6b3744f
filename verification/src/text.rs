//! Matrices as text: one row on each line, the entries of a row as decimal
//! numbers separated by ASCII white space.

use crate::grid::{grid_result, grid_view, ShapeError};
use crate::matrix::{Matrix, MatrixView};
use vstd::prelude::*;

verus! {

/// The line feed that ends a row.
pub const NEWLINE: u8 = 0x0a;

/// The bytes that separate the entries of a row: space, tab, line feed,
/// vertical tab, form feed and carriage return.
pub open spec fn is_space(b: u8) -> bool {
    b == 0x20 || (0x09 <= b && b <= 0x0d)
}

/// The decimal digits.
pub open spec fn is_digit(b: u8) -> bool {
    0x30 <= b && b <= 0x39
}

/// Whether a byte separates entries.
pub fn is_space_byte(b: u8) -> (space: bool)
    ensures
        space == is_space(b),
{
    b == 0x20 || (0x09 <= b && b <= 0x0d)
}

/// Every byte from `start` up to `end` is a decimal digit.
pub open spec fn all_digits(s: Seq<u8>, start: int, end: int) -> bool {
    forall|i: int| start <= i < end ==> is_digit(#[trigger] s[i])
}

/// The number that the digits from `start` up to `end` spell, the most
/// significant digit first.
pub open spec fn digits_value(s: Seq<u8>, start: int, end: int) -> nat
    decreases end - start,
{
    if end <= start {
        0
    } else {
        digits_value(s, start, end - 1) * 10 + (s[end - 1] - 0x30) as nat
    }
}

/// The `i32` that a token spells: an optional sign, then at least one
/// decimal digit and nothing else, with a value in the range of `i32`.
pub open spec fn token_value(token: Seq<u8>) -> Option<i32> {
    let signed = token.len() > 0 && (token[0] == 0x2d || token[0] == 0x2b);
    let first: int = if signed {
        1
    } else {
        0
    };
    let magnitude = digits_value(token, first, token.len() as int);
    let value: int = if token.len() > 0 && token[0] == 0x2d {
        -magnitude
    } else {
        magnitude as int
    };
    if first < token.len() && all_digits(token, first, token.len() as int) && i32::MIN <= value
        <= i32::MAX {
        Some(value as i32)
    } else {
        None
    }
}

/// More digits never spell a smaller number.
proof fn lemma_digits_value_grows(s: Seq<u8>, start: int, mid: int, end: int)
    requires
        start <= mid <= end,
        all_digits(s, start, end),
    ensures
        digits_value(s, start, mid) <= digits_value(s, start, end),
    decreases end - mid,
{
    if mid < end {
        lemma_digits_value_grows(s, start, mid, end - 1);
        assert(is_digit(s[end - 1]));
    }
}

/// The `i32` that the bytes of `text` from `start` up to `end` spell.
pub fn parse_token(text: &[u8], start: usize, end: usize) -> (value: Option<i32>)
    requires
        start <= end <= text@.len(),
    ensures
        value == token_value(text@.subrange(start as int, end as int)),
{
    let ghost token = text@.subrange(start as int, end as int);
    if start == end {
        return None;
    }
    let negative = text[start] == 0x2d;
    let signed = negative || text[start] == 0x2b;
    assert(token[0] == text@[start as int]);
    let first = if signed {
        start + 1
    } else {
        start
    };
    if first == end {
        return None;
    }
    let ghost f = first - start;
    let mut magnitude: i64 = 0;
    let mut pos = first;
    while pos < end
        invariant
            first <= pos <= end,
            end <= text@.len(),
            start <= first,
            f == first - start,
            f == if token[0] == 0x2d || token[0] == 0x2b {
                1int
            } else {
                0int
            },
            start < end,
            token == text@.subrange(start as int, end as int),
            all_digits(token, f, pos - start),
            magnitude == digits_value(token, f, pos - start),
            0 <= magnitude <= 0x8000_0000,
        decreases end - pos,
    {
        let b = text[pos];
        assert(token[pos - start] == b);
        if b < 0x30 || b > 0x39 {
            assert(!is_digit(token[pos - start]));
            return None;
        }
        magnitude = magnitude * 10 + (b - 0x30) as i64;
        pos = pos + 1;
        if magnitude > 0x8000_0000 {
            proof {
                if all_digits(token, f, token.len() as int) {
                    lemma_digits_value_grows(token, f, pos - start, token.len() as int);
                }
            }
            return None;
        }
    }
    assert(pos - start == token.len());
    if negative {
        Some((-magnitude) as i32)
    } else if magnitude == 0x8000_0000 {
        None
    } else {
        Some(magnitude as i32)
    }
}

/// The `i32` that a token spells.
pub fn parse_i32(token: &[u8]) -> (value: Option<i32>)
    ensures
        value == token_value(token@),
{
    assert(token@.subrange(0, token@.len() as int) =~= token@);
    parse_token(token, 0, token.len())
}

/// Where the field that starts at `pos` ends: at the first white space at or
/// after `pos`, or at the end of `s`.
pub open spec fn field_end(s: Seq<u8>, pos: int) -> int
    decreases s.len() - pos,
{
    if 0 <= pos < s.len() && !is_space(s[pos]) {
        field_end(s, pos + 1)
    } else {
        pos
    }
}

/// A field ends inside the sequence, and after its start where it starts on
/// a byte that is no white space.
pub proof fn lemma_field_end(s: Seq<u8>, pos: int)
    requires
        0 <= pos <= s.len(),
    ensures
        pos <= field_end(s, pos) <= s.len(),
        pos < s.len() && !is_space(s[pos]) ==> pos < field_end(s, pos),
        forall|i: int| pos <= i < field_end(s, pos) ==> !is_space(#[trigger] s[i]),
        field_end(s, pos) < s.len() ==> is_space(s[field_end(s, pos)]),
    decreases s.len() - pos,
{
    if pos < s.len() && !is_space(s[pos]) {
        lemma_field_end(s, pos + 1);
    }
}

/// The fields of `s` from `pos` on: the maximal runs of bytes that are no
/// white space, in their order.
pub open spec fn fields_from(s: Seq<u8>, pos: int) -> Seq<Seq<u8>>
    decreases s.len() - pos,
{
    if pos < 0 || pos >= s.len() {
        Seq::empty()
    } else if is_space(s[pos]) {
        fields_from(s, pos + 1)
    } else {
        proof {
            lemma_field_end(s, pos);
        }
        seq![s.subrange(pos, field_end(s, pos))] + fields_from(s, field_end(s, pos))
    }
}

/// The fields of a line.
pub open spec fn fields(line: Seq<u8>) -> Seq<Seq<u8>> {
    fields_from(line, 0)
}

/// Every field of the sequence spells an `i32`.
pub open spec fn all_tokens(f: Seq<Seq<u8>>) -> bool {
    forall|k: int| 0 <= k < f.len() ==> token_value(#[trigger] f[k]) is Some
}

/// The entries that a line spells, where each of its fields spells an `i32`.
pub open spec fn row_values(line: Seq<u8>) -> Option<Seq<i32>> {
    let f = fields(line);
    if all_tokens(f) {
        Some(Seq::new(f.len(), |k: int| token_value(f[k]).unwrap()))
    } else {
        None
    }
}

/// The entries that the bytes of `text` from `start` up to `end` spell as
/// one line.
pub fn parse_row(text: &[u8], start: usize, end: usize) -> (row: Option<Vec<i32>>)
    requires
        start <= end <= text@.len(),
    ensures
        match row {
            Some(values) => row_values(text@.subrange(start as int, end as int)) == Some(values@),
            None => row_values(text@.subrange(start as int, end as int)) is None,
        },
{
    let ghost line = text@.subrange(start as int, end as int);
    let ghost mut seen: Seq<Seq<u8>> = Seq::empty();
    let mut values: Vec<i32> = Vec::new();
    let mut pos = start;
    while pos < end
        invariant
            start <= pos <= end,
            end <= text@.len(),
            line == text@.subrange(start as int, end as int),
            fields(line) == seen + fields_from(line, pos - start),
            values@.len() == seen.len(),
            forall|k: int|
                0 <= k < seen.len() ==> token_value(#[trigger] seen[k]) == Some(values@[k]),
        decreases end - pos,
    {
        let b = text[pos];
        assert(line[pos - start] == b);
        if is_space_byte(b) {
            pos = pos + 1;
        } else {
            let token_start = pos;
            let ghost stop = field_end(line, token_start - start);
            proof {
                lemma_field_end(line, token_start - start);
            }
            pos = pos + 1;
            while pos < end && !is_space_byte(text[pos])
                invariant
                    token_start < pos <= end,
                    start <= token_start,
                    end <= text@.len(),
                    line == text@.subrange(start as int, end as int),
                    stop == field_end(line, token_start - start),
                    pos - start <= stop <= line.len(),
                    stop < line.len() ==> is_space(line[stop]),
                decreases end - pos,
            {
                assert(line[pos - start] == text@[pos as int]);
                pos = pos + 1;
            }
            proof {
                if pos < end {
                    assert(line[pos - start] == text@[pos as int]);
                }
                assert(pos - start == stop);
            }
            let ghost token = line.subrange(token_start - start, stop);
            assert(token =~= text@.subrange(token_start as int, pos as int));
            match parse_token(text, token_start, pos) {
                Some(value) => {
                    proof {
                        assert(seen + (seq![token] + fields_from(line, stop)) =~= seen.push(token)
                            + fields_from(line, stop));
                        seen = seen.push(token);
                    }
                    values.push(value);
                },
                None => {
                    proof {
                        let f = fields(line);
                        assert(f[seen.len() as int] == token);
                        assert(!all_tokens(f));
                    }
                    return None;
                },
            }
        }
    }
    proof {
        let f = fields(line);
        assert(f =~= seen);
        assert(all_tokens(f));
        assert(values@ =~= Seq::new(f.len(), |k: int| token_value(f[k]).unwrap()));
    }
    Some(values)
}

/// Where the line that starts at `pos` ends: at the first line feed at or
/// after `pos`, or at the end of `s`.
pub open spec fn line_end(s: Seq<u8>, pos: int) -> int
    decreases s.len() - pos,
{
    if 0 <= pos < s.len() && s[pos] != NEWLINE {
        line_end(s, pos + 1)
    } else {
        pos
    }
}

/// A line ends inside the sequence, at a line feed or at the end.
pub proof fn lemma_line_end(s: Seq<u8>, pos: int)
    requires
        0 <= pos <= s.len(),
    ensures
        pos <= line_end(s, pos) <= s.len(),
        forall|i: int| pos <= i < line_end(s, pos) ==> #[trigger] s[i] != NEWLINE,
        line_end(s, pos) < s.len() ==> s[line_end(s, pos)] == NEWLINE,
    decreases s.len() - pos,
{
    if pos < s.len() && s[pos] != NEWLINE {
        lemma_line_end(s, pos + 1);
    }
}

/// The lines of `s` from `pos` on, without the line feeds that end them. A
/// line feed at the very end starts no further line.
pub open spec fn lines_from(s: Seq<u8>, pos: int) -> Seq<Seq<u8>>
    decreases s.len() - pos,
{
    if pos < 0 || pos >= s.len() {
        Seq::empty()
    } else {
        proof {
            lemma_line_end(s, pos);
        }
        seq![s.subrange(pos, line_end(s, pos))] + if line_end(s, pos) < s.len() {
            lines_from(s, line_end(s, pos) + 1)
        } else {
            Seq::empty()
        }
    }
}

/// The lines of a text.
pub open spec fn lines(text: Seq<u8>) -> Seq<Seq<u8>> {
    lines_from(text, 0)
}

/// Every line of the sequence spells a row.
pub open spec fn all_rows(l: Seq<Seq<u8>>) -> bool {
    forall|k: int| 0 <= k < l.len() ==> row_values(#[trigger] l[k]) is Some
}

/// The rows that a text spells, where each of its lines spells a row.
pub open spec fn text_grid(text: Seq<u8>) -> Option<Seq<Seq<i32>>> {
    let l = lines(text);
    if all_rows(l) {
        Some(Seq::new(l.len(), |k: int| row_values(l[k]).unwrap()))
    } else {
        None
    }
}

/// Why a text is not a matrix.
#[derive(Debug, Clone, Copy, PartialEq, Eq, Structural)]
pub enum ParseError {
    /// Some field does not spell an `i32`.
    Malformed,
    /// Every field spells an `i32`, but the rows do not make a matrix.
    Shape(ShapeError),
}

/// The matrix that a text spells, or the reason why it spells none.
pub open spec fn text_result(text: Seq<u8>) -> Result<MatrixView, ParseError> {
    match text_grid(text) {
        None => Err(ParseError::Malformed),
        Some(grid) => match grid_result(grid) {
            Ok(m) => Ok(m),
            Err(e) => Err(ParseError::Shape(e)),
        },
    }
}

/// The matrix that a text spells, or the reason why it spells none.
pub fn parse_matrix(text: &[u8]) -> (result: Result<Matrix, ParseError>)
    ensures
        match result {
            Ok(m) => text_result(text@) == Ok::<MatrixView, ParseError>(m@),
            Err(e) => text_result(text@) == Err::<MatrixView, ParseError>(e),
        },
{
    let ghost mut seen: Seq<Seq<u8>> = Seq::empty();
    let mut rows: Vec<Vec<i32>> = Vec::new();
    let len = text.len();
    let mut pos: usize = 0;
    while pos < len
        invariant
            pos <= len,
            len == text@.len(),
            lines(text@) == seen + lines_from(text@, pos as int),
            rows@.len() == seen.len(),
            forall|k: int|
                0 <= k < seen.len() ==> row_values(#[trigger] seen[k]) == Some(rows@[k]@),
        decreases len - pos,
    {
        let line_start = pos;
        let ghost stop = line_end(text@, line_start as int);
        proof {
            lemma_line_end(text@, line_start as int);
        }
        while pos < len && text[pos] != NEWLINE
            invariant
                line_start <= pos <= len,
                len == text@.len(),
                stop == line_end(text@, line_start as int),
                pos <= stop <= len,
                stop < len ==> text@[stop] == NEWLINE,
            decreases len - pos,
        {
            pos = pos + 1;
        }
        assert(pos == stop);
        let ghost line = text@.subrange(line_start as int, stop);
        match parse_row(text, line_start, pos) {
            Some(values) => {
                proof {
                    let rest = if stop < len {
                        lines_from(text@, stop + 1)
                    } else {
                        Seq::empty()
                    };
                    assert(seen + (seq![line] + rest) =~= seen.push(line) + rest);
                    seen = seen.push(line);
                }
                rows.push(values);
            },
            None => {
                proof {
                    let l = lines(text@);
                    assert(l[seen.len() as int] == line);
                    assert(!all_rows(l));
                }
                return Err(ParseError::Malformed);
            },
        }
        if pos < len {
            pos = pos + 1;
        }
    }
    proof {
        let l = lines(text@);
        assert(l =~= seen);
        assert(all_rows(l));
        assert(grid_view(rows@) =~= Seq::new(l.len(), |k: int| row_values(l[k]).unwrap()));
    }
    match Matrix::from_rows(&rows) {
        Ok(m) => Ok(m),
        Err(e) => Err(ParseError::Shape(e)),
    }
}

/// The decimal digits of `n`, the most significant first, without leading
/// zeros.
pub open spec fn digits_text(n: nat) -> Seq<u8>
    decreases n,
{
    if n < 10 {
        seq![(0x30 + n) as u8]
    } else {
        digits_text(n / 10).push((0x30 + n % 10) as u8)
    }
}

/// The decimal spelling of `v`, with a minus sign where `v` is negative.
pub open spec fn number_text(v: int) -> Seq<u8> {
    if v < 0 {
        seq![0x2du8] + digits_text((-v) as nat)
    } else {
        digits_text(v as nat)
    }
}

/// The spelling of the first `k` entries of row `i`. Entries are separated
/// by one space; with `trailing`, a space follows every entry instead.
pub open spec fn entries_text(m: MatrixView, i: int, k: nat, trailing: bool) -> Seq<u8>
    decreases k,
{
    if k == 0 {
        Seq::empty()
    } else {
        let before = entries_text(m, i, (k - 1) as nat, trailing);
        let entry = number_text(m.at(i, k - 1) as int);
        if trailing {
            before + entry + seq![0x20u8]
        } else if k == 1 {
            before + entry
        } else {
            before + seq![0x20u8] + entry
        }
    }
}

/// The spelling of the first `r` rows, each ended by a line feed.
pub open spec fn rows_text(m: MatrixView, r: nat, trailing: bool) -> Seq<u8>
    decreases r,
{
    if r == 0 {
        Seq::empty()
    } else {
        rows_text(m, (r - 1) as nat, trailing) + entries_text(m, r - 1, m.cols, trailing)
            + seq![NEWLINE]
    }
}

/// The spelling of a matrix.
pub open spec fn matrix_text(m: MatrixView, trailing: bool) -> Seq<u8> {
    rows_text(m, m.rows, trailing)
}

/// Appends the decimal digits of `n`.
fn push_digits(out: &mut Vec<u8>, n: u32)
    ensures
        final(out)@ == old(out)@ + digits_text(n as nat),
    decreases n,
{
    if n >= 10 {
        push_digits(out, n / 10);
    }
    out.push(0x30 + (n % 10) as u8);
    proof {
        if n >= 10 {
            assert(final(out)@ =~= old(out)@ + digits_text(n as nat));
        } else {
            assert(final(out)@ =~= old(out)@ + digits_text(n as nat));
        }
    }
}

/// Appends the decimal spelling of `v`.
pub fn push_number(out: &mut Vec<u8>, v: i32)
    ensures
        final(out)@ == old(out)@ + number_text(v as int),
{
    if v < 0 {
        out.push(0x2d);
        let magnitude = -(v as i64);
        push_digits(out, magnitude as u32);
        proof {
            assert(final(out)@ =~= old(out)@ + number_text(v as int));
        }
    } else {
        push_digits(out, v as u32);
    }
}

/// The spelling of a matrix: one line for each row, the entries separated
/// by one space or, with `trailing`, each followed by one.
pub fn format_matrix(m: &Matrix, trailing: bool) -> (text: Vec<u8>)
    ensures
        text@ == matrix_text(m@, trailing),
{
    let rows = m.rows();
    let cols = m.cols();
    let mut out: Vec<u8> = Vec::new();
    for i in 0..rows
        invariant
            rows == m@.rows,
            cols == m@.cols,
            out@ == rows_text(m@, i as nat, trailing),
    {
        let ghost done = out@;
        for j in 0..cols
            invariant
                i < rows,
                rows == m@.rows,
                cols == m@.cols,
                done == rows_text(m@, i as nat, trailing),
                out@ == done + entries_text(m@, i as int, j as nat, trailing),
        {
            let ghost before = entries_text(m@, i as int, j as nat, trailing);
            let ghost entry = number_text(m@.at(i as int, j as int) as int);
            if !trailing && j > 0 {
                out.push(0x20);
            }
            push_number(&mut out, m.get(i, j));
            if trailing {
                out.push(0x20);
            }
            proof {
                if trailing {
                    assert(out@ =~= done + (before + entry + seq![0x20u8]));
                } else if j == 0 {
                    assert(out@ =~= done + (before + entry));
                } else {
                    assert(out@ =~= done + (before + seq![0x20u8] + entry));
                }
            }
        }
        out.push(NEWLINE);
        proof {
            assert(out@ =~= done + entries_text(m@, i as int, cols as nat, trailing) + seq![
                NEWLINE,
            ]);
        }
    }
    out
}

/// The digits in two ranges of the same length that agree byte by byte
/// spell the same number.
proof fn lemma_digits_value_shift(s: Seq<u8>, a: int, t: Seq<u8>, b: int, n: nat)
    requires
        forall|i: int| a <= i < a + n ==> #[trigger] s[i] == t[i - a + b],
    ensures
        digits_value(s, a, a + n) == digits_value(t, b, b + n),
    decreases n,
{
    if n > 0 {
        lemma_digits_value_shift(s, a, t, b, (n - 1) as nat);
        assert(s[a + n - 1] == t[a + n - 1 - a + b]);
    }
}

/// The decimal digits of a number are digits, and they spell the number.
pub proof fn lemma_digits_text(n: nat)
    ensures
        digits_text(n).len() >= 1,
        all_digits(digits_text(n), 0, digits_text(n).len() as int),
        digits_value(digits_text(n), 0, digits_text(n).len() as int) == n,
    decreases n,
{
    let text = digits_text(n);
    if n < 10 {
        assert(digits_value(text, 0, 0) == 0);
        assert(digits_value(text, 0, 1) == digits_value(text, 0, 0) * 10 + (text[0] - 0x30) as nat);
    } else {
        let front = digits_text(n / 10);
        lemma_digits_text(n / 10);
        assert forall|i: int| 0 <= i < text.len() implies is_digit(#[trigger] text[i]) by {
            if i < front.len() {
                assert(text[i] == front[i]);
            }
        }
        lemma_digits_value_shift(text, 0, front, 0, front.len());
    }
}

/// The spelling of an `i32` is a token without white space that spells this
/// `i32`.
pub proof fn lemma_number_text(v: i32)
    ensures
        number_text(v as int).len() >= 1,
        forall|i: int|
            0 <= i < number_text(v as int).len() ==> !is_space(#[trigger] number_text(v as int)[i])
                && number_text(v as int)[i] != NEWLINE,
        token_value(number_text(v as int)) == Some(v),
{
    let text = number_text(v as int);
    if v < 0 {
        let digits = digits_text((-v) as nat);
        lemma_digits_text((-v) as nat);
        assert forall|i: int| 0 <= i < text.len() implies !is_space(#[trigger] text[i]) && text[i]
            != NEWLINE && (i >= 1 ==> is_digit(text[i])) by {
            if i >= 1 {
                assert(text[i] == digits[i - 1]);
            }
        }
        assert(all_digits(text, 1, text.len() as int));
        lemma_digits_value_shift(text, 1, digits, 0, digits.len());
    } else {
        lemma_digits_text(v as nat);
        assert(is_digit(text[0]));
    }
}

/// A field that ends before the end of `s` ends at the same place when bytes
/// are appended to `s`.
proof fn lemma_field_end_prefix(s: Seq<u8>, z: Seq<u8>, pos: int)
    requires
        0 <= pos <= s.len(),
        field_end(s, pos) < s.len(),
    ensures
        field_end(s + z, pos) == field_end(s, pos),
    decreases s.len() - pos,
{
    if pos < s.len() && !is_space(s[pos]) {
        lemma_field_end_prefix(s, z, pos + 1);
    }
}

/// A run of bytes without white space at the end of a sequence is one field
/// up to the end.
proof fn lemma_field_end_run(s: Seq<u8>, pos: int)
    requires
        0 <= pos <= s.len(),
        forall|i: int| pos <= i < s.len() ==> !is_space(#[trigger] s[i]),
    ensures
        field_end(s, pos) == s.len(),
    decreases s.len() - pos,
{
    if pos < s.len() {
        lemma_field_end_run(s, pos + 1);
    }
}

/// White space at the end adds no field.
proof fn lemma_fields_append_space(s: Seq<u8>, pos: int)
    requires
        0 <= pos <= s.len(),
    ensures
        fields_from(s.push(0x20), pos) == fields_from(s, pos),
    decreases s.len() - pos,
{
    let extended = s.push(0x20);
    if pos == s.len() {
        assert(is_space(extended[pos]));
        assert(fields_from(extended, pos + 1) == Seq::<Seq<u8>>::empty());
    } else if is_space(s[pos]) {
        lemma_fields_append_space(s, pos + 1);
    } else {
        let stop = field_end(s, pos);
        lemma_field_end(s, pos);
        if stop < s.len() {
            lemma_field_end_prefix(s, seq![0x20u8], pos);
            assert(extended =~= s + seq![0x20u8]);
        } else {
            lemma_field_end(extended, pos);
            assert(forall|i: int| pos <= i < s.len() ==> extended[i] == s[i]);
            assert(field_end(extended, pos) == s.len()) by {
                if field_end(extended, pos) < s.len() {
                    assert(is_space(extended[field_end(extended, pos)]));
                    assert(!is_space(s[field_end(extended, pos)]));
                }
                if field_end(extended, pos) > s.len() {
                    assert(!is_space(extended[s.len() as int]));
                }
            }
        }
        assert(extended.subrange(pos, stop) =~= s.subrange(pos, stop));
        lemma_fields_append_space(s, stop);
    }
}

/// A token appended after white space, or at the very start, is one more
/// field.
proof fn lemma_fields_append_token(s: Seq<u8>, token: Seq<u8>, pos: int)
    requires
        0 <= pos <= s.len(),
        s.len() == 0 || is_space(s.last()),
        token.len() >= 1,
        forall|i: int| 0 <= i < token.len() ==> !is_space(#[trigger] token[i]),
    ensures
        fields_from(s + token, pos) == fields_from(s, pos).push(token),
    decreases s.len() - pos,
{
    let extended = s + token;
    if pos == s.len() {
        assert(extended[pos] == token[0]);
        assert forall|i: int| pos <= i < extended.len() implies !is_space(
            #[trigger] extended[i],
        ) by {
            assert(extended[i] == token[i - pos]);
        }
        lemma_field_end_run(extended, pos);
        assert(extended.subrange(pos, extended.len() as int) =~= token);
        assert(fields_from(extended, extended.len() as int) == Seq::<Seq<u8>>::empty());
        assert(seq![token] + Seq::<Seq<u8>>::empty() =~= Seq::<Seq<u8>>::empty().push(token));
    } else if is_space(s[pos]) {
        assert(extended[pos] == s[pos]);
        lemma_fields_append_token(s, token, pos + 1);
    } else {
        assert(extended[pos] == s[pos]);
        let stop = field_end(s, pos);
        lemma_field_end(s, pos);
        assert(stop < s.len()) by {
            if stop == s.len() {
                assert(!is_space(s[s.len() - 1]));
            }
        }
        lemma_field_end_prefix(s, token, pos);
        assert(extended.subrange(pos, stop) =~= s.subrange(pos, stop));
        lemma_fields_append_token(s, token, stop);
        assert(seq![s.subrange(pos, stop)] + fields_from(s, stop).push(token) =~= (seq![
            s.subrange(pos, stop),
        ] + fields_from(s, stop)).push(token));
    }
}

/// The spellings of the first `k` entries of row `i`.
pub open spec fn row_tokens(m: MatrixView, i: int, k: nat) -> Seq<Seq<u8>> {
    Seq::new(k, |c: int| number_text(m.at(i, c) as int))
}

/// The spelling of a row is free of line feeds, ends with white space or is
/// empty where a space follows every entry, and its fields are the
/// spellings of its entries.
proof fn lemma_entries_text(m: MatrixView, i: int, k: nat, trailing: bool)
    ensures
        forall|p: int|
            0 <= p < entries_text(m, i, k, trailing).len() ==> #[trigger] entries_text(
                m,
                i,
                k,
                trailing,
            )[p] != NEWLINE,
        trailing ==> entries_text(m, i, k, trailing).len() == 0 || is_space(
            entries_text(m, i, k, trailing).last(),
        ),
        fields(entries_text(m, i, k, trailing)) == row_tokens(m, i, k),
    decreases k,
{
    let text = entries_text(m, i, k, trailing);
    if k == 0 {
        assert(fields(text) =~= row_tokens(m, i, k));
    } else {
        let before = entries_text(m, i, (k - 1) as nat, trailing);
        let entry = number_text(m.at(i, k - 1) as int);
        lemma_entries_text(m, i, (k - 1) as nat, trailing);
        lemma_number_text(m.at(i, k - 1));
        if trailing {
            lemma_fields_append_token(before, entry, 0);
            lemma_fields_append_space(before + entry, 0);
            assert(text =~= (before + entry).push(0x20));
        } else if k == 1 {
            assert(before.len() == 0);
            lemma_fields_append_token(before, entry, 0);
        } else {
            lemma_fields_append_space(before, 0);
            assert(before + seq![0x20u8] =~= before.push(0x20));
            lemma_fields_append_token(before.push(0x20), entry, 0);
        }
        assert(row_tokens(m, i, (k - 1) as nat).push(entry) =~= row_tokens(m, i, k));
    }
}

/// The spelling of a row spells the entries of the row.
proof fn lemma_row_values(m: MatrixView, i: int, trailing: bool)
    ensures
        row_values(entries_text(m, i, m.cols, trailing)) == Some(
            Seq::new(m.cols, |c: int| m.at(i, c)),
        ),
{
    let f = fields(entries_text(m, i, m.cols, trailing));
    lemma_entries_text(m, i, m.cols, trailing);
    assert forall|c: int| 0 <= c < f.len() implies token_value(#[trigger] f[c]) == Some(
        m.at(i, c),
    ) by {
        lemma_number_text(m.at(i, c));
    }
    assert(Seq::new(f.len(), |c: int| token_value(f[c]).unwrap()) =~= Seq::new(
        m.cols,
        |c: int| m.at(i, c),
    ));
}

/// A line that ends before the end of `s` ends at the same place when bytes
/// are appended to `s`.
proof fn lemma_line_end_prefix(s: Seq<u8>, z: Seq<u8>, pos: int)
    requires
        0 <= pos <= s.len(),
        line_end(s, pos) < s.len(),
    ensures
        line_end(s + z, pos) == line_end(s, pos),
    decreases s.len() - pos,
{
    if pos < s.len() && s[pos] != NEWLINE {
        lemma_line_end_prefix(s, z, pos + 1);
    }
}

/// A run of bytes without a line feed, followed by a line feed, is one line.
proof fn lemma_line_end_run(s: Seq<u8>, pos: int, stop: int)
    requires
        0 <= pos <= stop < s.len(),
        forall|i: int| pos <= i < stop ==> #[trigger] s[i] != NEWLINE,
        s[stop] == NEWLINE,
    ensures
        line_end(s, pos) == stop,
    decreases stop - pos,
{
    if pos < stop {
        lemma_line_end_run(s, pos + 1, stop);
    }
}

/// A line and its line feed, appended at the start of a line, are one more
/// line.
proof fn lemma_lines_append(s: Seq<u8>, line: Seq<u8>, pos: int)
    requires
        0 <= pos <= s.len(),
        s.len() == 0 || s.last() == NEWLINE,
        forall|i: int| 0 <= i < line.len() ==> #[trigger] line[i] != NEWLINE,
    ensures
        lines_from(s + line.push(NEWLINE), pos) == lines_from(s, pos).push(line),
    decreases s.len() - pos,
{
    let extended = s + line.push(NEWLINE);
    if pos == s.len() {
        let stop = pos + line.len();
        assert forall|i: int| pos <= i < stop implies #[trigger] extended[i] != NEWLINE by {
            assert(extended[i] == line[i - pos]);
        }
        lemma_line_end_run(extended, pos, stop);
        assert(extended.subrange(pos, stop) =~= line);
        assert(lines_from(extended, stop + 1) == Seq::<Seq<u8>>::empty());
        assert(seq![line] + Seq::<Seq<u8>>::empty() =~= Seq::<Seq<u8>>::empty().push(line));
    } else {
        let stop = line_end(s, pos);
        lemma_line_end(s, pos);
        assert(stop < s.len()) by {
            if stop == s.len() {
                assert(s[s.len() - 1] != NEWLINE);
            }
        }
        lemma_line_end_prefix(s, line.push(NEWLINE), pos);
        assert(extended.subrange(pos, stop) =~= s.subrange(pos, stop));
        lemma_lines_append(s, line, stop + 1);
        assert(seq![s.subrange(pos, stop)] + lines_from(s, stop + 1).push(line) =~= (seq![
            s.subrange(pos, stop),
        ] + lines_from(s, stop + 1)).push(line));
    }
}

/// The spelling of the first `r` rows ends with a line feed or is empty, and
/// its lines are the spellings of these rows.
proof fn lemma_rows_text(m: MatrixView, r: nat, trailing: bool)
    ensures
        rows_text(m, r, trailing).len() == 0 || rows_text(m, r, trailing).last() == NEWLINE,
        lines(rows_text(m, r, trailing)) == Seq::new(
            r,
            |i: int| entries_text(m, i, m.cols, trailing),
        ),
    decreases r,
{
    let text = rows_text(m, r, trailing);
    let expected = Seq::new(r, |i: int| entries_text(m, i, m.cols, trailing));
    if r == 0 {
        assert(lines(text) =~= expected);
    } else {
        let before = rows_text(m, (r - 1) as nat, trailing);
        let line = entries_text(m, r - 1, m.cols, trailing);
        lemma_rows_text(m, (r - 1) as nat, trailing);
        lemma_entries_text(m, r - 1, m.cols, trailing);
        lemma_lines_append(before, line, 0);
        assert(text =~= before + line.push(NEWLINE));
        assert(lines(before).push(line) =~= expected);
    }
}

/// A matrix with at least one entry comes back from its own spelling, in
/// either style.
pub proof fn lemma_text_roundtrip(m: MatrixView, trailing: bool)
    requires
        m.wf(),
        m.rows >= 1,
        m.cols >= 1,
        m.rows * m.cols <= usize::MAX,
    ensures
        text_result(matrix_text(m, trailing)) == Ok::<MatrixView, ParseError>(m),
{
    let text = matrix_text(m, trailing);
    let l = lines(text);
    lemma_rows_text(m, m.rows, trailing);
    assert forall|k: int| 0 <= k < l.len() implies row_values(#[trigger] l[k]) == Some(
        Seq::new(m.cols, |c: int| m.at(k, c)),
    ) by {
        lemma_row_values(m, k, trailing);
    }
    assert(all_rows(l));
    assert(Seq::new(l.len(), |k: int| row_values(l[k]).unwrap()) =~= crate::grid::matrix_grid(m));
    crate::grid::lemma_grid_roundtrip(m);
}

} // verus!
