//! Parsing of the two textual instance formats into a distance matrix.
//!
//! The input's first line holds the number of cities `n`.  When exactly
//! `n` data lines follow, each is a matrix row of `n` whitespace-separated
//! entries (an integer, or `INF` / the infinity sign for "no edge").
//! Otherwise the data lines are undirected edges `from to weight`, over a
//! matrix initialized to `0` on the diagonal and `INF` elsewhere.
//!
//! `spec_parse` states the whole grammar: which inputs succeed, the exact
//! matrix a success denotes (entries pinned to their tokens, edge lists
//! expanded symmetrically with a zero diagonal, `INF` elsewhere, and later
//! edges overwriting earlier ones), and which error each malformed input
//! yields.  `parse_input` returns exactly that.  Validation of the entry
//! ranges themselves is the solver constructor's job.

use vstd::prelude::*;
use crate::model::INF;
use crate::solver::{matrix_view, rows_square};

verus! {

/// Why an input text was rejected.
#[derive(Debug, Clone, Copy, PartialEq, Eq)]
pub enum ParseError {
    /// The input holds no non-blank line.
    EmptyInput,
    /// The first line is not a number of cities.
    InvalidCityCount,
    /// The number of cities is zero.
    ZeroCities,
    /// In matrix format, the row (0-based) has the wrong number of entries.
    WrongRowLength { row: usize, found: usize, expected: usize },
    /// In matrix format, an entry of the row (0-based) is not a number.
    InvalidNumber { row: usize },
    /// In edge format, the data line (0-based) does not hold three tokens.
    MalformedEdge { line: usize },
    /// In edge format, a token of the data line (0-based) is not a
    /// number; `field` is the token's position (from, to, weight).
    InvalidEdgeNumber { line: usize, field: usize },
    /// In edge format, an endpoint of the data line (0-based) is not a city.
    CityIndexOutOfRange { line: usize },
}

/// Space, tab or carriage return.
pub open spec fn is_space_b(b: u8) -> bool {
    b == 32 || b == 9 || b == 13
}

fn is_space(b: u8) -> (r: bool)
    ensures
        r == is_space_b(b),
{
    b == 32 || b == 9 || b == 13
}

/// View of a vector of byte rows as a sequence of byte strings.
pub open spec fn byte_rows_view(v: Vec<Vec<u8>>) -> Seq<Seq<u8>> {
    Seq::new(v@.len(), |i: int| v@[i]@)
}

/// Position of the first whitespace byte at or after `i`; the length when
/// there is none.
pub open spec fn first_space(line: Seq<u8>, i: int) -> int
    decreases line.len() - i,
{
    if i < 0 || i >= line.len() {
        line.len() as int
    } else if is_space_b(line[i]) {
        i
    } else {
        first_space(line, i + 1)
    }
}

proof fn lemma_first_space_bounds(line: Seq<u8>, i: int)
    requires
        0 <= i <= line.len(),
    ensures
        i <= first_space(line, i) <= line.len(),
    decreases line.len() - i,
{
    if i < line.len() && !is_space_b(line[i]) {
        lemma_first_space_bounds(line, i + 1);
    }
}

/// The whitespace-separated tokens of `line`, from position `i` on.
pub open spec fn spec_tokens(line: Seq<u8>, i: int) -> Seq<Seq<u8>>
    decreases line.len() - i,
    via spec_tokens_decreases
{
    if i < 0 || i >= line.len() {
        Seq::empty()
    } else if is_space_b(line[i]) {
        spec_tokens(line, i + 1)
    } else {
        seq![line.subrange(i, first_space(line, i))] + spec_tokens(line, first_space(line, i))
    }
}

#[via_fn]
proof fn spec_tokens_decreases(line: Seq<u8>, i: int) {
    if 0 <= i < line.len() && !is_space_b(line[i]) {
        lemma_first_space_bounds(line, i + 1);
    }
}

/// Splits a line into its whitespace-separated tokens.
fn tokens(line: &Vec<u8>) -> (out: Vec<Vec<u8>>)
    ensures
        byte_rows_view(out) == spec_tokens(line@, 0),
{
    let mut out: Vec<Vec<u8>> = Vec::new();
    let mut i: usize = 0;
    while i < line.len()
        invariant
            i <= line@.len(),
            spec_tokens(line@, 0) == byte_rows_view(out) + spec_tokens(line@, i as int),
        decreases line@.len() - i,
    {
        if is_space(line[i]) {
            i = i + 1;
        } else {
            proof {
                lemma_first_space_bounds(line@, i as int + 1);
            }
            let ghost start_tok = i as int;
            let mut j: usize = i;
            while j < line.len() && !is_space(line[j])
                invariant
                    0 <= start_tok <= j <= line@.len(),
                    first_space(line@, start_tok) == first_space(line@, j as int),
                decreases line@.len() - j,
            {
                j = j + 1;
            }
            proof {
                assert(first_space(line@, start_tok) == j);
            }
            let mut tok: Vec<u8> = Vec::new();
            proof {
                assert(Seq::<u8>::empty() =~= line@.subrange(start_tok, start_tok));
            }
            let mut c: usize = i;
            while c < j
                invariant
                    0 <= start_tok <= c <= j <= line@.len(),
                    tok@ == line@.subrange(start_tok, c as int),
                decreases j - c,
            {
                proof {
                    assert(line@.subrange(start_tok, c + 1) =~= line@.subrange(
                        start_tok,
                        c as int,
                    ).push(line@[c as int]));
                }
                tok.push(line[c]);
                c = c + 1;
            }
            let ghost before = byte_rows_view(out);
            out.push(tok);
            proof {
                assert(byte_rows_view(out) =~= before.push(tok@));
                assert(spec_tokens(line@, start_tok) == seq![line@.subrange(start_tok, j as int)]
                    + spec_tokens(line@, j as int));
                assert(before + spec_tokens(line@, start_tok) =~= byte_rows_view(out)
                    + spec_tokens(line@, j as int));
            }
            i = j;
        }
    }
    proof {
        assert(byte_rows_view(out) + spec_tokens(line@, i as int) =~= byte_rows_view(out));
    }
    out
}

/// A line holding only whitespace.
pub open spec fn blank(line: Seq<u8>) -> bool {
    forall|i: int| 0 <= i < line.len() ==> is_space_b(#[trigger] line[i])
}

fn is_blank(line: &Vec<u8>) -> (r: bool)
    ensures
        r == blank(line@),
{
    let mut i: usize = 0;
    while i < line.len()
        invariant
            i <= line@.len(),
            forall|k: int| 0 <= k < i ==> is_space_b(#[trigger] line@[k]),
        decreases line@.len() - i,
    {
        if !is_space(line[i]) {
            return false;
        }
        i = i + 1;
    }
    true
}

/// ASCII decimal digits.
pub open spec fn all_digits(s: Seq<u8>) -> bool {
    forall|i: int| 0 <= i < s.len() ==> 48 <= #[trigger] s[i] <= 57
}

/// Value of a most-significant-first decimal digit string.
pub open spec fn digits_value(s: Seq<u8>) -> int
    decreases s.len(),
{
    if s.len() == 0 {
        0
    } else {
        digits_value(s.drop_last()) * 10 + (s.last() - 48)
    }
}

/// A digit string's value is never negative.
proof fn lemma_digits_value_nonneg(s: Seq<u8>)
    requires
        all_digits(s),
    ensures
        digits_value(s) >= 0,
    decreases s.len(),
{
    if s.len() > 0 {
        assert forall|i: int| 0 <= i < s.drop_last().len() implies 48 <= #[trigger] s.drop_last()[i]
            <= 57 by {
            assert(s.drop_last()[i] == s[i]);
        }
        lemma_digits_value_nonneg(s.drop_last());
    }
}

/// A digit string's value never falls below any of its prefixes.
proof fn lemma_digits_value_prefix(s: Seq<u8>, j: int)
    requires
        all_digits(s),
        0 <= j <= s.len(),
    ensures
        digits_value(s.subrange(0, j)) <= digits_value(s),
    decreases s.len(),
{
    if j == s.len() {
        assert(s.subrange(0, j) =~= s);
    } else {
        assert forall|i: int| 0 <= i < s.drop_last().len() implies 48 <= #[trigger] s.drop_last()[i]
            <= 57 by {
            assert(s.drop_last()[i] == s[i]);
        }
        lemma_digits_value_nonneg(s.drop_last());
        lemma_digits_value_prefix(s.drop_last(), j);
        assert(s.drop_last().subrange(0, j) =~= s.subrange(0, j));
    }
}

/// What a city-count token means: an optional leading `+`, then at least
/// one decimal digit, with a value of at most `100000000`.
pub open spec fn usize_token(tok: Seq<u8>) -> Option<usize> {
    let body = if tok.len() > 0 && tok[0] == 43 {
        tok.drop_first()
    } else {
        tok
    };
    if tok.len() > 0 && body.len() > 0 && all_digits(body) && digits_value(body) <= 100000000 {
        Some(digits_value(body) as usize)
    } else {
        None
    }
}

/// What a distance token means: an optional leading sign, then at least
/// one decimal digit, with a magnitude that fits an `i32`.
pub open spec fn i32_token(tok: Seq<u8>) -> Option<i32> {
    let signed = tok.len() > 0 && (tok[0] == 43 || tok[0] == 45);
    let neg = tok.len() > 0 && tok[0] == 45;
    let body = if signed {
        tok.drop_first()
    } else {
        tok
    };
    let bound: int = if neg {
        2147483648
    } else {
        2147483647
    };
    if tok.len() > 0 && body.len() > 0 && all_digits(body) && digits_value(body) <= bound {
        Some(
            (if neg {
                -digits_value(body)
            } else {
                digits_value(body)
            }) as i32,
        )
    } else {
        None
    }
}

/// Decimal digits (with an optional leading `+`) as a city count.
fn parse_usize(tok: &Vec<u8>) -> (r: Option<usize>)
    ensures
        r == usize_token(tok@),
{
    let mut i: usize = 0;
    if tok.len() > 0 && tok[0] == 43 {
        i = 1;
    }
    if i >= tok.len() {
        return None;
    }
    let start = i;
    let ghost body = if tok@[0] == 43 {
        tok@.drop_first()
    } else {
        tok@
    };
    let mut val: usize = 0;
    while i < tok.len()
        invariant
            val <= 100000000,
            start <= i <= tok.len(),
            start == (if tok@[0] == 43 {
                1int
            } else {
                0int
            }),
            start < tok@.len(),
            body == tok@.subrange(start as int, tok@.len() as int),
            all_digits(tok@.subrange(start as int, i as int)),
            val == digits_value(tok@.subrange(start as int, i as int)),
        decreases tok.len() - i,
    {
        let b = tok[i];
        if b < 48 || b > 57 {
            proof {
                assert(body[i - start] == tok@[i as int]);
            }
            return None;
        }
        proof {
            assert(tok@.subrange(start as int, i + 1).drop_last() =~= tok@.subrange(
                start as int,
                i as int,
            ));
            assert(tok@.subrange(start as int, i + 1).last() == b);
        }
        val = val * 10 + ((b - 48) as usize);
        i = i + 1;
        if val > 100000000 {
            proof {
                assert(tok@.subrange(0, tok@.len() as int) =~= tok@);
                assert(tok@.drop_first() =~= tok@.subrange(1, tok@.len() as int));
                assert(val == digits_value(tok@.subrange(start as int, i as int)));
                if all_digits(body) {
                    assert(body.subrange(0, i - start) =~= tok@.subrange(start as int, i as int));
                    lemma_digits_value_prefix(body, i - start);
                }
            }
            return None;
        }
    }
    proof {
        assert(tok@.subrange(start as int, tok@.len() as int) == body);
    }
    Some(val)
}

/// Signed decimal digits as an `i32`, rejecting values out of range.
fn parse_i32(tok: &Vec<u8>) -> (r: Option<i32>)
    ensures
        r == i32_token(tok@),
{
    let mut i: usize = 0;
    let mut negative = false;
    if tok.len() > 0 && (tok[0] == 43 || tok[0] == 45) {
        negative = tok[0] == 45;
        i = 1;
    }
    if i >= tok.len() {
        return None;
    }
    let start = i;
    let ghost body = if tok@[0] == 43 || tok@[0] == 45 {
        tok@.drop_first()
    } else {
        tok@
    };
    let mut val: i64 = 0;
    while i < tok.len()
        invariant
            0 <= val <= 3000000000,
            start <= i <= tok.len(),
            start == (if tok@[0] == 43 || tok@[0] == 45 {
                1int
            } else {
                0int
            }),
            start < tok@.len(),
            negative == (tok@[0] == 45),
            body == tok@.subrange(start as int, tok@.len() as int),
            all_digits(tok@.subrange(start as int, i as int)),
            val == digits_value(tok@.subrange(start as int, i as int)),
        decreases tok.len() - i,
    {
        let b = tok[i];
        if b < 48 || b > 57 {
            proof {
                assert(body[i - start] == tok@[i as int]);
            }
            return None;
        }
        proof {
            assert(tok@.subrange(start as int, i + 1).drop_last() =~= tok@.subrange(
                start as int,
                i as int,
            ));
            assert(tok@.subrange(start as int, i + 1).last() == b);
        }
        val = val * 10 + ((b - 48) as i64);
        i = i + 1;
        if val > 3000000000 {
            proof {
                assert(tok@.subrange(0, tok@.len() as int) =~= tok@);
                assert(tok@.drop_first() =~= tok@.subrange(1, tok@.len() as int));
                assert(val == digits_value(tok@.subrange(start as int, i as int)));
                if all_digits(body) {
                    assert(body.subrange(0, i - start) =~= tok@.subrange(start as int, i as int));
                    lemma_digits_value_prefix(body, i - start);
                }
            }
            return None;
        }
    }
    proof {
        assert(tok@.subrange(start as int, tok@.len() as int) == body);
    }
    if negative {
        if val > 2147483648 {
            None
        } else {
            Some((-val) as i32)
        }
    } else {
        if val > 2147483647 {
            None
        } else {
            Some(val as i32)
        }
    }
}

/// `INF` in any letter case, or the three-byte infinity sign.
pub open spec fn inf_token(tok: Seq<u8>) -> bool {
    tok.len() == 3 && (((tok[0] == 73 || tok[0] == 105) && (tok[1] == 78 || tok[1] == 110) && (
    tok[2] == 70 || tok[2] == 102)) || (tok[0] == 226 && tok[1] == 136 && tok[2] == 158))
}

fn is_inf_token(tok: &Vec<u8>) -> (r: bool)
    ensures
        r == inf_token(tok@),
{
    if tok.len() != 3 {
        return false;
    }
    let a = tok[0];
    let b = tok[1];
    let c = tok[2];
    ((a == 73 || a == 105) && (b == 78 || b == 110) && (c == 70 || c == 102)) || (a == 226 && b
        == 136 && c == 158)
}

/// Position of the first newline byte at or after `i`; the length when
/// there is none.
pub open spec fn first_newline(content: Seq<u8>, i: int) -> int
    decreases content.len() - i,
{
    if i < 0 || i >= content.len() {
        content.len() as int
    } else if content[i] == 10 {
        i
    } else {
        first_newline(content, i + 1)
    }
}

proof fn lemma_first_newline_bounds(content: Seq<u8>, i: int)
    requires
        0 <= i <= content.len(),
    ensures
        i <= first_newline(content, i) <= content.len(),
    decreases content.len() - i,
{
    if i < content.len() && content[i] != 10 {
        lemma_first_newline_bounds(content, i + 1);
    }
}

/// The newline-separated pieces of `content` from position `i` on; one
/// more piece than there are newline bytes.
pub open spec fn spec_lines(content: Seq<u8>, i: int) -> Seq<Seq<u8>>
    decreases content.len() - i,
    via spec_lines_decreases
{
    if i < 0 || i > content.len() {
        Seq::empty()
    } else {
        let k = first_newline(content, i);
        if k == content.len() {
            seq![content.subrange(i, k)]
        } else {
            seq![content.subrange(i, k)] + spec_lines(content, k + 1)
        }
    }
}

#[via_fn]
proof fn spec_lines_decreases(content: Seq<u8>, i: int) {
    if 0 <= i <= content.len() {
        lemma_first_newline_bounds(content, i);
    }
}

/// Index of the first non-blank line at or after `i`.
pub open spec fn trim_start(ls: Seq<Seq<u8>>, i: int) -> int
    decreases ls.len() - i,
{
    if i < 0 || i >= ls.len() {
        ls.len() as int
    } else if blank(ls[i]) {
        trim_start(ls, i + 1)
    } else {
        i
    }
}

/// End bound after dropping trailing blank lines, never below `lo`.
pub open spec fn trim_end(ls: Seq<Seq<u8>>, e: int, lo: int) -> int
    decreases e - lo,
{
    if e <= lo || e > ls.len() {
        e
    } else if blank(ls[e - 1]) {
        trim_end(ls, e - 1, lo)
    } else {
        e
    }
}

/// The input's lines with leading and trailing blank lines dropped.
pub open spec fn spec_trimmed_lines(content: Seq<u8>) -> Seq<Seq<u8>> {
    let ls = spec_lines(content, 0);
    let s = trim_start(ls, 0);
    let e = trim_end(ls, ls.len() as int, s);
    ls.subrange(s, e)
}

/// Splits the input into lines, dropping leading and trailing blank ones.
fn trimmed_lines(content: &Vec<u8>) -> (out: Vec<Vec<u8>>)
    ensures
        byte_rows_view(out) == spec_trimmed_lines(content@),
{
    let ghost total = spec_lines(content@, 0);
    let mut lines: Vec<Vec<u8>> = Vec::new();
    let mut i: usize = 0;
    let mut done = false;
    while !done
        invariant
            i <= content@.len(),
            !done ==> total == byte_rows_view(lines) + spec_lines(content@, i as int),
            done ==> total == byte_rows_view(lines),
            total == spec_lines(content@, 0),
        decreases
                content@.len() - i + (if done {
                    0int
                } else {
                    1int
                }),
    {
        let ghost piece_start = i as int;
        let mut j: usize = i;
        while j < content.len() && content[j] != 10
            invariant
                0 <= piece_start <= j <= content@.len(),
                first_newline(content@, piece_start) == first_newline(content@, j as int),
            decreases content@.len() - j,
        {
            j = j + 1;
        }
        proof {
            assert(first_newline(content@, piece_start) == j);
            assert(Seq::<u8>::empty() =~= content@.subrange(piece_start, piece_start));
        }
        let mut piece: Vec<u8> = Vec::new();
        let mut c: usize = i;
        while c < j
            invariant
                0 <= piece_start <= c <= j <= content@.len(),
                piece@ == content@.subrange(piece_start, c as int),
            decreases j - c,
        {
            proof {
                assert(content@.subrange(piece_start, c + 1) =~= content@.subrange(
                    piece_start,
                    c as int,
                ).push(content@[c as int]));
            }
            piece.push(content[c]);
            c = c + 1;
        }
        let ghost before = byte_rows_view(lines);
        lines.push(piece);
        proof {
            assert(byte_rows_view(lines) =~= before.push(piece@));
        }
        if j == content.len() {
            proof {
                assert(spec_lines(content@, piece_start) == seq![content@.subrange(
                    piece_start,
                    j as int,
                )]);
                assert(before + spec_lines(content@, piece_start) =~= byte_rows_view(lines));
            }
            done = true;
        } else {
            proof {
                assert(spec_lines(content@, piece_start) == seq![content@.subrange(
                    piece_start,
                    j as int,
                )] + spec_lines(content@, j + 1));
                assert(before + spec_lines(content@, piece_start) =~= byte_rows_view(lines)
                    + spec_lines(content@, j + 1));
            }
            i = j + 1;
        }
    }
    let ghost lsv = byte_rows_view(lines);
    let mut start: usize = 0;
    let mut end: usize = lines.len();
    while start < end && is_blank(&lines[start])
        invariant
            start <= end <= lines@.len(),
            end == lines@.len(),
            lsv == byte_rows_view(lines),
            trim_start(lsv, 0) == trim_start(lsv, start as int),
        decreases end - start,
    {
        proof {
            assert(lsv[start as int] == lines@[start as int]@);
        }
        start = start + 1;
    }
    proof {
        if start < end {
            assert(lsv[start as int] == lines@[start as int]@);
        }
        assert(trim_start(lsv, 0) == start);
    }
    while end > start && is_blank(&lines[end - 1])
        invariant
            start <= end <= lines@.len(),
            lsv == byte_rows_view(lines),
            trim_end(lsv, lsv.len() as int, start as int) == trim_end(
                lsv,
                end as int,
                start as int,
            ),
        decreases end - start,
    {
        proof {
            assert(lsv[end - 1] == lines@[end - 1]@);
        }
        end = end - 1;
    }
    proof {
        if end > start {
            assert(lsv[end - 1] == lines@[end - 1]@);
        }
        assert(trim_end(lsv, lsv.len() as int, start as int) == end);
    }
    let mut out: Vec<Vec<u8>> = Vec::new();
    proof {
        assert(byte_rows_view(out) =~= lsv.subrange(start as int, start as int));
    }
    let mut j: usize = start;
    while j < end
        invariant
            start <= j <= end <= lines@.len(),
            lsv == byte_rows_view(lines),
            byte_rows_view(out) == lsv.subrange(start as int, j as int),
        decreases end - j,
    {
        let mut line: Vec<u8> = Vec::new();
        let src = &lines[j];
        let mut k: usize = 0;
        while k < src.len()
            invariant
                k <= src@.len(),
                line@ == src@.subrange(0, k as int),
            decreases src@.len() - k,
        {
            proof {
                assert(src@.subrange(0, k + 1) =~= src@.subrange(0, k as int).push(
                    src@[k as int],
                ));
            }
            line.push(src[k]);
            k = k + 1;
        }
        proof {
            assert(line@ =~= src@);
            assert(line@ == lsv[j as int]);
        }
        let ghost before = byte_rows_view(out);
        out.push(line);
        proof {
            assert(byte_rows_view(out) =~= before.push(lsv[j as int]));
            assert(byte_rows_view(out) =~= lsv.subrange(start as int, j + 1));
        }
        j = j + 1;
    }
    proof {
        assert(byte_rows_view(out) == lsv.subrange(start as int, end as int));
    }
    out
}


/// Entries of one matrix row, parsed left to right: each token is the
/// sentinel (for an `INF` token) or its integer value, and the first bad
/// token makes the whole row fail.
pub open spec fn spec_row_entries(toks: Seq<Seq<u8>>, row: usize, c: int) -> Result<
    Seq<i32>,
    ParseError,
>
    decreases toks.len() - c,
{
    if c < 0 || c >= toks.len() {
        Ok(Seq::empty())
    } else if inf_token(toks[c]) {
        match spec_row_entries(toks, row, c + 1) {
            Ok(rest) => Ok(seq![INF] + rest),
            Err(e) => Err(e),
        }
    } else {
        match i32_token(toks[c]) {
            Some(v) => match spec_row_entries(toks, row, c + 1) {
                Ok(rest) => Ok(seq![v] + rest),
                Err(e) => Err(e),
            },
            None => Err(ParseError::InvalidNumber { row }),
        }
    }
}

/// Rows `r..n` of an adjacency-matrix input: each data line must carry
/// exactly `n` entries, and the first bad row decides the error.
pub open spec fn spec_matrix_rows(ls: Seq<Seq<u8>>, n: usize, r: int) -> Result<
    Seq<Seq<i32>>,
    ParseError,
>
    decreases n - r,
{
    if r < 0 || r >= n {
        Ok(Seq::empty())
    } else {
        let toks = spec_tokens(ls[r + 1], 0);
        if toks.len() != n {
            Err(
                ParseError::WrongRowLength {
                    row: r as usize,
                    found: toks.len() as usize,
                    expected: n,
                },
            )
        } else {
            match spec_row_entries(toks, r as usize, 0) {
                Err(e) => Err(e),
                Ok(row) => match spec_matrix_rows(ls, n, r + 1) {
                    Ok(rest) => Ok(seq![row] + rest),
                    Err(e) => Err(e),
                },
            }
        }
    }
}

/// The undirected edges listed on data lines `l..`, each a `from to
/// weight` triple of valid tokens with both endpoints below `n`; the
/// first bad line decides the error.
pub open spec fn spec_edge_list(ls: Seq<Seq<u8>>, n: usize, l: int) -> Result<
    Seq<(usize, usize, i32)>,
    ParseError,
>
    decreases ls.len() - l,
{
    if l < 1 || l >= ls.len() {
        Ok(Seq::empty())
    } else {
        let toks = spec_tokens(ls[l], 0);
        if toks.len() != 3 {
            Err(ParseError::MalformedEdge { line: (l - 1) as usize })
        } else {
            match usize_token(toks[0]) {
                None => Err(ParseError::InvalidEdgeNumber { line: (l - 1) as usize, field: 0 }),
                Some(from) => match usize_token(toks[1]) {
                    None => Err(
                        ParseError::InvalidEdgeNumber { line: (l - 1) as usize, field: 1 },
                    ),
                    Some(to) => match i32_token(toks[2]) {
                        None => Err(
                            ParseError::InvalidEdgeNumber { line: (l - 1) as usize, field: 2 },
                        ),
                        Some(w) => if from >= n || to >= n {
                            Err(ParseError::CityIndexOutOfRange { line: (l - 1) as usize })
                        } else {
                            match spec_edge_list(ls, n, l + 1) {
                                Ok(rest) => Ok(seq![(from, to, w)] + rest),
                                Err(e) => Err(e),
                            }
                        },
                    },
                },
            }
        }
    }
}

/// Entry `(i, j)` of the matrix an edge list denotes: `0` on the
/// diagonal, `INF` for unlisted pairs, and the weight of the last listed
/// edge between `i` and `j` in either direction otherwise.
pub open spec fn edge_value(edges: Seq<(usize, usize, i32)>, i: int, j: int) -> i32
    decreases edges.len(),
{
    if edges.len() == 0 {
        if i == j {
            0
        } else {
            INF
        }
    } else {
        let e = edges.last();
        if (e.0 == i && e.1 == j) || (e.1 == i && e.0 == j) {
            e.2
        } else {
            edge_value(edges.drop_last(), i, j)
        }
    }
}

/// The symmetric `n x n` matrix an edge list denotes.
pub open spec fn spec_edge_matrix(edges: Seq<(usize, usize, i32)>, n: usize) -> Seq<Seq<i32>> {
    Seq::new(n as nat, |i: int| Seq::new(n as nat, |j: int| edge_value(edges, i, j)))
}

/// What parsing an instance text means: take the trimmed lines, read the
/// city count from the single token of the first line, and read the data
/// lines as an adjacency matrix when there are exactly `n` of them and as
/// an undirected edge list otherwise.
pub open spec fn spec_parse(content: Seq<u8>) -> Result<Seq<Seq<i32>>, ParseError> {
    let ls = spec_trimmed_lines(content);
    if ls.len() == 0 {
        Err(ParseError::EmptyInput)
    } else {
        let header = spec_tokens(ls[0], 0);
        if header.len() != 1 {
            Err(ParseError::InvalidCityCount)
        } else {
            match usize_token(header[0]) {
                None => Err(ParseError::InvalidCityCount),
                Some(n) => if n == 0 {
                    Err(ParseError::ZeroCities)
                } else if ls.len() - 1 == n {
                    spec_matrix_rows(ls, n, 0)
                } else {
                    match spec_edge_list(ls, n, 1) {
                        Ok(edges) => Ok(spec_edge_matrix(edges, n)),
                        Err(e) => Err(e),
                    }
                },
            }
        }
    }
}

/// Parses an instance text into a distance matrix: the city count, then
/// either a full adjacency matrix or an undirected edge list.  The result
/// is exactly what `spec_parse` says of the input, and a successful parse
/// is always a non-empty square matrix.
pub fn parse_input(content: &Vec<u8>) -> (r: Result<Vec<Vec<i32>>, ParseError>)
    ensures
        match r {
            Ok(m) => spec_parse(content@) == Ok::<Seq<Seq<i32>>, ParseError>(matrix_view(m)),
            Err(e) => spec_parse(content@) == Err::<Seq<Seq<i32>>, ParseError>(e),
        },
        r matches Ok(m) ==> m@.len() >= 1 && rows_square(matrix_view(m), m@.len() as int),
{
    let lines = trimmed_lines(content);
    let ghost lsv = spec_trimmed_lines(content@);
    if lines.len() == 0 {
        return Err(ParseError::EmptyInput);
    }
    let header = tokens(&lines[0]);
    proof {
        assert(lsv[0] == lines@[0]@);
        assert(byte_rows_view(header).len() == header@.len());
    }
    if header.len() != 1 {
        return Err(ParseError::InvalidCityCount);
    }
    proof {
        assert(byte_rows_view(header)[0] == header@[0]@);
    }
    let n = match parse_usize(&header[0]) {
        Some(v) => v,
        None => {
            return Err(ParseError::InvalidCityCount);
        },
    };
    if n == 0 {
        return Err(ParseError::ZeroCities);
    }
    let data_lines = lines.len() - 1;
    if data_lines == n {
        // Matrix format: one row of `n` entries per city.
        proof {
            assert(spec_parse(content@) == spec_matrix_rows(lsv, n, 0));
        }
        let mut dist: Vec<Vec<i32>> = Vec::new();
        let mut r: usize = 0;
        while r < n
            invariant
                r <= n,
                1 <= n,
                lines@.len() == n + 1,
                lsv == byte_rows_view(lines),
                spec_parse(content@) == spec_matrix_rows(lsv, n, 0),
                spec_matrix_rows(lsv, n, 0) == (match spec_matrix_rows(lsv, n, r as int) {
                    Ok(rest) => Ok::<Seq<Seq<i32>>, ParseError>(matrix_view(dist) + rest),
                    Err(e) => Err::<Seq<Seq<i32>>, ParseError>(e),
                }),
                dist@.len() == r,
                forall|i: int| 0 <= i < r ==> (#[trigger] dist@[i]@).len() == n,
            decreases n - r,
        {
            let toks = tokens(&lines[r + 1]);
            let ghost toksv = spec_tokens(lsv[r as int + 1], 0);
            proof {
                assert(lsv[r as int + 1] == lines@[r as int + 1]@);
                assert(byte_rows_view(toks) == toksv);
            }
            if toks.len() != n {
                return Err(
                    ParseError::WrongRowLength { row: r, found: toks.len(), expected: n },
                );
            }
            let mut row: Vec<i32> = Vec::new();
            let mut c: usize = 0;
            while c < n
                invariant
                    c <= n,
                    r < n,
                    toks@.len() == n,
                    toksv == byte_rows_view(toks),
                    toksv == spec_tokens(lsv[r as int + 1], 0),
                    toksv.len() == n,
                    row@.len() == c,
                    spec_parse(content@) == spec_matrix_rows(lsv, n, 0),
                    spec_matrix_rows(lsv, n, 0) == (match spec_matrix_rows(lsv, n, r as int) {
                        Ok(rest) => Ok::<Seq<Seq<i32>>, ParseError>(matrix_view(dist) + rest),
                        Err(e) => Err::<Seq<Seq<i32>>, ParseError>(e),
                    }),
                    spec_row_entries(toksv, r, 0) == (match spec_row_entries(
                        toksv,
                        r,
                        c as int,
                    ) {
                        Ok(rest) => Ok::<Seq<i32>, ParseError>(row@ + rest),
                        Err(e) => Err::<Seq<i32>, ParseError>(e),
                    }),
                decreases n - c,
            {
                proof {
                    assert(toksv[c as int] == toks@[c as int]@);
                }
                let entry: i32;
                if is_inf_token(&toks[c]) {
                    entry = INF;
                } else {
                    match parse_i32(&toks[c]) {
                        Some(v) => {
                            entry = v;
                        },
                        None => {
                            return Err(ParseError::InvalidNumber { row: r });
                        },
                    }
                }
                let ghost old_row = row@;
                row.push(entry);
                proof {
                    if let Ok(rest) = spec_row_entries(toksv, r, c + 1) {
                        assert(old_row + (seq![entry] + rest) =~= row@ + rest);
                    }
                }
                c = c + 1;
            }
            proof {
                assert(spec_row_entries(toksv, r, n as int) == Ok::<Seq<i32>, ParseError>(
                    Seq::empty(),
                ));
                assert(row@ + Seq::<i32>::empty() =~= row@);
                assert(spec_row_entries(toksv, r, 0) == Ok::<Seq<i32>, ParseError>(row@));
            }
            let ghost old_mv = matrix_view(dist);
            let ghost rowv = row@;
            dist.push(row);
            proof {
                assert(matrix_view(dist) =~= old_mv.push(rowv));
                if let Ok(rest) = spec_matrix_rows(lsv, n, r + 1) {
                    assert(old_mv + (seq![rowv] + rest) =~= matrix_view(dist) + rest);
                }
            }
            r = r + 1;
        }
        proof {
            assert(spec_matrix_rows(lsv, n, n as int) == Ok::<Seq<Seq<i32>>, ParseError>(
                Seq::empty(),
            ));
            assert(matrix_view(dist) + Seq::<Seq<i32>>::empty() =~= matrix_view(dist));
            assert forall|i: int| 0 <= i < n implies (#[trigger] matrix_view(dist)[i]).len()
                == n by {
                assert(matrix_view(dist)[i] == dist@[i]@);
            }
        }
        Ok(dist)
    } else {
        // Edge format: undirected `from to weight` triples.
        proof {
            assert(spec_parse(content@) == (match spec_edge_list(lsv, n, 1) {
                Ok(edges) => Ok::<Seq<Seq<i32>>, ParseError>(spec_edge_matrix(edges, n)),
                Err(e) => Err::<Seq<Seq<i32>>, ParseError>(e),
            }));
        }
        let mut edges: Vec<(usize, usize, i32)> = Vec::new();
        let mut l: usize = 1;
        while l < lines.len()
            invariant
                1 <= l <= lines@.len(),
                lsv == byte_rows_view(lines),
                spec_parse(content@) == (match spec_edge_list(lsv, n, 1) {
                    Ok(es) => Ok::<Seq<Seq<i32>>, ParseError>(spec_edge_matrix(es, n)),
                    Err(e) => Err::<Seq<Seq<i32>>, ParseError>(e),
                }),
                spec_edge_list(lsv, n, 1) == (match spec_edge_list(lsv, n, l as int) {
                    Ok(rest) => Ok::<Seq<(usize, usize, i32)>, ParseError>(edges@ + rest),
                    Err(e) => Err::<Seq<(usize, usize, i32)>, ParseError>(e),
                }),
            decreases lines@.len() - l,
        {
            let toks = tokens(&lines[l]);
            let ghost toksv = spec_tokens(lsv[l as int], 0);
            proof {
                assert(lsv[l as int] == lines@[l as int]@);
                assert(byte_rows_view(toks) == toksv);
            }
            if toks.len() != 3 {
                return Err(ParseError::MalformedEdge { line: l - 1 });
            }
            proof {
                assert(toksv[0] == toks@[0]@);
                assert(toksv[1] == toks@[1]@);
                assert(toksv[2] == toks@[2]@);
            }
            let from = match parse_usize(&toks[0]) {
                Some(v) => v,
                None => {
                    return Err(ParseError::InvalidEdgeNumber { line: l - 1, field: 0 });
                },
            };
            let to = match parse_usize(&toks[1]) {
                Some(v) => v,
                None => {
                    return Err(ParseError::InvalidEdgeNumber { line: l - 1, field: 1 });
                },
            };
            let w = match parse_i32(&toks[2]) {
                Some(v) => v,
                None => {
                    return Err(ParseError::InvalidEdgeNumber { line: l - 1, field: 2 });
                },
            };
            if from >= n || to >= n {
                return Err(ParseError::CityIndexOutOfRange { line: l - 1 });
            }
            let ghost old_edges = edges@;
            edges.push((from, to, w));
            proof {
                if let Ok(rest) = spec_edge_list(lsv, n, l + 1) {
                    assert(old_edges + (seq![(from, to, w)] + rest) =~= edges@ + rest);
                }
            }
            l = l + 1;
        }
        proof {
            assert(spec_edge_list(lsv, n, lines@.len() as int) == Ok::<
                Seq<(usize, usize, i32)>,
                ParseError,
            >(Seq::empty()));
            assert(edges@ + Seq::<(usize, usize, i32)>::empty() =~= edges@);
            assert(spec_edge_list(lsv, n, 1) == Ok::<Seq<(usize, usize, i32)>, ParseError>(
                edges@,
            ));
        }
        let ghost target = spec_edge_matrix(edges@, n);
        let mut dist: Vec<Vec<i32>> = Vec::new();
        let mut i: usize = 0;
        while i < n
            invariant
                i <= n,
                dist@.len() == i,
                target == spec_edge_matrix(edges@, n),
                forall|ri: int| 0 <= ri < i ==> (#[trigger] dist@[ri]@) == target[ri],
                forall|ri: int| 0 <= ri < i ==> (#[trigger] dist@[ri]@).len() == n,
            decreases n - i,
        {
            let mut row: Vec<i32> = Vec::new();
            let mut j: usize = 0;
            while j < n
                invariant
                    j <= n,
                    i < n,
                    row@.len() == j,
                    target == spec_edge_matrix(edges@, n),
                    forall|cj: int|
                        0 <= cj < j ==> #[trigger] row@[cj] == edge_value(edges@, i as int, cj),
                decreases n - j,
            {
                let mut value: i32 = if i == j {
                    0
                } else {
                    INF
                };
                let mut e: usize = 0;
                proof {
                    assert(edges@.subrange(0, 0) =~= Seq::<(usize, usize, i32)>::empty());
                }
                while e < edges.len()
                    invariant
                        e <= edges@.len(),
                        value == edge_value(
                            edges@.subrange(0, e as int),
                            i as int,
                            j as int,
                        ),
                    decreases edges@.len() - e,
                {
                    proof {
                        assert(edges@.subrange(0, e + 1).drop_last() =~= edges@.subrange(
                            0,
                            e as int,
                        ));
                        assert(edges@.subrange(0, e + 1).last() == edges@[e as int]);
                    }
                    let edge = edges[e];
                    if (edge.0 == i && edge.1 == j) || (edge.1 == i && edge.0 == j) {
                        value = edge.2;
                    }
                    e = e + 1;
                }
                proof {
                    assert(edges@.subrange(0, edges@.len() as int) =~= edges@);
                }
                row.push(value);
                j = j + 1;
            }
            proof {
                assert(row@ =~= target[i as int]);
            }
            dist.push(row);
            i = i + 1;
        }
        proof {
            assert(matrix_view(dist) =~= target);
            assert forall|ri: int| 0 <= ri < n implies (#[trigger] matrix_view(dist)[ri]).len()
                == n by {
                assert(matrix_view(dist)[ri] == dist@[ri]@);
            }
        }
        Ok(dist)
    }
}

} // verus!
