//! The edge-list text format: a node count on the first line, then one
//! directed edge per line as two numbers separated by blanks.

use vstd::prelude::*;
use vstd::slice::slice_subrange;
use crate::error::FormatErrorKind;

verus! {

pub const TAB: u8 = 9;

pub const LINE_FEED: u8 = 10;

pub const CARRIAGE_RETURN: u8 = 13;

pub const SPACE: u8 = 32;

pub const PLUS_SIGN: u8 = 43;

pub const DIGIT_ZERO: u8 = 48;

pub const DIGIT_NINE: u8 = 57;

/// Space, tab, line feed, vertical tab, form feed and carriage return
/// separate tokens.
pub open spec fn is_blank(b: u8) -> bool {
    b == SPACE || TAB <= b <= CARRIAGE_RETURN
}

/// The decimal digits.
pub open spec fn is_digit(b: u8) -> bool {
    DIGIT_ZERO <= b <= DIGIT_NINE
}

/// The place of the first line feed at or after `from`, or the length of
/// the text where none follows.
pub open spec fn line_end(text: Seq<u8>, from: int) -> int
    decreases text.len() - from,
{
    if from >= text.len() || text[from] == LINE_FEED {
        from
    } else {
        line_end(text, from + 1)
    }
}

/// The line that starts at `from`: what stands before the next line feed,
/// without a carriage return that stands directly before that line feed.
pub open spec fn line_at(text: Seq<u8>, from: int) -> Seq<u8> {
    let end = line_end(text, from);
    if from < end < text.len() && text[end - 1] == CARRIAGE_RETURN {
        text.subrange(from, end - 1)
    } else {
        text.subrange(from, end)
    }
}

/// The lines of the text that start at or after `from`. A line feed ends a
/// line; what follows the last line feed is a line only if it is not empty.
pub open spec fn lines_from(text: Seq<u8>, from: int) -> Seq<Seq<u8>>
    decreases text.len() - from,
    via lines_from_decreases
{
    if from < 0 || from >= text.len() {
        Seq::empty()
    } else if line_end(text, from) >= text.len() {
        seq![line_at(text, from)]
    } else {
        seq![line_at(text, from)] + lines_from(text, line_end(text, from) + 1)
    }
}

#[via_fn]
proof fn lines_from_decreases(text: Seq<u8>, from: int) {
    if 0 <= from < text.len() {
        lemma_line_end_bounds(text, from);
    }
}

/// The lines of the text.
pub open spec fn lines(text: Seq<u8>) -> Seq<Seq<u8>> {
    lines_from(text, 0)
}

/// The place of the first byte at or after `from` that is no blank, or the
/// length of the line.
pub open spec fn skip_blanks(line: Seq<u8>, from: int) -> int
    decreases line.len() - from,
{
    if from >= line.len() || !is_blank(line[from]) {
        from
    } else {
        skip_blanks(line, from + 1)
    }
}

/// The place of the first blank at or after `from`, or the length of the
/// line.
pub open spec fn token_end(line: Seq<u8>, from: int) -> int
    decreases line.len() - from,
{
    if from >= line.len() || is_blank(line[from]) {
        from
    } else {
        token_end(line, from + 1)
    }
}

/// The tokens of the line that start at or after `from`: the longest runs
/// of bytes that are no blanks.
pub open spec fn tokens_from(line: Seq<u8>, from: int) -> Seq<Seq<u8>>
    decreases line.len() - from,
    via tokens_from_decreases
{
    let start = skip_blanks(line, from);
    if from < 0 || start >= line.len() {
        Seq::empty()
    } else {
        seq![line.subrange(start, token_end(line, start))] + tokens_from(
            line,
            token_end(line, start),
        )
    }
}

#[via_fn]
proof fn tokens_from_decreases(line: Seq<u8>, from: int) {
    if from >= 0 {
        lemma_skip_blanks_bounds(line, from);
        let start = skip_blanks(line, from);
        if start < line.len() {
            lemma_token_end_bounds(line, start);
        }
    }
}

/// The tokens of the line.
pub open spec fn tokens(line: Seq<u8>) -> Seq<Seq<u8>> {
    tokens_from(line, 0)
}

/// The value of a sequence of decimal digits.
pub open spec fn digits_value(digits: Seq<u8>) -> nat
    decreases digits.len(),
{
    if digits.len() == 0 {
        0
    } else {
        10 * digits_value(digits.drop_last()) + (digits.last() - DIGIT_ZERO) as nat
    }
}

/// Every byte is a decimal digit.
pub open spec fn all_digits(digits: Seq<u8>) -> bool {
    forall|i: int| 0 <= i < digits.len() ==> is_digit(#[trigger] digits[i])
}

/// The digits of a token: the token without a plus sign at its front.
pub open spec fn unsigned_part(token: Seq<u8>) -> Seq<u8> {
    if token.len() > 0 && token[0] == PLUS_SIGN {
        token.skip(1)
    } else {
        token
    }
}

/// The number that a token stands for: one or more decimal digits, with or
/// without a plus sign before them, whose value fits a machine word.
pub open spec fn number(token: Seq<u8>) -> Option<usize> {
    let digits = unsigned_part(token);
    if digits.len() > 0 && all_digits(digits) && digits_value(digits) <= usize::MAX {
        Some(digits_value(digits) as usize)
    } else {
        None
    }
}

/// The edge that a line stands for in a graph of `n` nodes: its first two
/// tokens are the numbers of the node that the edge leaves and of the node
/// that it enters; further tokens do not count.
pub open spec fn edge_of(line: Seq<u8>, n: nat) -> Result<(usize, usize), FormatErrorKind> {
    let found = tokens(line);
    if found.len() < 2 {
        Err(FormatErrorKind::MissingToken)
    } else {
        match (number(found[0]), number(found[1])) {
            (Some(x), Some(y)) => if x < n && y < n {
                Ok((x, y))
            } else {
                Err(FormatErrorKind::NodeOutOfRange)
            },
            _ => Err(FormatErrorKind::MalformedNodeId),
        }
    }
}

/// A line ends at or after its start, at the first line feed from there on
/// or at the end of the text.
pub proof fn lemma_line_end_bounds(text: Seq<u8>, from: int)
    requires
        0 <= from <= text.len(),
    ensures
        from <= line_end(text, from) <= text.len(),
        line_end(text, from) < text.len() ==> text[line_end(text, from)] == LINE_FEED,
        forall|i: int| from <= i < line_end(text, from) ==> text[i] != LINE_FEED,
    decreases text.len() - from,
{
    if from < text.len() && text[from] != LINE_FEED {
        lemma_line_end_bounds(text, from + 1);
    }
}

/// Skipping blanks leads to a byte that is no blank, or to the end of the
/// line.
pub proof fn lemma_skip_blanks_bounds(line: Seq<u8>, from: int)
    requires
        0 <= from,
    ensures
        from <= skip_blanks(line, from),
        from <= line.len() ==> skip_blanks(line, from) <= line.len(),
        skip_blanks(line, from) < line.len() ==> !is_blank(line[skip_blanks(line, from)]),
    decreases line.len() - from,
{
    if from < line.len() && is_blank(line[from]) {
        lemma_skip_blanks_bounds(line, from + 1);
    }
}

/// A token has at least one byte.
pub proof fn lemma_token_end_bounds(line: Seq<u8>, from: int)
    requires
        0 <= from < line.len(),
        !is_blank(line[from]),
    ensures
        from < token_end(line, from) <= line.len(),
    decreases line.len() - from,
{
    reveal_with_fuel(token_end, 2);
    if from + 1 < line.len() && !is_blank(line[from + 1]) {
        lemma_token_end_bounds(line, from + 1);
    }
}

/// A longer sequence of digits has no smaller value than its front part.
proof fn lemma_digits_value_grows(digits: Seq<u8>, k: int)
    requires
        0 <= k <= digits.len(),
        all_digits(digits),
    ensures
        digits_value(digits.take(k)) <= digits_value(digits),
    decreases digits.len() - k,
{
    if k < digits.len() {
        lemma_digits_value_grows(digits, k + 1);
        assert(digits.take(k + 1).drop_last() =~= digits.take(k));
        assert(is_digit(digits[k]));
    } else {
        assert(digits.take(k) =~= digits);
    }
}

fn blank(b: u8) -> (r: bool)
    ensures
        r == is_blank(b),
{
    b == SPACE || (TAB <= b && b <= CARRIAGE_RETURN)
}

/// The place where the line that starts at `from` ends.
pub fn find_line_end(text: &[u8], from: usize) -> (end: usize)
    requires
        from <= text@.len(),
    ensures
        end == line_end(text@, from as int),
        from <= end <= text@.len(),
{
    let mut end = from;
    while end < text.len() && text[end] != LINE_FEED
        invariant
            from <= end <= text@.len(),
            line_end(text@, from as int) == line_end(text@, end as int),
        decreases text@.len() - end,
    {
        end += 1;
    }
    end
}

/// The place of the first byte at or after `from` that is no blank.
pub fn find_token_start(line: &[u8], from: usize) -> (start: usize)
    requires
        from <= line@.len(),
    ensures
        start == skip_blanks(line@, from as int),
        from <= start <= line@.len(),
{
    let mut start = from;
    while start < line.len() && blank(line[start])
        invariant
            from <= start <= line@.len(),
            skip_blanks(line@, from as int) == skip_blanks(line@, start as int),
        decreases line@.len() - start,
    {
        start += 1;
    }
    start
}

/// The place of the first blank at or after `from`.
pub fn find_token_end(line: &[u8], from: usize) -> (end: usize)
    requires
        from <= line@.len(),
    ensures
        end == token_end(line@, from as int),
        from <= end <= line@.len(),
{
    let mut end = from;
    while end < line.len() && !blank(line[end])
        invariant
            from <= end <= line@.len(),
            token_end(line@, from as int) == token_end(line@, end as int),
        decreases line@.len() - end,
    {
        end += 1;
    }
    end
}

/// Reads a token as a number.
pub fn parse_number(token: &[u8]) -> (value: Option<usize>)
    ensures
        value == number(token@),
{
    let mut i: usize = 0;
    if token.len() > 0 && token[0] == PLUS_SIGN {
        i = 1;
    }
    let first = i;
    let ghost digits = unsigned_part(token@);
    if i == token.len() {
        return None;
    }
    let mut value: usize = 0;
    assert(digits.take(0) =~= Seq::<u8>::empty());
    while i < token.len()
        invariant
            first <= i <= token@.len(),
            first <= 1,
            digits == token@.skip(first as int),
            digits == unsigned_part(token@),
            all_digits(digits.take(i - first)),
            value == digits_value(digits.take(i - first)),
        decreases token@.len() - i,
    {
        let b = token[i];
        assert(digits[i - first] == b);
        if b < DIGIT_ZERO || b > DIGIT_NINE {
            return None;
        }
        let d = (b - DIGIT_ZERO) as usize;
        proof {
            assert(digits.take(i + 1 - first).drop_last() =~= digits.take(i - first));
            assert(all_digits(digits.take(i + 1 - first)));
        }
        if value > (usize::MAX - d) / 10 {
            proof {
                if all_digits(digits) {
                    lemma_digits_value_grows(digits, i + 1 - first);
                }
            }
            return None;
        }
        value = value * 10 + d;
        i += 1;
    }
    assert(digits.take(i - first) =~= digits);
    Some(value)
}

/// Reads a line as an edge of a graph of `n` nodes.
pub fn parse_edge(line: &[u8], n: usize) -> (edge: Result<(usize, usize), FormatErrorKind>)
    ensures
        edge == edge_of(line@, n as nat),
{
    let first_start = find_token_start(line, 0);
    if first_start >= line.len() {
        return Err(FormatErrorKind::MissingToken);
    }
    proof {
        lemma_skip_blanks_bounds(line@, 0);
        lemma_token_end_bounds(line@, first_start as int);
    }
    let first_end = find_token_end(line, first_start);
    let second_start = find_token_start(line, first_end);
    if second_start >= line.len() {
        assert(tokens(line@).len() == 1) by {
            assert(tokens_from(line@, first_end as int) =~= Seq::<Seq<u8>>::empty());
        }
        return Err(FormatErrorKind::MissingToken);
    }
    proof {
        lemma_skip_blanks_bounds(line@, first_end as int);
        lemma_token_end_bounds(line@, second_start as int);
    }
    let second_end = find_token_end(line, second_start);
    proof {
        let rest = tokens_from(line@, second_end as int);
        let second = line@.subrange(second_start as int, second_end as int);
        let first = line@.subrange(first_start as int, first_end as int);
        assert(tokens_from(line@, first_end as int) == seq![second] + rest);
        assert(tokens(line@) == seq![first] + (seq![second] + rest));
        assert(tokens(line@).len() >= 2);
        assert(tokens(line@)[0] == first);
        assert(tokens(line@)[1] == second);
    }
    let x = parse_number(slice_subrange(line, first_start, first_end));
    let y = parse_number(slice_subrange(line, second_start, second_end));
    match (x, y) {
        (Some(x), Some(y)) => {
            if x < n && y < n {
                Ok((x, y))
            } else {
                Err(FormatErrorKind::NodeOutOfRange)
            }
        },
        _ => Err(FormatErrorKind::MalformedNodeId),
    }
}

} // verus!
