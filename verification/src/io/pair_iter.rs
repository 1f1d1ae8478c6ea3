//! Lines that hold a pair of numbers.
//!
//! A text is read as bytes. Lines end at a line feed. The tokens of a line
//! are its runs of bytes other than ASCII white space; a byte outside
//! ASCII is part of a token like any other and never part of a number.

use itertools::Itertools;
use vstd::prelude::*;

verus! {

/// Whether `b` separates tokens: an ASCII blank, tab, line feed, vertical
/// tab, form feed or carriage return.
pub open spec fn is_space(b: u8) -> bool {
    b == 0x20 || (0x09 <= b && b <= 0x0d)
}

/// Whether `b` is a decimal digit.
pub open spec fn is_digit(b: u8) -> bool {
    0x30 <= b && b <= 0x39
}

/// The first position at or after `from` that holds no space; the length
/// of `line` if there is none.
pub open spec fn skip_spaces(line: Seq<u8>, from: int) -> int
    decreases line.len() - from,
{
    if from < 0 || from >= line.len() {
        line.len() as int
    } else if is_space(line[from]) {
        skip_spaces(line, from + 1)
    } else {
        from
    }
}

/// The first position at or after `from` that holds a space; the length of
/// `line` if there is none.
pub open spec fn token_end(line: Seq<u8>, from: int) -> int
    decreases line.len() - from,
{
    if from < 0 || from >= line.len() {
        line.len() as int
    } else if is_space(line[from]) {
        from
    } else {
        token_end(line, from + 1)
    }
}

/// The number that the decimal digits `digits` spell.
pub open spec fn decimal(digits: Seq<u8>) -> nat
    decreases digits.len(),
{
    if digits.len() == 0 {
        0
    } else {
        decimal(digits.drop_last()) * 10 + (digits.last() - 0x30) as nat
    }
}

/// The digits of a token: the token without a leading `+`.
pub open spec fn digits_of(token: Seq<u8>) -> Seq<u8> {
    if token.len() > 0 && token[0] == 0x2b {
        token.skip(1)
    } else {
        token
    }
}

/// The number that `token` spells: an optional `+`, then one or more
/// decimal digits whose value fits the machine. `None` for anything else.
pub open spec fn number(token: Seq<u8>) -> Option<usize> {
    let digits = digits_of(token);
    if digits.len() > 0 && (forall|i: int| 0 <= i < digits.len() ==> is_digit(#[trigger] digits[i]))
        && decimal(digits) <= usize::MAX {
        Some(decimal(digits) as usize)
    } else {
        None
    }
}

/// The token of `line` that begins at or after `from`, as its bounds.
pub open spec fn token_at(line: Seq<u8>, from: int) -> (int, int) {
    let begin = skip_spaces(line, from);
    (begin, token_end(line, begin))
}

/// Those of the first two tokens of `line` that spell a number, in order.
pub open spec fn leading_numbers(line: Seq<u8>) -> Seq<usize> {
    let first = token_at(line, 0);
    let second = token_at(line, first.1);
    let a = if first.0 < line.len() {
        number(line.subrange(first.0, first.1))
    } else {
        None
    };
    let b = if second.0 < line.len() {
        number(line.subrange(second.0, second.1))
    } else {
        None
    };
    let one = match a {
        Some(x) => seq![x],
        None => Seq::empty(),
    };
    match b {
        Some(y) => one.push(y),
        None => one,
    }
}

/// The pair that `line` holds: its first two tokens, if both spell a
/// number. What follows the second token does not matter, whatever bytes
/// it is made of.
pub open spec fn pair_of_line(line: Seq<u8>) -> Option<(usize, usize)> {
    let numbers = leading_numbers(line);
    if numbers.len() == 2 {
        Some((numbers[0], numbers[1]))
    } else {
        None
    }
}

/// The end of the line that begins at `from`: the position of the next
/// line feed, or the length of `text`.
pub open spec fn line_end(text: Seq<u8>, from: int) -> int
    decreases text.len() - from,
{
    if from < 0 || from >= text.len() {
        text.len() as int
    } else if text[from] == 0x0a {
        from
    } else {
        line_end(text, from + 1)
    }
}

/// Where the line after the one that begins at `from` begins.
pub open spec fn next_line(text: Seq<u8>, from: int) -> int {
    let end = line_end(text, from);
    if end < text.len() {
        end + 1
    } else {
        end
    }
}

/// The bounds that the three scans give lie within the line, in order.
pub proof fn lemma_scan_bounds(line: Seq<u8>, from: int)
    requires
        0 <= from <= line.len(),
    ensures
        from <= skip_spaces(line, from) <= line.len(),
        from <= token_end(line, from) <= line.len(),
        from <= line_end(line, from) <= line.len(),
        from < line.len() && !is_space(line[from]) ==> from < token_end(line, from),
    decreases line.len() - from,
{
    if from < line.len() {
        lemma_scan_bounds(line, from + 1);
    }
}

/// The pair of two numbers, if there are exactly two.
///
/// Calls `Itertools::collect_tuple` for a 2-tuple, which returns the two
/// items if the iterator yields exactly two, and `None` for fewer or more.
#[verifier::external_body]
fn both(numbers: Vec<usize>) -> (out: Option<(usize, usize)>)
    ensures
        out == if numbers@.len() == 2 {
            Some((numbers@[0], numbers@[1]))
        } else {
            None::<(usize, usize)>
        },
{
    numbers.into_iter().collect_tuple::<(usize, usize)>()
}

/// The position of the first byte at or after `from` that is no space.
fn seek_token(line: &[u8], from: usize) -> (at: usize)
    requires
        from <= line@.len(),
    ensures
        at == skip_spaces(line@, from as int),
        from <= at <= line@.len(),
{
    let mut at = from;
    while at < line.len() && (line[at] == 0x20 || (0x09 <= line[at] && line[at] <= 0x0d))
        invariant
            from <= at <= line@.len(),
            skip_spaces(line@, at as int) == skip_spaces(line@, from as int),
        decreases line@.len() - at,
    {
        at += 1;
    }
    at
}

/// The position of the first space at or after `from`.
fn seek_space(line: &[u8], from: usize) -> (at: usize)
    requires
        from <= line@.len(),
    ensures
        at == token_end(line@, from as int),
        from <= at <= line@.len(),
{
    let mut at = from;
    while at < line.len() && !(line[at] == 0x20 || (0x09 <= line[at] && line[at] <= 0x0d))
        invariant
            from <= at <= line@.len(),
            token_end(line@, at as int) == token_end(line@, from as int),
        decreases line@.len() - at,
    {
        at += 1;
    }
    at
}

/// The position of the first line feed at or after `from`.
fn seek_line_end(text: &[u8], from: usize) -> (at: usize)
    requires
        from <= text@.len(),
    ensures
        at == line_end(text@, from as int),
        from <= at <= text@.len(),
{
    let mut at = from;
    while at < text.len() && text[at] != 0x0a
        invariant
            from <= at <= text@.len(),
            line_end(text@, at as int) == line_end(text@, from as int),
        decreases text@.len() - at,
    {
        at += 1;
    }
    at
}

/// The number that the bytes of `line` between `begin` and `end` spell.
pub fn parse_number(line: &[u8], begin: usize, end: usize) -> (out: Option<usize>)
    requires
        begin <= end <= line@.len(),
    ensures
        out == number(line@.subrange(begin as int, end as int)),
{
    let ghost token = line@.subrange(begin as int, end as int);
    let mut i = begin;
    if i < end && line[i] == 0x2b {
        i += 1;
    }
    let first = i;
    let ghost digits = digits_of(token);
    proof {
        assert(digits =~= line@.subrange(first as int, end as int));
    }
    if first == end {
        return None;
    }
    let mut value: usize = 0;
    while i < end
        invariant
            begin <= first <= i <= end <= line@.len(),
            first < end,
            token == line@.subrange(begin as int, end as int),
            digits == digits_of(token),
            digits == line@.subrange(first as int, end as int),
            forall|k: int| 0 <= k < i - first ==> is_digit(#[trigger] digits[k]),
            value == decimal(digits.take(i - first)),
        decreases end - i,
    {
        let b = line[i];
        proof {
            assert(digits[i - first] == b);
            crate::seqs::lemma_take_push(digits, i - first);
        }
        if !(0x30 <= b && b <= 0x39) {
            return None;
        }
        let d = (b - 0x30) as usize;
        if value > (usize::MAX - d) / 10 {
            proof {
                assert(decimal(digits.take(i - first + 1)) > usize::MAX);
                if forall|k: int| 0 <= k < digits.len() ==> is_digit(#[trigger] digits[k]) {
                    lemma_decimal_grows(digits, i - first + 1);
                }
            }
            return None;
        }
        value = value * 10 + d;
        i += 1;
    }
    proof {
        crate::seqs::lemma_take_all(digits);
    }
    Some(value)
}

/// More digits never spell a smaller number.
pub proof fn lemma_decimal_grows(digits: Seq<u8>, k: int)
    requires
        0 <= k <= digits.len(),
        forall|i: int| 0 <= i < digits.len() ==> digits[i] >= 0x30,
    ensures
        decimal(digits.take(k)) <= decimal(digits),
    decreases digits.len() - k,
{
    if k < digits.len() {
        crate::seqs::lemma_take_push(digits, k);
        lemma_decimal_grows(digits, k + 1);
    } else {
        crate::seqs::lemma_take_all(digits);
    }
}

/// The pair that the bytes of `text` between `begin` and `end` hold.
pub fn parse_pair(text: &[u8], begin: usize, end: usize) -> (out: Option<(usize, usize)>)
    requires
        begin <= end <= text@.len(),
    ensures
        out == pair_of_line(text@.subrange(begin as int, end as int)),
{
    let line = slice_of(text, begin, end);
    let mut numbers: Vec<usize> = Vec::new();
    let a0 = seek_token(line, 0);
    let a1 = seek_space(line, a0);
    if a0 < line.len() {
        match parse_number(line, a0, a1) {
            Some(x) => {
                numbers.push(x);
            },
            None => {},
        }
    }
    let b0 = seek_token(line, a1);
    let b1 = seek_space(line, b0);
    if b0 < line.len() {
        match parse_number(line, b0, b1) {
            Some(y) => {
                numbers.push(y);
            },
            None => {},
        }
    }
    proof {
        assert(numbers@ =~= leading_numbers(line@));
    }
    both(numbers)
}

/// The part of `text` between `begin` and `end`.
fn slice_of(text: &[u8], begin: usize, end: usize) -> (out: &[u8])
    requires
        begin <= end <= text@.len(),
    ensures
        out@ == text@.subrange(begin as int, end as int),
{
    vstd::slice::slice_subrange(text, begin, end)
}

/// A cursor over the lines of a text that reads one pair of numbers per
/// line.
pub struct PairIterator<'a> {
    text: &'a [u8],
    at: usize,
}

impl<'a> PairIterator<'a> {
    /// The text.
    pub closed spec fn text(&self) -> Seq<u8> {
        self.text@
    }

    /// Where the next line begins.
    pub closed spec fn position(&self) -> int {
        self.at as int
    }

    /// The cursor is within the text.
    pub closed spec fn wf(&self) -> bool {
        self.at <= self.text@.len()
    }

    /// A cursor at the beginning of `text`.
    pub fn new(text: &'a [u8]) -> (out: Self)
        ensures
            out.wf(),
            out.text() == text@,
            out.position() == 0,
    {
        Self { text, at: 0 }
    }

    /// Reads the next line and returns the pair it holds; `None` for a
    /// line that holds none, and at the end of the text.
    pub fn next(&mut self) -> (out: Option<(usize, usize)>)
        requires
            old(self).wf(),
        ensures
            final(self).wf(),
            final(self).text() == old(self).text(),
            final(self).position() == next_line(old(self).text(), old(self).position()),
            out == pair_of_line(
                old(self).text().subrange(
                    old(self).position(),
                    line_end(old(self).text(), old(self).position()),
                ),
            ),
    {
        let begin = self.at;
        let end = seek_line_end(self.text, begin);
        self.at = if end < self.text.len() {
            end + 1
        } else {
            end
        };
        parse_pair(self.text, begin, end)
    }
}

} // verus!
