//! Characters, lines and decimal numbers: the lexical layer under the
//! translator.
//!
//! Everything here is stated over `Seq<char>`, the view of a string, so that
//! the grammar above it reads as mathematics. The executable functions work
//! on `Vec<char>` and are proved to compute the specification functions.

use vstd::prelude::*;

verus! {

broadcast use vstd::string::group_string_axioms;

/// The separator between the fields of a data line is two of these.
pub const FIELD_MARK: char = ':';

/// The separator between the targets of a transition line.
pub const TARGET_MARK: char = ',';

// ---------------------------------------------------------------------------
// Searching
// ---------------------------------------------------------------------------

/// The first position at or after `start` that holds `c`, or the length of
/// `s` where there is none.
pub open spec fn find_char(s: Seq<char>, c: char, start: int) -> int
    decreases s.len() - start,
{
    if start >= s.len() || s[start] == c {
        start
    } else {
        find_char(s, c, start + 1)
    }
}

/// `find_char` stops at or after `start`, within `s`.
pub proof fn lemma_find_char_bound(s: Seq<char>, c: char, start: int)
    requires
        0 <= start <= s.len(),
    ensures
        start <= find_char(s, c, start) <= s.len(),
    decreases s.len() - start,
{
    if start < s.len() && s[start] != c {
        lemma_find_char_bound(s, c, start + 1);
    }
}

/// A stretch without `c` that ends at `end` (at a `c`, or at the end of `s`)
/// is where `find_char` stops.
pub(crate) proof fn lemma_find_char_is(s: Seq<char>, c: char, start: int, end: int)
    requires
        0 <= start <= end <= s.len(),
        forall|i: int| start <= i < end ==> s[i] != c,
        end < s.len() ==> s[end] == c,
    ensures
        find_char(s, c, start) == end,
    decreases end - start,
{
    if start < end {
        lemma_find_char_is(s, c, start + 1, end);
    }
}

/// Executable `find_char`.
pub fn find_char_in(s: &Vec<char>, c: char, start: usize) -> (end: usize)
    requires
        start <= s.len(),
    ensures
        end == find_char(s@, c, start as int),
        start <= end <= s.len(),
{
    let mut i: usize = start;
    while i < s.len() && s[i] != c
        invariant
            start <= i <= s.len(),
            forall|j: int| start <= j < i ==> s@[j] != c,
        decreases s.len() - i,
    {
        i += 1;
    }
    proof {
        lemma_find_char_is(s@, c, start as int, i as int);
    }
    i
}

/// A copy of the characters of `s` from `start` up to `end`.
pub fn copy_range(s: &Vec<char>, start: usize, end: usize) -> (part: Vec<char>)
    requires
        start <= end <= s.len(),
    ensures
        part@ == s@.subrange(start as int, end as int),
{
    let mut part: Vec<char> = Vec::new();
    let mut i: usize = start;
    while i < end
        invariant
            start <= i <= end <= s.len(),
            part@ == s@.subrange(start as int, i as int),
        decreases end - i,
    {
        part.push(s[i]);
        i += 1;
    }
    part
}

// ---------------------------------------------------------------------------
// Strings
// ---------------------------------------------------------------------------

/// `String::push`: appends one character to the end of the string.
#[verifier::external_body]
pub(crate) fn push_char(s: &mut String, c: char)
    ensures
        final(s)@ == old(s)@.push(c),
{
    s.push(c)
}

/// The characters of `text`, in order.
pub fn chars_of(text: &str) -> (chars: Vec<char>)
    ensures
        chars@ == text@,
{
    let mut chars: Vec<char> = Vec::new();
    for c in it: text.chars()
        invariant
            chars@ == it.seq().take(it.index() as int),
            it.seq() == text@,
    {
        chars.push(c);
    }
    chars
}

/// The string made of the characters of `s` from `start` on.
pub fn string_from(s: &Vec<char>, start: usize) -> (text: String)
    requires
        start <= s.len(),
    ensures
        text@ == s@.subrange(start as int, s.len() as int),
{
    let mut text = String::new();
    let mut i: usize = start;
    while i < s.len()
        invariant
            start <= i <= s.len(),
            text@ == s@.subrange(start as int, i as int),
        decreases s.len() - i,
    {
        push_char(&mut text, s[i]);
        i += 1;
    }
    text
}

// ---------------------------------------------------------------------------
// Lines
// ---------------------------------------------------------------------------

/// `s` without one trailing carriage return, if it has one.
pub open spec fn strip_return(s: Seq<char>) -> Seq<char> {
    if s.len() > 0 && s.last() == '\r' {
        s.drop_last()
    } else {
        s
    }
}

/// The lines of `text` from position `start` on.
///
/// A line ends at a line feed, which is not part of it; a carriage return
/// just before that line feed is not part of it either. What follows the last
/// line feed is a line of its own unless it is empty, and keeps a trailing
/// carriage return.
pub open spec fn lines_from(text: Seq<char>, start: int) -> Seq<Seq<char>>
    decreases text.len() - start,
{
    if start < 0 || start >= text.len() {
        Seq::empty()
    } else {
        let end = find_char(text, '\n', start);
        if end >= text.len() {
            seq![text.subrange(start, text.len() as int)]
        } else {
            proof {
                lemma_find_char_bound(text, '\n', start);
            }
            seq![strip_return(text.subrange(start, end))] + lines_from(text, end + 1)
        }
    }
}

/// The lines of `text`.
pub open spec fn lines(text: Seq<char>) -> Seq<Seq<char>> {
    lines_from(text, 0)
}

/// The view of a vector of lines.
pub open spec fn lines_view(lines: Seq<Vec<char>>) -> Seq<Seq<char>> {
    lines.map_values(|line: Vec<char>| line@)
}

/// Splits `text` into its lines.
pub fn split_lines(text: &Vec<char>) -> (result: Vec<Vec<char>>)
    ensures
        lines_view(result@) == lines(text@),
{
    let mut result: Vec<Vec<char>> = Vec::new();
    let mut start: usize = 0;
    while start < text.len()
        invariant
            start <= text.len(),
            lines_view(result@) + lines_from(text@, start as int) == lines(text@),
        decreases text.len() - start,
    {
        let end = find_char_in(text, '\n', start);
        let ghost before = lines_view(result@);
        if end >= text.len() {
            let line = copy_range(text, start, text.len());
            result.push(line);
            proof {
                assert(lines_view(result@) == before.push(line@));
                assert(before.push(line@) == before + seq![line@]);
                assert(lines_from(text@, text.len() as int) == Seq::<Seq<char>>::empty());
            }
            start = text.len();
        } else {
            let stop = if end > start && text[end - 1] == '\r' {
                end - 1
            } else {
                end
            };
            let line = copy_range(text, start, stop);
            proof {
                let whole = text@.subrange(start as int, end as int);
                if end > start && text@[end - 1] == '\r' {
                    assert(whole.last() == '\r');
                    assert(whole.drop_last() == line@);
                }
                assert(line@ == strip_return(whole));
            }
            result.push(line);
            proof {
                assert(lines_view(result@) == before.push(line@));
                assert(before.push(line@) + lines_from(text@, end + 1) == before + (seq![line@]
                    + lines_from(text@, end + 1)));
            }
            start = end + 1;
        }
    }
    result
}

// ---------------------------------------------------------------------------
// White space and letters
// ---------------------------------------------------------------------------

/// Whether `c` is white space: the characters with the Unicode property
/// `White_Space`.
pub open spec fn is_space(c: char) -> bool {
    let u = c as u32;
    ||| 0x09 <= u <= 0x0D
    ||| u == 0x20
    ||| u == 0x85
    ||| u == 0xA0
    ||| u == 0x1680
    ||| 0x2000 <= u <= 0x200A
    ||| u == 0x2028
    ||| u == 0x2029
    ||| u == 0x202F
    ||| u == 0x205F
    ||| u == 0x3000
}

/// Executable `is_space`.
pub fn is_space_char(c: char) -> (space: bool)
    ensures
        space == is_space(c),
{
    let u = c as u32;
    (0x09 <= u && u <= 0x0D) || u == 0x20 || u == 0x85 || u == 0xA0 || u == 0x1680 || (0x2000 <= u
        && u <= 0x200A) || u == 0x2028 || u == 0x2029 || u == 0x202F || u == 0x205F || u == 0x3000
}

/// The first position at or after `start` that holds no white space, or the
/// length of `s`.
pub open spec fn skip_spaces(s: Seq<char>, start: int) -> int
    decreases s.len() - start,
{
    if start >= s.len() || !is_space(s[start]) {
        start
    } else {
        skip_spaces(s, start + 1)
    }
}

/// The code of `c` with the letters `A` to `Z` mapped to `a` to `z`.
pub open spec fn fold_case(c: char) -> u32 {
    let u = c as u32;
    if 0x41 <= u <= 0x5A {
        (u + 0x20) as u32
    } else {
        u
    }
}

/// Executable `fold_case`.
pub fn fold_case_char(c: char) -> (code: u32)
    ensures
        code == fold_case(c),
{
    let u = c as u32;
    if 0x41 <= u && u <= 0x5A {
        u + 0x20
    } else {
        u
    }
}

/// Whether `line`, after its leading white space, begins with `keyword`,
/// letter case aside.
pub open spec fn begins_with(line: Seq<char>, keyword: Seq<char>) -> bool {
    let at = skip_spaces(line, 0);
    &&& at + keyword.len() <= line.len()
    &&& forall|i: int|
        0 <= i < keyword.len() ==> fold_case(#[trigger] line[at + i]) == fold_case(keyword[i])
}

/// Executable `begins_with`.
pub fn line_begins_with(line: &Vec<char>, keyword: &Vec<char>) -> (found: bool)
    ensures
        found == begins_with(line@, keyword@),
{
    let mut at: usize = 0;
    while at < line.len() && is_space_char(line[at])
        invariant
            at <= line.len(),
            skip_spaces(line@, 0) == skip_spaces(line@, at as int),
        decreases line.len() - at,
    {
        at += 1;
    }
    assert(at == skip_spaces(line@, 0));
    if keyword.len() > line.len() - at {
        return false;
    }
    let mut i: usize = 0;
    while i < keyword.len()
        invariant
            at + keyword.len() <= line.len(),
            i <= keyword.len(),
            at == skip_spaces(line@, 0),
            forall|j: int|
                0 <= j < i ==> fold_case(#[trigger] line@[at + j]) == fold_case(keyword@[j]),
        decreases keyword.len() - i,
    {
        if fold_case_char(line[at + i]) != fold_case_char(keyword[i]) {
            return false;
        }
        i += 1;
    }
    true
}

// ---------------------------------------------------------------------------
// Fields
// ---------------------------------------------------------------------------

/// The position of the first field separator (two field marks in a row) at or
/// after `start`, if there is one.
pub open spec fn find_separator(line: Seq<char>, start: int) -> Option<int>
    decreases line.len() - start,
{
    if start + 2 > line.len() {
        None
    } else if line[start] == FIELD_MARK && line[start + 1] == FIELD_MARK {
        Some(start)
    } else {
        find_separator(line, start + 1)
    }
}

/// Where the first field of `line` ends, if `line` has more than one field.
pub open spec fn separator(line: Seq<char>) -> Option<int> {
    find_separator(line, 0)
}

/// Executable `separator`.
pub fn separator_of(line: &Vec<char>) -> (found: Option<usize>)
    ensures
        match found {
            Some(at) => separator(line@) == Some(at as int) && at + 2 <= line.len(),
            None => separator(line@) is None,
        },
{
    if line.len() < 2 {
        return None;
    }
    let mut i: usize = 0;
    while i < line.len() - 1
        invariant
            i + 1 <= line.len(),
            2 <= line.len(),
            find_separator(line@, 0) == find_separator(line@, i as int),
        decreases line.len() - i,
    {
        if line[i] == FIELD_MARK && line[i + 1] == FIELD_MARK {
            return Some(i);
        }
        i += 1;
    }
    None
}

// ---------------------------------------------------------------------------
// Decimal numbers
// ---------------------------------------------------------------------------

/// Whether `c` is one of the digits `0` to `9`.
pub open spec fn is_digit(c: char) -> bool {
    0x30 <= c as u32 <= 0x39
}

/// The value of the digit `c`.
pub open spec fn digit_value(c: char) -> nat {
    (c as u32 - 0x30) as nat
}

/// The number that the digits of `s` write in base ten.
pub open spec fn decimal(s: Seq<char>) -> nat
    decreases s.len(),
{
    if s.len() == 0 {
        0
    } else {
        10 * decimal(s.drop_last()) + digit_value(s.last())
    }
}

/// Whether `s` is one digit or more and nothing else.
pub open spec fn is_number(s: Seq<char>) -> bool {
    s.len() > 0 && forall|i: int| 0 <= i < s.len() ==> is_digit(#[trigger] s[i])
}

/// `s` without one leading plus sign, if it has one.
pub open spec fn strip_sign(s: Seq<char>) -> Seq<char> {
    if s.len() > 0 && s[0] == '+' {
        s.subrange(1, s.len() as int)
    } else {
        s
    }
}

/// The identifier that `s` writes: an optional plus sign, then decimal
/// digits whose value fits the machine word. Anything else writes none.
pub open spec fn parse_id(s: Seq<char>) -> Option<usize> {
    let digits = strip_sign(s);
    if is_number(digits) && decimal(digits) <= usize::MAX {
        Some(decimal(digits) as usize)
    } else {
        None
    }
}

/// A number is at least as large as the number that any of its prefixes
/// writes.
proof fn lemma_decimal_prefix(s: Seq<char>, k: int)
    requires
        0 <= k <= s.len(),
    ensures
        decimal(s.take(k)) <= decimal(s),
    decreases s.len() - k,
{
    if k < s.len() {
        lemma_decimal_prefix(s, k + 1);
        assert(s.take(k + 1).drop_last() == s.take(k));
    } else {
        assert(s.take(k) == s);
    }
}

/// Executable `parse_id` on the characters of `s` from `start` up to `end`.
pub fn parse_id_in(s: &Vec<char>, start: usize, end: usize) -> (id: Option<usize>)
    requires
        start <= end <= s.len(),
    ensures
        id == parse_id(s@.subrange(start as int, end as int)),
{
    let ghost field = s@.subrange(start as int, end as int);
    let first = if start < end && s[start] == '+' {
        start + 1
    } else {
        start
    };
    let ghost digits = s@.subrange(first as int, end as int);
    proof {
        if start < end && s@[start as int] == '+' {
            assert(field[0] == '+');
            assert(field.subrange(1, field.len() as int) == digits);
        } else if start < end {
            assert(field[0] == s@[start as int]);
        }
        assert(strip_sign(field) == digits);
    }
    if first == end {
        return None;
    }
    let mut value: usize = 0;
    let mut i: usize = first;
    while i < end
        invariant
            first <= i <= end <= s.len(),
            first < end,
            field == s@.subrange(start as int, end as int),
            digits == s@.subrange(first as int, end as int),
            strip_sign(field) == digits,
            forall|j: int| 0 <= j < i - first ==> is_digit(#[trigger] digits[j]),
            value == decimal(digits.take(i - first)),
        decreases end - i,
    {
        let c = s[i];
        let u = c as u32;
        assert(digits[i - first] == c);
        if u < 0x30 || u > 0x39 {
            return None;
        }
        let d = (u - 0x30) as usize;
        proof {
            assert(digits.take(i - first + 1).drop_last() == digits.take(i - first));
            assert(digits.take(i - first + 1).last() == c);
            assert(decimal(digits.take(i - first + 1)) == 10 * value + d);
            lemma_decimal_prefix(digits, i - first + 1);
        }
        if value > (usize::MAX - d) / 10 {
            return None;
        }
        value = 10 * value + d;
        i += 1;
    }
    proof {
        assert(digits.take(end - first) == digits);
    }
    Some(value)
}

} // verus!
