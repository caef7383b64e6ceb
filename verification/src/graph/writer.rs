//! Writes a state space in the dialect that [`SLIMTranslator`] reads, in its
//! plainest form: the states header, a line for each state, the transitions
//! header, and a line for each transition. Where there is no transition, an
//! empty line follows the transitions header, which may not be the last
//! line.
//!
//! [`SLIMTranslator`]: super::translator::SLIMTranslator

use vstd::prelude::*;
use super::state::StateView;
use super::text::{
    begins_with, decimal, digit_value, find_separator, is_digit, is_number, is_space,
    lemma_find_char_is, lines, lines_from, parse_id, push_char, separator, skip_spaces,
    strip_return, strip_sign, FIELD_MARK, TARGET_MARK,
};
use super::transition::Transition;
use super::translator::{
    arcs_between, arcs_of, block_end, contents, find_header, parse, pieces_from, sections,
    state_of, states_keyword, targets_of, transitions_keyword, ParseError, Sections,
};
use super::{StateSpace, StateSpaceView};

verus! {

// ---------------------------------------------------------------------------
// What is written
// ---------------------------------------------------------------------------

/// The character of the digit `d`.
pub open spec fn digit_char(d: nat) -> char {
    if d == 0 {
        '0'
    } else if d == 1 {
        '1'
    } else if d == 2 {
        '2'
    } else if d == 3 {
        '3'
    } else if d == 4 {
        '4'
    } else if d == 5 {
        '5'
    } else if d == 6 {
        '6'
    } else if d == 7 {
        '7'
    } else if d == 8 {
        '8'
    } else {
        '9'
    }
}

/// The digits that write `n` in base ten, without leading zeros.
pub open spec fn digits_of(n: nat) -> Seq<char>
    decreases n,
{
    if n < 10 {
        seq![digit_char(n)]
    } else {
        digits_of(n / 10).push(digit_char(n % 10))
    }
}

/// The line that writes a state: its identifier, the separator, its label.
pub open spec fn state_line(state: StateView) -> Seq<char> {
    digits_of(state.index as nat) + seq![FIELD_MARK, FIELD_MARK] + state.info
}

/// The line that writes a transition: its source, the separator, its
/// target.
pub open spec fn arc_line(transition: Transition) -> Seq<char> {
    digits_of(transition.from as nat) + seq![FIELD_MARK, FIELD_MARK] + digits_of(
        transition.to as nat,
    )
}

/// The lines that write a state space.
pub open spec fn document(space: StateSpaceView) -> Seq<Seq<char>> {
    seq![states_keyword()] + space.states.map_values(|state: StateView| state_line(state))
        + seq![transitions_keyword()] + space.transitions.map_values(
        |transition: Transition| arc_line(transition),
    ) + (if space.transitions.len() == 0 {
        seq![Seq::<char>::empty()]
    } else {
        Seq::<Seq<char>>::empty()
    })
}

/// The first `k` of `lines`, each with a line feed behind it.
pub open spec fn joined(lines: Seq<Seq<char>>, k: int) -> Seq<char>
    decreases k,
{
    if k <= 0 {
        Seq::empty()
    } else {
        joined(lines, k - 1) + lines[k - 1] + seq!['\n']
    }
}

/// The text that writes a state space.
pub open spec fn written(space: StateSpaceView) -> Seq<char> {
    joined(document(space), document(space).len() as int)
}

/// A label that a line can hold and give back: without a line feed in it and
/// without a carriage return at its end.
pub open spec fn plain(label: Seq<char>) -> bool {
    &&& forall|i: int| 0 <= i < label.len() ==> label[i] != '\n'
    &&& label.len() > 0 ==> label.last() != '\r'
}

// ---------------------------------------------------------------------------
// Writing
// ---------------------------------------------------------------------------

fn digit_of(d: usize) -> (c: char)
    requires
        d < 10,
    ensures
        c == digit_char(d as nat),
{
    if d == 0 {
        '0'
    } else if d == 1 {
        '1'
    } else if d == 2 {
        '2'
    } else if d == 3 {
        '3'
    } else if d == 4 {
        '4'
    } else if d == 5 {
        '5'
    } else if d == 6 {
        '6'
    } else if d == 7 {
        '7'
    } else if d == 8 {
        '8'
    } else {
        '9'
    }
}

fn push_number(out: &mut String, n: usize)
    ensures
        final(out)@ == old(out)@ + digits_of(n as nat),
    decreases n,
{
    if n >= 10 {
        push_number(out, n / 10);
    }
    push_char(out, digit_of(n % 10));
}

fn push_all(out: &mut String, text: &str)
    ensures
        final(out)@ == old(out)@ + text@,
{
    let mut i: usize = 0;
    let chars = super::text::chars_of(text);
    while i < chars.len()
        invariant
            i <= chars.len(),
            chars@ == text@,
            out@ == old(out)@ + text@.take(i as int),
        decreases chars.len() - i,
    {
        push_char(out, chars[i]);
        assert(text@.take(i + 1) == text@.take(i as int).push(text@[i as int]));
        i += 1;
    }
    assert(text@.take(chars.len() as int) == text@);
}

fn push_keyword(out: &mut String, states: bool)
    ensures
        final(out)@ == old(out)@ + (if states {
            states_keyword()
        } else {
            transitions_keyword()
        }) + seq!['\n'],
{
    if states {
        push_char(out, 'S');
        push_char(out, 't');
        push_char(out, 'a');
        push_char(out, 't');
        push_char(out, 'e');
        push_char(out, 's');
    } else {
        push_char(out, 'T');
        push_char(out, 'r');
        push_char(out, 'a');
        push_char(out, 'n');
        push_char(out, 's');
        push_char(out, 'i');
        push_char(out, 't');
        push_char(out, 'i');
        push_char(out, 'o');
        push_char(out, 'n');
        push_char(out, 's');
    }
    push_char(out, '\n');
}

/// Writes `space` as a text: [`written`] of its value. The translator reads
/// the text back as the same state space where every label is [`plain`].
pub fn write(space: &StateSpace) -> (text: String)
    ensures
        text@ == written(space@),
{
    let ghost doc = document(space@);
    let n = space.states.len();
    let m = space.transitions.len();
    let mut text = String::new();
    push_keyword(&mut text, true);
    assert(text@ == joined(doc, 1)) by {
        assert(joined(doc, 0) =~= Seq::<char>::empty());
        assert(doc[0] == states_keyword());
    }
    let mut i: usize = 0;
    while i < n
        invariant
            i <= n == space.states.len(),
            doc == document(space@),
            text@ == joined(doc, 1 + i),
        decreases n - i,
    {
        let ghost before = text@;
        push_number(&mut text, space.states[i].index);
        push_char(&mut text, FIELD_MARK);
        push_char(&mut text, FIELD_MARK);
        push_all(&mut text, space.states[i].info.as_str());
        push_char(&mut text, '\n');
        proof {
            assert(doc[1 + i] == state_line(space@.states[i as int]));
            assert(text@ == before + doc[1 + i] + seq!['\n']);
        }
        i += 1;
    }
    let ghost before = text@;
    push_keyword(&mut text, false);
    proof {
        assert(doc[1 + n] == transitions_keyword());
        assert(text@ == before + doc[1 + n] + seq!['\n']);
    }
    let mut j: usize = 0;
    while j < m
        invariant
            j <= m == space.transitions.len(),
            n == space.states.len(),
            doc == document(space@),
            text@ == joined(doc, 2 + n + j),
        decreases m - j,
    {
        let ghost before = text@;
        push_number(&mut text, space.transitions[j].from);
        push_char(&mut text, FIELD_MARK);
        push_char(&mut text, FIELD_MARK);
        push_number(&mut text, space.transitions[j].to);
        push_char(&mut text, '\n');
        proof {
            assert(doc[2 + n + j] == arc_line(space@.transitions[j as int]));
            assert(text@ == before + doc[2 + n + j] + seq!['\n']);
        }
        j += 1;
    }
    if m == 0 {
        let ghost before = text@;
        push_char(&mut text, '\n');
        proof {
            assert(doc[2 + n] == Seq::<char>::empty());
            assert(doc.len() == 3 + n);
            assert(text@ == before + doc[2 + n] + seq!['\n']);
        }
    } else {
        assert(doc.len() == 2 + n + m);
    }
    text
}


// ---------------------------------------------------------------------------
// Reading back what was written
// ---------------------------------------------------------------------------

/// The digits of a number are digits, and write that number.
proof fn lemma_digits(n: nat)
    ensures
        is_number(digits_of(n)),
        decimal(digits_of(n)) == n,
    decreases n,
{
    let digits = digits_of(n);
    if n >= 10 {
        lemma_digits(n / 10);
        assert(digits.drop_last() == digits_of(n / 10));
        assert(digits.last() == digit_char(n % 10));
        assert(is_digit(digit_char(n % 10)) && digit_value(digit_char(n % 10)) == n % 10);
        assert forall|i: int| 0 <= i < digits.len() implies is_digit(#[trigger] digits[i]) by {
            if i < digits.len() - 1 {
                assert(digits[i] == digits_of(n / 10)[i]);
            }
        }
    } else {
        assert(digits.drop_last() =~= Seq::<char>::empty());
        assert(decimal(digits.drop_last()) == 0);
        assert(is_digit(digit_char(n)) && digit_value(digit_char(n)) == n);
    }
}

/// The digits of an identifier are read back as that identifier.
proof fn lemma_digits_parse(id: usize)
    ensures
        parse_id(digits_of(id as nat)) == Some(id),
        digits_of(id as nat).len() > 0,
        forall|i: int|
            0 <= i < digits_of(id as nat).len() ==> is_digit(#[trigger] digits_of(id as nat)[i]),
{
    lemma_digits(id as nat);
    let digits = digits_of(id as nat);
    assert(is_digit(digits[0]));
    assert(strip_sign(digits) == digits);
}

/// More lines joined begin with fewer lines joined.
proof fn lemma_joined_prefix(lines: Seq<Seq<char>>, k: int, n: int)
    requires
        0 <= k <= n <= lines.len(),
    ensures
        joined(lines, k).len() <= joined(lines, n).len(),
        joined(lines, n).subrange(0, joined(lines, k).len() as int) == joined(lines, k),
    decreases n - k,
{
    if k < n {
        lemma_joined_prefix(lines, k, n - 1);
        let shorter = joined(lines, n - 1);
        let longer = joined(lines, n);
        assert(longer == shorter + lines[n - 1] + seq!['\n']);
        assert(longer.subrange(0, joined(lines, k).len() as int) =~= shorter.subrange(
            0,
            joined(lines, k).len() as int,
        ));
    } else {
        assert(joined(lines, n).subrange(0, joined(lines, n).len() as int) =~= joined(lines, n));
    }
}

/// Plain lines that are joined are the lines of the text they make.
proof fn lemma_lines_of_joined(all: Seq<Seq<char>>, k: int)
    requires
        0 <= k <= all.len(),
        forall|i: int| 0 <= i < all.len() ==> plain(#[trigger] all[i]),
    ensures
        lines_from(joined(all, all.len() as int), joined(all, k).len() as int) == all.subrange(
            k,
            all.len() as int,
        ),
    decreases all.len() - k,
{
    let n = all.len() as int;
    let text = joined(all, n);
    let start = joined(all, k).len() as int;
    lemma_joined_prefix(all, k, n);
    if k < n {
        lemma_joined_prefix(all, k + 1, n);
        lemma_lines_of_joined(all, k + 1);
        let line = all[k];
        let end = start + line.len();
        let head = joined(all, k + 1);
        assert(head == joined(all, k) + line + seq!['\n']);
        assert(plain(line));
        assert forall|i: int| start <= i < end implies text[i] != '\n' by {
            assert(text[i] == text.subrange(0, head.len() as int)[i]);
            assert(head[i] == line[i - start]);
        }
        assert(text[end] == '\n') by {
            assert(text[end] == text.subrange(0, head.len() as int)[end]);
        }
        lemma_find_char_is(text, '\n', start, end);
        assert(text.subrange(start, end) =~= line) by {
            assert forall|i: int| 0 <= i < line.len() implies text.subrange(start, end)[i]
                == line[i] by {
                assert(text[start + i] == text.subrange(0, head.len() as int)[start + i]);
                assert(head[start + i] == line[i]);
            }
        }
        assert(strip_return(line) == line);
        assert(seq![line] + all.subrange(k + 1, n) =~= all.subrange(k, n));
    } else {
        assert(text.subrange(0, text.len() as int) =~= text);
        assert(all.subrange(k, n) =~= Seq::<Seq<char>>::empty());
    }
}

/// The first separator of a line stands behind a stretch without field
/// marks.
proof fn lemma_separator_at(line: Seq<char>, start: int, at: int)
    requires
        0 <= start <= at,
        at + 2 <= line.len(),
        line[at] == FIELD_MARK,
        line[at + 1] == FIELD_MARK,
        forall|i: int| 0 <= i < at ==> line[i] != FIELD_MARK,
    ensures
        find_separator(line, start) == Some(at),
    decreases at - start,
{
    if start < at {
        lemma_separator_at(line, start + 1, at);
    }
}

/// A line without field marks has no separator.
proof fn lemma_no_separator(line: Seq<char>, start: int)
    requires
        0 <= start,
        forall|i: int| 0 <= i < line.len() ==> line[i] != FIELD_MARK,
    ensures
        find_separator(line, start) is None,
    decreases line.len() - start,
{
    if start + 2 <= line.len() {
        lemma_no_separator(line, start + 1);
    }
}

/// The line of a state is read back as that state.
proof fn lemma_state_line(state: StateView)
    ensures
        separator(state_line(state)) is Some,
        state_of(state_line(state)) == Some(state),
{
    let digits = digits_of(state.index as nat);
    let line = state_line(state);
    let at = digits.len() as int;
    lemma_digits_parse(state.index);
    assert forall|i: int| 0 <= i < at implies line[i] != FIELD_MARK by {
        assert(line[i] == digits[i]);
        assert(is_digit(digits[i]));
    }
    lemma_separator_at(line, 0, at);
    assert(line.subrange(0, at) =~= digits);
    assert(line.subrange(at + 2, line.len() as int) =~= state.info);
}

/// The line of a transition is read back as that transition, alone.
proof fn lemma_arc_line(transition: Transition)
    ensures
        separator(arc_line(transition)) is Some,
        arcs_of(arc_line(transition)) == Some(seq![transition]),
{
    let source = digits_of(transition.from as nat);
    let target = digits_of(transition.to as nat);
    let line = arc_line(transition);
    let at = source.len() as int;
    lemma_digits_parse(transition.from);
    lemma_digits_parse(transition.to);
    assert forall|i: int| 0 <= i < at implies line[i] != FIELD_MARK by {
        assert(line[i] == source[i]);
        assert(is_digit(source[i]));
    }
    lemma_separator_at(line, 0, at);
    assert(line.subrange(0, at) =~= source);
    let rest = line.subrange(at + 2, line.len() as int);
    assert(rest =~= target);
    assert forall|i: int| 0 <= i < target.len() implies target[i] != TARGET_MARK by {
        assert(is_digit(target[i]));
    }
    lemma_find_char_is(target, TARGET_MARK, 0, target.len() as int);
    let pieces = pieces_from(target, TARGET_MARK, 0);
    assert(target.subrange(0, target.len() as int) =~= target);
    assert(pieces =~= seq![target]);
    assert(pieces.map_values(|piece: Seq<char>| parse_id(piece).unwrap()) =~= seq![transition.to]);
    assert(targets_of(target) == Some(seq![transition.to]));
    assert(seq![transition.to].map_values(|to: usize| Transition { from: transition.from, to })
        =~= seq![transition]);
}

/// A keyword is a plain line without a separator that begins with itself.
proof fn lemma_keywords()
    ensures
        plain(states_keyword()),
        plain(transitions_keyword()),
        separator(states_keyword()) is None,
        separator(transitions_keyword()) is None,
        begins_with(states_keyword(), states_keyword()),
        begins_with(transitions_keyword(), transitions_keyword()),
{
    let s = states_keyword();
    let t = transitions_keyword();
    assert(s.len() == 6 && t.len() == 11);
    assert(s[0] == 'S' && s[1] == 't' && s[2] == 'a' && s[3] == 't' && s[4] == 'e' && s[5] == 's');
    assert(t[0] == 'T' && t[1] == 'r' && t[2] == 'a' && t[3] == 'n' && t[4] == 's' && t[5] == 'i'
        && t[6] == 't' && t[7] == 'i' && t[8] == 'o' && t[9] == 'n' && t[10] == 's');
    lemma_no_separator(s, 0);
    lemma_no_separator(t, 0);
    assert(!is_space(s[0]) && !is_space(t[0]));
    assert(skip_spaces(s, 0) == 0 && skip_spaces(t, 0) == 0);
}

/// A block of lines with separators ends where they end.
proof fn lemma_block(lines: Seq<Seq<char>>, start: int, end: int)
    requires
        0 <= start <= end <= lines.len(),
        forall|i: int| start <= i < end ==> separator(#[trigger] lines[i]) is Some,
        end < lines.len() ==> separator(lines[end]) is None,
    ensures
        block_end(lines, start) == end,
    decreases end - start,
{
    if start < end {
        lemma_block(lines, start + 1, end);
    }
}

/// The lines of the transitions of a written state space write those
/// transitions.
proof fn lemma_arcs_written(
    lines: Seq<Seq<char>>,
    transitions: Seq<Transition>,
    start: int,
    count: int,
)
    requires
        0 <= start,
        0 <= count <= transitions.len(),
        start + transitions.len() <= lines.len(),
        forall|j: int|
            0 <= j < transitions.len() ==> #[trigger] lines[start + j] == arc_line(transitions[j]),
    ensures
        arcs_between(lines, start, start + count) == transitions.take(count),
    decreases count,
{
    if count > 0 {
        lemma_arcs_written(lines, transitions, start, count - 1);
        assert(lines[start + (count - 1)] == arc_line(transitions[count - 1]));
        lemma_arc_line(transitions[count - 1]);
        assert(transitions.take(count - 1) + seq![transitions[count - 1]] =~= transitions.take(
            count,
        ));
    } else {
        assert(transitions.take(0) =~= Seq::<Transition>::empty());
    }
}

/// Where the lines of a written state space stand.
pub open spec fn written_sections(space: StateSpaceView) -> Sections {
    Sections {
        states_start: 1,
        states_end: 1 + space.states.len() as int,
        transitions_start: 2 + space.states.len() as int,
        transitions_end: 2 + space.states.len() as int + space.transitions.len() as int,
    }
}

/// The lines that write a state space, one by one.
proof fn lemma_document(space: StateSpaceView)
    ensures
        document(space).len() == 2 + space.states.len() + space.transitions.len() + (
        if space.transitions.len() == 0 {
            1int
        } else {
            0int
        }),
        document(space)[0] == states_keyword(),
        document(space)[1 + space.states.len() as int] == transitions_keyword(),
        space.transitions.len() == 0 ==> document(space)[2 + space.states.len() as int]
            == Seq::<char>::empty(),
        forall|i: int|
            0 <= i < space.states.len() ==> #[trigger] document(space)[1 + i] == state_line(
                space.states[i],
            ),
        forall|j: int|
            0 <= j < space.transitions.len() ==> #[trigger] document(space)[2
                + space.states.len() as int + j] == arc_line(space.transitions[j]),
{
}

/// The line of a state with a plain label is plain.
proof fn lemma_state_line_plain(state: StateView)
    requires
        plain(state.info),
    ensures
        plain(state_line(state)),
{
    lemma_digits_parse(state.index);
    let digits = digits_of(state.index as nat);
    let line = state_line(state);
    assert forall|k: int| 0 <= k < line.len() implies line[k] != '\n' by {
        if k < digits.len() {
            assert(line[k] == digits[k]);
            assert(is_digit(digits[k]));
        } else if k >= digits.len() + 2 {
            assert(line[k] == state.info[k - digits.len() - 2]);
        }
    }
    if state.info.len() > 0 {
        assert(line.last() == state.info.last());
    } else {
        assert(line.last() == FIELD_MARK);
    }
}

/// The line of a transition is plain.
proof fn lemma_arc_line_plain(transition: Transition)
    ensures
        plain(arc_line(transition)),
{
    lemma_digits_parse(transition.from);
    lemma_digits_parse(transition.to);
    let source = digits_of(transition.from as nat);
    let target = digits_of(transition.to as nat);
    let line = arc_line(transition);
    assert forall|k: int| 0 <= k < line.len() implies line[k] != '\n' by {
        if k < source.len() {
            assert(line[k] == source[k]);
            assert(is_digit(source[k]));
        } else if k >= source.len() + 2 {
            assert(line[k] == target[k - source.len() - 2]);
            assert(is_digit(target[k - source.len() - 2]));
        }
    }
    assert(line.last() == target.last());
    assert(is_digit(target[target.len() - 1]));
}

/// The lines of the text written for a state space with plain labels are
/// the lines that were written.
proof fn lemma_written_lines(space: StateSpaceView)
    requires
        forall|i: int| 0 <= i < space.states.len() ==> plain(#[trigger] space.states[i].info),
    ensures
        lines(written(space)) == document(space),
{
    let doc = document(space);
    let n = space.states.len() as int;
    let m = space.transitions.len() as int;
    lemma_document(space);
    lemma_keywords();
    assert forall|i: int| 0 <= i < doc.len() implies plain(#[trigger] doc[i]) by {
        if 1 <= i < 1 + n {
            assert(doc[1 + (i - 1)] == state_line(space.states[i - 1]));
            lemma_state_line_plain(space.states[i - 1]);
        } else if 2 + n <= i < 2 + n + m {
            assert(doc[2 + n + (i - 2 - n)] == arc_line(space.transitions[i - 2 - n]));
            lemma_arc_line_plain(space.transitions[i - 2 - n]);
        }
    }
    lemma_lines_of_joined(doc, 0);
    assert(joined(doc, 0).len() == 0);
    assert(doc.subrange(0, doc.len() as int) =~= doc);
}

/// The sections of a written state space are where they were written.
proof fn lemma_written_sections(space: StateSpaceView)
    ensures
        sections(document(space)) == Ok::<Sections, ParseError>(written_sections(space)),
{
    let doc = document(space);
    let n = space.states.len() as int;
    let m = space.transitions.len() as int;
    lemma_document(space);
    lemma_keywords();
    assert(find_header(doc, states_keyword(), 0) == Some(0int));
    assert forall|i: int| 1 <= i < 1 + n implies separator(#[trigger] doc[i]) is Some by {
        assert(doc[1 + (i - 1)] == state_line(space.states[i - 1]));
        lemma_state_line(space.states[i - 1]);
    }
    lemma_block(doc, 1, 1 + n);
    assert(find_header(doc, transitions_keyword(), 1 + n) == Some(1 + n));
    assert forall|i: int| 2 + n <= i < 2 + n + m implies separator(#[trigger] doc[i]) is Some by {
        assert(doc[2 + n + (i - 2 - n)] == arc_line(space.transitions[i - 2 - n]));
        lemma_arc_line(space.transitions[i - 2 - n]);
    }
    if m == 0 {
        assert(separator(doc[2 + n]) is None);
    }
    lemma_block(doc, 2 + n, 2 + n + m);
}

/// The data lines of a written state space are read back as that state
/// space.
proof fn lemma_written_contents(space: StateSpaceView)
    ensures
        contents(document(space), written_sections(space)) == Ok::<StateSpaceView, ParseError>(
            space,
        ),
{
    let doc = document(space);
    let n = space.states.len() as int;
    let m = space.transitions.len() as int;
    let at = written_sections(space);
    lemma_document(space);
    assert forall|i: int| at.states_start <= i < at.states_end implies state_of(
        #[trigger] doc[i],
    ) == Some(space.states[i - 1]) by {
        assert(doc[1 + (i - 1)] == state_line(space.states[i - 1]));
        lemma_state_line(space.states[i - 1]);
    }
    assert forall|i: int| at.transitions_start <= i < at.transitions_end implies arcs_of(
        #[trigger] doc[i],
    ) is Some by {
        assert(doc[2 + n + (i - 2 - n)] == arc_line(space.transitions[i - 2 - n]));
        lemma_arc_line(space.transitions[i - 2 - n]);
    }
    lemma_arcs_written(doc, space.transitions, 2 + n, m);
    assert(space.transitions.take(m) =~= space.transitions);
    let read = contents(doc, at)->Ok_0;
    assert(read.states =~= space.states);
    assert(read.transitions == space.transitions);
}

/// Reading gives back what was written.
///
/// The text written for a state space whose labels are all plain is read
/// as that state space: the same states and the same transitions, in the
/// same order.
pub proof fn lemma_read_what_was_written(space: StateSpaceView)
    requires
        forall|i: int| 0 <= i < space.states.len() ==> plain(#[trigger] space.states[i].info),
    ensures
        parse(written(space)) == Ok::<StateSpaceView, ParseError>(space),
{
    lemma_written_lines(space);
    lemma_written_sections(space);
    lemma_written_contents(space);
}

} // verus!
