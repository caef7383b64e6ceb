//! Translators from textual dumps to state spaces.
//!
//! The dialect read by [`SLIMTranslator`] is line oriented. A line that
//! begins with `States` opens the states section, a later line that begins
//! with `Transitions` opens the transitions section; both keywords are
//! matched after leading white space and without regard to letter case. The
//! lines of a section have two or more fields, separated by `::`; the first
//! line with fewer ends the section.
//!
//! ```text
//! States
//! 0::idle
//! 1::busy
//! Transitions
//! 0::1
//! 1::0,1
//! ```

use vstd::prelude::*;
use super::state::{State, StateView};
use super::text::{
    begins_with, chars_of, copy_range, find_char, find_char_in, lemma_find_char_bound,
    line_begins_with, lines, lines_view,
    parse_id, parse_id_in, separator, separator_of, split_lines, string_from, TARGET_MARK,
};
use super::transition::Transition;
use super::{StateSpace, StateSpaceView};

verus! {

/// Why a text is not a state space.
#[derive(Debug, Clone, Copy, PartialEq, Eq, Structural)]
pub enum ParseError {
    /// No line opens the states section, or the line that opens it is the
    /// last line.
    MissingStatesSection,
    /// No line at or after the end of the states section opens the
    /// transitions section, or the line that opens it is the last line.
    MissingTransitionsSection,
    /// A state or transition line names a state by something that is not an
    /// identifier.
    InvalidId,
    /// The dialect is not implemented.
    Unsupported,
}

/// A reader of one dialect of state-space dumps.
pub trait Translator {
    type ErrorType;

    fn translate(text: &str) -> Result<StateSpace, Self::ErrorType>;
}

// ---------------------------------------------------------------------------
// The grammar
// ---------------------------------------------------------------------------

/// The keyword that opens the states section.
pub open spec fn states_keyword() -> Seq<char> {
    seq!['S', 't', 'a', 't', 'e', 's']
}

/// The keyword that opens the transitions section.
pub open spec fn transitions_keyword() -> Seq<char> {
    seq!['T', 'r', 'a', 'n', 's', 'i', 't', 'i', 'o', 'n', 's']
}

/// The first line at or after `start` that begins with `keyword`.
pub open spec fn find_header(lines: Seq<Seq<char>>, keyword: Seq<char>, start: int) -> Option<int>
    decreases lines.len() - start,
{
    if start >= lines.len() {
        None
    } else if begins_with(lines[start], keyword) {
        Some(start)
    } else {
        find_header(lines, keyword, start + 1)
    }
}

/// The first line at or after `start` that has fewer than two fields, or the
/// number of lines where every line from `start` on has two.
pub open spec fn block_end(lines: Seq<Seq<char>>, start: int) -> int
    decreases lines.len() - start,
{
    if start >= lines.len() || separator(lines[start]) is None {
        start
    } else {
        block_end(lines, start + 1)
    }
}

/// Where the data lines of the two sections stand: each section from its
/// first line up to, and without, the line that ends it.
pub ghost struct Sections {
    pub states_start: int,
    pub states_end: int,
    pub transitions_start: int,
    pub transitions_end: int,
}

/// The sections of a text, by its lines.
///
/// The states section starts after the first line that begins with the states
/// keyword. The line that ends it is no state, and the search for the line
/// that opens the transitions section starts with that very line. Each of the two
/// opening lines must have a line after it.
pub open spec fn sections(lines: Seq<Seq<char>>) -> Result<Sections, ParseError> {
    match find_header(lines, states_keyword(), 0) {
        None => Err(ParseError::MissingStatesSection),
        Some(opening) => if opening + 1 >= lines.len() {
            Err(ParseError::MissingStatesSection)
        } else {
            let states_end = block_end(lines, opening + 1);
            match find_header(lines, transitions_keyword(), states_end) {
                None => Err(ParseError::MissingTransitionsSection),
                Some(second) => if second + 1 >= lines.len() {
                    Err(ParseError::MissingTransitionsSection)
                } else {
                    Ok(
                        Sections {
                            states_start: opening + 1,
                            states_end,
                            transitions_start: second + 1,
                            transitions_end: block_end(lines, second + 1),
                        },
                    )
                },
            }
        },
    }
}

/// The state that a line of the states section writes: the identifier in its
/// first field, and as label everything after the first separator, further
/// separators included.
pub open spec fn state_of(line: Seq<char>) -> Option<StateView> {
    match separator(line) {
        None => None,
        Some(at) => match parse_id(line.subrange(0, at)) {
            None => None,
            Some(index) => Some(
                StateView { index, info: line.subrange(at + 2, line.len() as int) },
            ),
        },
    }
}

/// The pieces of `s` between the occurrences of `mark`, from `start` on.
/// There is one piece more than there are marks, so the last piece is empty
/// where `s` ends with a mark.
pub open spec fn pieces_from(s: Seq<char>, mark: char, start: int) -> Seq<Seq<char>>
    decreases s.len() - start,
{
    let end = find_char(s, mark, start);
    if start < 0 || end >= s.len() {
        seq![s.subrange(start, s.len() as int)]
    } else {
        proof {
            lemma_find_char_bound(s, mark, start);
        }
        seq![s.subrange(start, end)] + pieces_from(s, mark, end + 1)
    }
}

/// The targets that the rest of a transition line lists. An empty rest lists
/// none. Otherwise every piece between the target marks must be an
/// identifier, an empty piece included.
pub open spec fn targets_of(rest: Seq<char>) -> Option<Seq<usize>> {
    let pieces = pieces_from(rest, TARGET_MARK, 0);
    if rest.len() == 0 {
        Some(Seq::empty())
    } else if forall|i: int| 0 <= i < pieces.len() ==> parse_id(#[trigger] pieces[i]) is Some {
        Some(pieces.map_values(|piece: Seq<char>| parse_id(piece).unwrap()))
    } else {
        None
    }
}

/// The transitions that a line of the transitions section writes: one from
/// the state in its first field to each target listed after the first
/// separator, in the order listed.
pub open spec fn arcs_of(line: Seq<char>) -> Option<Seq<Transition>> {
    match separator(line) {
        None => None,
        Some(at) => match parse_id(line.subrange(0, at)) {
            None => None,
            Some(from) => match targets_of(line.subrange(at + 2, line.len() as int)) {
                None => None,
                Some(targets) => Some(targets.map_values(|to: usize| Transition { from, to })),
            },
        },
    }
}

/// The transitions written by the lines from `start` up to `end`, line after
/// line. Meant for lines that all write transitions.
pub open spec fn arcs_between(lines: Seq<Seq<char>>, start: int, end: int) -> Seq<Transition>
    decreases end - start,
{
    if end <= start {
        Seq::empty()
    } else {
        arcs_between(lines, start, end - 1) + match arcs_of(lines[end - 1]) {
            Some(arcs) => arcs,
            None => Seq::empty(),
        }
    }
}

/// The state space that the data lines of the two sections write. One line
/// that writes no state, or no transitions, spoils the whole.
pub open spec fn contents(lines: Seq<Seq<char>>, at: Sections) -> Result<
    StateSpaceView,
    ParseError,
> {
    if (forall|i: int| at.states_start <= i < at.states_end ==> state_of(#[trigger] lines[i]) is Some)
        && (forall|i: int|
        at.transitions_start <= i < at.transitions_end ==> arcs_of(#[trigger] lines[i]) is Some) {
        Ok(
            StateSpaceView {
                states: Seq::new(
                    (at.states_end - at.states_start) as nat,
                    |k: int| state_of(lines[at.states_start + k]).unwrap(),
                ),
                transitions: arcs_between(lines, at.transitions_start, at.transitions_end),
            },
        )
    } else {
        Err(ParseError::InvalidId)
    }
}

/// What a text means: the state space it writes, or why it writes none. A
/// missing section is reported before any identifier is looked at.
pub open spec fn parse(text: Seq<char>) -> Result<StateSpaceView, ParseError> {
    match sections(lines(text)) {
        Err(error) => Err(error),
        Ok(at) => contents(lines(text), at),
    }
}

// ---------------------------------------------------------------------------
// What the grammar implies
// ---------------------------------------------------------------------------

/// Where no line from `start` on begins with `keyword`, no header is found.
proof fn lemma_no_header(lines: Seq<Seq<char>>, keyword: Seq<char>, start: int)
    requires
        0 <= start,
        forall|i: int| start <= i < lines.len() ==> !begins_with(#[trigger] lines[i], keyword),
    ensures
        find_header(lines, keyword, start) is None,
    decreases lines.len() - start,
{
    if start < lines.len() {
        lemma_no_header(lines, keyword, start + 1);
    }
}

/// A block of data lines ends at or after its start, within the text.
proof fn lemma_block_end(lines: Seq<Seq<char>>, start: int)
    requires
        0 <= start <= lines.len(),
    ensures
        start <= block_end(lines, start) <= lines.len(),
    decreases lines.len() - start,
{
    if start < lines.len() && separator(lines[start]) is Some {
        lemma_block_end(lines, start + 1);
    }
}

/// A header that is found stands at or after the start of the search.
proof fn lemma_header_found(lines: Seq<Seq<char>>, keyword: Seq<char>, start: int)
    requires
        0 <= start,
    ensures
        match find_header(lines, keyword, start) {
            Some(at) => start <= at < lines.len() && begins_with(lines[at], keyword),
            None => true,
        },
    decreases lines.len() - start,
{
    if start < lines.len() && !begins_with(lines[start], keyword) {
        lemma_header_found(lines, keyword, start + 1);
    }
}

/// A text without a line that begins with the transitions keyword is
/// refused for its missing section, whatever its states section holds: for
/// the missing states section where that is missing too, and else for the
/// missing transitions section, also where a state line names no
/// identifier.
pub proof fn lemma_missing_transitions(text: Seq<char>)
    requires
        forall|i: int|
            0 <= i < lines(text).len() ==> !begins_with(
                #[trigger] lines(text)[i],
                transitions_keyword(),
            ),
    ensures
        parse(text) == (match find_header(lines(text), states_keyword(), 0) {
            Some(opening) if opening + 1 < lines(text).len() => Err::<StateSpaceView, ParseError>(
                ParseError::MissingTransitionsSection,
            ),
            _ => Err::<StateSpaceView, ParseError>(ParseError::MissingStatesSection),
        }),
{
    let all = lines(text);
    match find_header(all, states_keyword(), 0) {
        Some(opening) => {
            if opening + 1 < all.len() {
                lemma_header_found(all, states_keyword(), 0);
                lemma_block_end(all, opening + 1);
                lemma_no_header(all, transitions_keyword(), block_end(all, opening + 1));
            }
        },
        None => {},
    }
}

/// A transition line that ends with its first separator lists no target:
/// it writes no transition, and is no error.
pub proof fn lemma_no_targets(line: Seq<char>)
    requires
        separator(line) == Some(line.len() - 2),
        parse_id(line.subrange(0, line.len() - 2)) is Some,
    ensures
        arcs_of(line) == Some(Seq::<Transition>::empty()),
{
    let rest = line.subrange(line.len() - 2 + 2, line.len() as int);
    assert(rest.len() == 0);
    assert(targets_of(rest) == Some(Seq::<usize>::empty()));
    assert(Seq::<usize>::empty().map_values(
        |to: usize| Transition { from: parse_id(line.subrange(0, line.len() - 2))->0, to },
    ) =~= Seq::<Transition>::empty());
}

// ---------------------------------------------------------------------------
// Reading
// ---------------------------------------------------------------------------

fn header_in(lines: &Vec<Vec<char>>, keyword: &Vec<char>, start: usize) -> (found: Option<usize>)
    requires
        start <= lines.len(),
    ensures
        match found {
            Some(at) => find_header(lines_view(lines@), keyword@, start as int) == Some(at as int)
                && start <= at < lines.len(),
            None => find_header(lines_view(lines@), keyword@, start as int) is None,
        },
{
    let mut i: usize = start;
    while i < lines.len()
        invariant
            start <= i <= lines.len(),
            find_header(lines_view(lines@), keyword@, start as int) == find_header(
                lines_view(lines@),
                keyword@,
                i as int,
            ),
        decreases lines.len() - i,
    {
        if line_begins_with(&lines[i], keyword) {
            return Some(i);
        }
        i += 1;
    }
    None
}

fn block_end_in(lines: &Vec<Vec<char>>, start: usize) -> (end: usize)
    requires
        start <= lines.len(),
    ensures
        end == block_end(lines_view(lines@), start as int),
        start <= end <= lines.len(),
        forall|i: int| start <= i < end ==> separator(#[trigger] lines@[i]@) is Some,
{
    let mut i: usize = start;
    while i < lines.len()
        invariant
            start <= i <= lines.len(),
            block_end(lines_view(lines@), start as int) == block_end(lines_view(lines@), i as int),
            forall|j: int| start <= j < i ==> separator(#[trigger] lines@[j]@) is Some,
        decreases lines.len() - i,
    {
        if separator_of(&lines[i]).is_none() {
            return i;
        }
        i += 1;
    }
    i
}

fn read_state(line: &Vec<char>) -> (state: Option<State>)
    ensures
        match state {
            Some(state) => state_of(line@) == Some(state@),
            None => state_of(line@) is None,
        },
{
    match separator_of(line) {
        None => None,
        Some(at) => {
            assert(line@.subrange(0, at as int) == line@.subrange(0int, at as int));
            match parse_id_in(line, 0, at) {
                None => None,
                Some(index) => Some(State::new(index, string_from(line, at + 2))),
            }
        },
    }
}

fn read_targets(rest: &Vec<char>) -> (targets: Option<Vec<usize>>)
    ensures
        match targets {
            Some(targets) => targets_of(rest@) == Some(targets@),
            None => targets_of(rest@) is None,
        },
{
    let mut targets: Vec<usize> = Vec::new();
    if rest.len() == 0 {
        return Some(targets);
    }
    let ghost all = pieces_from(rest@, TARGET_MARK, 0);
    let ghost mut done: Seq<Seq<char>> = Seq::empty();
    let mut start: usize = 0;
    loop
        invariant_except_break
            done + pieces_from(rest@, TARGET_MARK, start as int) == all,
        invariant
            start <= rest.len(),
            rest.len() > 0,
            all == pieces_from(rest@, TARGET_MARK, 0),
            targets@.len() == done.len(),
            forall|i: int|
                0 <= i < done.len() ==> parse_id(#[trigger] done[i]) == Some(targets@[i]),
        ensures
            targets_of(rest@) == Some(targets@),
        decreases rest.len() - start,
    {
        let end = find_char_in(rest, TARGET_MARK, start);
        let ghost piece = rest@.subrange(start as int, end as int);
        proof {
            assert(pieces_from(rest@, TARGET_MARK, start as int)[0] == piece);
            assert(all[done.len() as int] == piece);
        }
        match parse_id_in(rest, start, end) {
            None => {
                return None;
            },
            Some(to) => {
                targets.push(to);
            },
        }
        proof {
            if end < rest.len() {
                assert(done.push(piece) + pieces_from(rest@, TARGET_MARK, end + 1) == done + (
                seq![piece] + pieces_from(rest@, TARGET_MARK, end + 1)));
            } else {
                assert(done.push(piece) == done + seq![piece]);
            }
            done = done.push(piece);
        }
        if end >= rest.len() {
            proof {
                assert(done == all);
                assert(targets@ == all.map_values(|piece: Seq<char>| parse_id(piece).unwrap()));
            }
            break;
        }
        start = end + 1;
    }
    Some(targets)
}

fn read_arcs(line: &Vec<char>, arcs: &mut Vec<Transition>) -> (read: bool)
    ensures
        match arcs_of(line@) {
            Some(new) => read && final(arcs)@ == old(arcs)@ + new,
            None => !read,
        },
{
    match separator_of(line) {
        None => false,
        Some(at) => {
            assert(line@.subrange(0, at as int) == line@.subrange(0int, at as int));
            match parse_id_in(line, 0, at) {
                None => false,
                Some(from) => {
                    let rest = copy_range(line, at + 2, line.len());
                    match read_targets(&rest) {
                        None => false,
                        Some(targets) => {
                            let ghost new = targets@.map_values(
                                |to: usize| Transition { from, to },
                            );
                            let mut i: usize = 0;
                            while i < targets.len()
                                invariant
                                    i <= targets.len(),
                                    new == targets@.map_values(
                                        |to: usize| Transition { from, to },
                                    ),
                                    arcs@ == old(arcs)@ + new.take(i as int),
                                decreases targets.len() - i,
                            {
                                arcs.push(Transition::new(from, targets[i]));
                                proof {
                                    assert(new.take(i + 1) == new.take(i as int).push(new[i as int]));
                                }
                                i += 1;
                            }
                            proof {
                                assert(new.take(targets.len() as int) == new);
                            }
                            true
                        },
                    }
                },
            }
        },
    }
}

/// Reads the dialect described at the head of this module.
pub struct SLIMTranslator {
    pub states: Vec<String>,
    pub transitions: Vec<String>,
}

impl Translator for SLIMTranslator {
    type ErrorType = ParseError;

    /// Parses `text`. The result is what [`parse`] says of the characters of
    /// `text`: the state space with its states and transitions in the order
    /// written, or the reason why there is none.
    fn translate(text: &str) -> (result: Result<StateSpace, ParseError>)
        ensures
            match result {
                Ok(space) => parse(text@) == Ok::<StateSpaceView, ParseError>(space@),
                Err(error) => parse(text@) == Err::<StateSpaceView, ParseError>(error),
            },
    {
        let chars = chars_of(text);
        let rows = split_lines(&chars);
        let ghost all = lines_view(rows@);
        let states_word = vec!['S', 't', 'a', 't', 'e', 's'];
        let transitions_word = vec!['T', 'r', 'a', 'n', 's', 'i', 't', 'i', 'o', 'n', 's'];
        assert(states_word@ == states_keyword());
        assert(transitions_word@ == transitions_keyword());

        let opening = match header_in(&rows, &states_word, 0) {
            None => {
                return Err(ParseError::MissingStatesSection);
            },
            Some(opening) => opening,
        };
        if opening + 1 >= rows.len() {
            return Err(ParseError::MissingStatesSection);
        }
        let states_end = block_end_in(&rows, opening + 1);
        let second = match header_in(&rows, &transitions_word, states_end) {
            None => {
                return Err(ParseError::MissingTransitionsSection);
            },
            Some(second) => second,
        };
        if second + 1 >= rows.len() {
            return Err(ParseError::MissingTransitionsSection);
        }
        let transitions_end = block_end_in(&rows, second + 1);
        let ghost at = Sections {
            states_start: opening + 1,
            states_end: states_end as int,
            transitions_start: second + 1,
            transitions_end: transitions_end as int,
        };
        assert(sections(all) == Ok::<Sections, ParseError>(at));

        let mut states: Vec<State> = Vec::new();
        let mut i: usize = opening + 1;
        while i < states_end
            invariant
                opening + 1 <= i <= states_end <= rows.len(),
                all == lines_view(rows@),
                all == lines(text@),
                sections(all) == Ok::<Sections, ParseError>(at),
                at.states_start == opening + 1,
                at.states_end == states_end,
                states@.len() == i - (opening + 1),
                forall|j: int|
                    opening + 1 <= j < i ==> state_of(#[trigger] all[j]) == Some(
                        states@[j - (opening + 1)]@,
                    ),
            decreases states_end - i,
        {
            match read_state(&rows[i]) {
                None => {
                    assert(state_of(all[i as int]) is None);
                    return Err(ParseError::InvalidId);
                },
                Some(state) => {
                    states.push(state);
                },
            }
            i += 1;
        }

        let mut transitions: Vec<Transition> = Vec::new();
        let mut i: usize = second + 1;
        while i < transitions_end
            invariant
                second + 1 <= i <= transitions_end <= rows.len(),
                all == lines_view(rows@),
                all == lines(text@),
                sections(all) == Ok::<Sections, ParseError>(at),
                at.transitions_start == second + 1,
                at.transitions_end == transitions_end,
                transitions@ == arcs_between(all, second + 1, i as int),
                forall|j: int| second + 1 <= j < i ==> arcs_of(#[trigger] all[j]) is Some,
            decreases transitions_end - i,
        {
            if !read_arcs(&rows[i], &mut transitions) {
                assert(arcs_of(all[i as int]) is None);
                return Err(ParseError::InvalidId);
            }
            i += 1;
        }

        let space = StateSpace { states, transitions };
        proof {
            let wanted = contents(all, at)->Ok_0;
            assert(space@.states =~= wanted.states);
        }
        Ok(space)
    }
}

/// Stands for a second dialect, which is not implemented.
pub struct SPINTranslator {
    pub states: Vec<String>,
    pub transitions: Vec<String>,
}

impl Translator for SPINTranslator {
    type ErrorType = ParseError;

    /// Reads nothing: every text is refused as unsupported.
    fn translate(text: &str) -> (result: Result<StateSpace, ParseError>)
        ensures
            result == Err::<StateSpace, ParseError>(ParseError::Unsupported),
    {
        Err(ParseError::Unsupported)
    }
}

} // verus!
