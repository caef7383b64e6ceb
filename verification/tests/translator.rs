use graphew::graph::state::State;
use graphew::graph::transition::Transition;
use graphew::graph::translator::{ParseError, SLIMTranslator, SPINTranslator, Translator};
use graphew::graph::StateSpace;

fn pairs(space: &StateSpace) -> Vec<(usize, usize)> {
    space.transitions.iter().map(|t| (t.from, t.to)).collect()
}

fn labels(space: &StateSpace) -> Vec<(usize, String)> {
    space.states.iter().map(|s| (s.index, s.info.clone())).collect()
}

#[test]
fn state_new_keeps_fields() {
    let s = State::new(7, String::from("seven"));
    assert_eq!(s.index, 7);
    assert_eq!(s.info, "seven");
    let c = s.clone();
    assert_eq!(c.index, 7);
    assert_eq!(c.info, "seven");
}

#[test]
fn transition_new_keeps_fields() {
    let t = Transition::new(3, 4);
    assert_eq!(t.from, 3);
    assert_eq!(t.to, 4);
    assert_eq!(t, Transition { from: 3, to: 4 });
}

#[test]
fn two_states_three_transitions() {
    let text = "States\n0::idle\n1::busy\nTransitions\n0::1\n1::0,1";
    let space = SLIMTranslator::translate(text).unwrap();
    assert_eq!(
        labels(&space),
        vec![(0, String::from("idle")), (1, String::from("busy"))]
    );
    assert_eq!(pairs(&space), vec![(0, 1), (1, 0), (1, 1)]);
}

#[test]
fn blank_line_between_sections() {
    let text = "States\n0::idle\n1::busy\n\nTransitions\n0::1\n1::0,1\n";
    let space = SLIMTranslator::translate(text).unwrap();
    assert_eq!(space.states.len(), 2);
    assert_eq!(pairs(&space), vec![(0, 1), (1, 0), (1, 1)]);
}

#[test]
fn missing_transitions_section() {
    let text = "States\n0::idle\n1::busy\n";
    assert_eq!(
        SLIMTranslator::translate(text).unwrap_err(),
        ParseError::MissingTransitionsSection
    );
}

#[test]
fn missing_transitions_section_despite_bad_state() {
    let text = "States\nx::idle\n1::busy\n\nnothing here\n";
    assert_eq!(
        SLIMTranslator::translate(text).unwrap_err(),
        ParseError::MissingTransitionsSection
    );
}

#[test]
fn transitions_header_on_last_line() {
    let text = "States\n0::idle\nTransitions";
    assert_eq!(
        SLIMTranslator::translate(text).unwrap_err(),
        ParseError::MissingTransitionsSection
    );
}

#[test]
fn missing_states_section() {
    assert_eq!(
        SLIMTranslator::translate("").unwrap_err(),
        ParseError::MissingStatesSection
    );
    assert_eq!(
        SLIMTranslator::translate("Transitions\n0::1\n").unwrap_err(),
        ParseError::MissingStatesSection
    );
}

#[test]
fn states_header_on_last_line() {
    assert_eq!(
        SLIMTranslator::translate("preamble\nStates\n").unwrap_err(),
        ParseError::MissingStatesSection
    );
}

#[test]
fn empty_target_list_gives_no_transition() {
    let text = "States\n2::only\nTransitions\n2::\n";
    let space = SLIMTranslator::translate(text).unwrap();
    assert_eq!(labels(&space), vec![(2, String::from("only"))]);
    assert!(space.transitions.is_empty());
}

#[test]
fn empty_target_list_between_others() {
    let text = "States\n0::a\n1::b\n2::c\nTransitions\n0::1\n2::\n1::2\n";
    let space = SLIMTranslator::translate(text).unwrap();
    assert_eq!(pairs(&space), vec![(0, 1), (1, 2)]);
}

#[test]
fn label_keeps_separators() {
    let text = "States\n0::a::b::c\n1:::x\nTransitions\n0::1\n";
    let space = SLIMTranslator::translate(text).unwrap();
    assert_eq!(
        labels(&space),
        vec![(0, String::from("a::b::c")), (1, String::from(":x"))]
    );
}

#[test]
fn invalid_state_id() {
    let text = "States\nzero::idle\nTransitions\n0::1\n";
    assert_eq!(
        SLIMTranslator::translate(text).unwrap_err(),
        ParseError::InvalidId
    );
}

#[test]
fn invalid_source_id() {
    let text = "States\n0::idle\nTransitions\n 0::1\n";
    assert_eq!(
        SLIMTranslator::translate(text).unwrap_err(),
        ParseError::InvalidId
    );
}

#[test]
fn invalid_target_id() {
    for body in ["0::1,x", "0::1,,2", "0::1,", "0::,", "0::1::2", "0::-1", "0::1 "] {
        let text = format!("States\n0::idle\nTransitions\n{}\n", body);
        assert_eq!(
            SLIMTranslator::translate(&text).unwrap_err(),
            ParseError::InvalidId
        );
    }
}

#[test]
fn identifier_forms() {
    let text = "States\n+7::plus\n007::zeros\n18446744073709551615::max\nTransitions\n+7::007\n";
    let space = SLIMTranslator::translate(text).unwrap();
    assert_eq!(
        labels(&space),
        vec![
            (7, String::from("plus")),
            (7, String::from("zeros")),
            (usize::MAX, String::from("max"))
        ]
    );
    assert_eq!(pairs(&space), vec![(7, 7)]);
}

#[test]
fn identifier_too_large() {
    let text = "States\n18446744073709551616::big\nTransitions\n0::1\n";
    assert_eq!(
        SLIMTranslator::translate(text).unwrap_err(),
        ParseError::InvalidId
    );
    let text = "States\n+::sign\nTransitions\n0::1\n";
    assert_eq!(
        SLIMTranslator::translate(text).unwrap_err(),
        ParseError::InvalidId
    );
}

#[test]
fn keywords_ignore_case_and_leading_space() {
    let text = "junk\n  \tSTATES of the model\n0::idle\n\n  transitions:\n0::0\n";
    let space = SLIMTranslator::translate(text).unwrap();
    assert_eq!(labels(&space), vec![(0, String::from("idle"))]);
    assert_eq!(pairs(&space), vec![(0, 0)]);
}

#[test]
fn carriage_returns_end_lines() {
    let text = "States\r\n0::idle\r\n1::busy\r\nTransitions\r\n0::1\r\n1::0,1\r\n";
    let space = SLIMTranslator::translate(text).unwrap();
    assert_eq!(
        labels(&space),
        vec![(0, String::from("idle")), (1, String::from("busy"))]
    );
    assert_eq!(pairs(&space), vec![(0, 1), (1, 0), (1, 1)]);
}

#[test]
fn data_after_the_transitions_block_is_ignored() {
    let text = "States\n0::a\nTransitions\n0::0\nend\n0::x\n";
    let space = SLIMTranslator::translate(text).unwrap();
    assert_eq!(pairs(&space), vec![(0, 0)]);
}

#[test]
fn lines_before_the_states_header_are_skipped() {
    let text = "9::early\nStates\n0::a\nTransitions\n0::0\n";
    let space = SLIMTranslator::translate(text).unwrap();
    assert_eq!(labels(&space), vec![(0, String::from("a"))]);
}

#[test]
fn non_ascii_label() {
    let text = "States\n0::größe → ende\nTransitions\n0::0\n";
    let space = SLIMTranslator::translate(text).unwrap();
    assert_eq!(labels(&space), vec![(0, String::from("größe → ende"))]);
}

#[test]
fn second_dialect_is_unsupported() {
    assert_eq!(
        SPINTranslator::translate("States\n0::a\nTransitions\n0::0\n").unwrap_err(),
        ParseError::Unsupported
    );
    assert_eq!(
        SPINTranslator::translate("").unwrap_err(),
        ParseError::Unsupported
    );
}
