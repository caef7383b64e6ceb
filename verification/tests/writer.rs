use graphew::graph::state::State;
use graphew::graph::transition::Transition;
use graphew::graph::translator::{SLIMTranslator, Translator};
use graphew::graph::writer;
use graphew::graph::StateSpace;

fn space(states: &[(usize, &str)], arcs: &[(usize, usize)]) -> StateSpace {
    StateSpace {
        states: states
            .iter()
            .map(|(id, label)| State::new(*id, String::from(*label)))
            .collect(),
        transitions: arcs.iter().map(|(a, b)| Transition::new(*a, *b)).collect(),
    }
}

fn same(a: &StateSpace, b: &StateSpace) -> bool {
    a.states.len() == b.states.len()
        && a.transitions == b.transitions
        && a.states
            .iter()
            .zip(b.states.iter())
            .all(|(x, y)| x.index == y.index && x.info == y.info)
}

#[test]
fn written_text() {
    let s = space(&[(0, "idle"), (1, "busy")], &[(0, 1), (1, 0), (1, 1)]);
    assert_eq!(
        writer::write(&s),
        "States\n0::idle\n1::busy\nTransitions\n0::1\n1::0\n1::1\n"
    );
}

#[test]
fn written_text_of_the_empty_space() {
    assert_eq!(writer::write(&space(&[], &[])), "States\nTransitions\n\n");
}

#[test]
fn written_numbers() {
    let s = space(
        &[(0, ""), (9, "x"), (10, "y"), (907, "z"), (usize::MAX, "w")],
        &[(120, 0)],
    );
    assert_eq!(
        writer::write(&s),
        format!(
            "States\n0::\n9::x\n10::y\n907::z\n{}::w\nTransitions\n120::0\n",
            usize::MAX
        )
    );
}

#[test]
fn reading_gives_back_what_was_written() {
    let cases = vec![
        space(&[], &[]),
        space(&[(3, "only")], &[]),
        space(&[(0, "idle"), (1, "busy")], &[(0, 1), (1, 0), (1, 1)]),
        space(
            &[(5, "a::b"), (6, ""), (7, " spaced out "), (5, "again"), (8, "States")],
            &[(5, 5), (5, 5), (8, 6), (100, 200)],
        ),
        space(&[(usize::MAX, "größte\tZahl, mit Komma")], &[(usize::MAX, 0)]),
        space(&[(1, "a\rb")], &[(1, 1)]),
    ];
    for s in cases {
        let read = SLIMTranslator::translate(&writer::write(&s)).unwrap();
        assert!(same(&s, &read));
    }
}

#[test]
fn writing_what_was_read_changes_nothing_more() {
    let s = space(&[(0, "idle"), (1, "busy")], &[(0, 1), (1, 0), (1, 1)]);
    let once = writer::write(&s);
    let twice = writer::write(&SLIMTranslator::translate(&once).unwrap());
    assert_eq!(once, twice);
}
