use graphew::graph::display::{DisplayGraph, GraphError};
use graphew::graph::node::{GraphEdge, Position, UNIT_WEIGHT};
use graphew::graph::physics::{
    construct_simulation, sync_graph_with_simulation, update_simulation, ConsistencyFault,
    PhysicsGraph, SelfLoop,
};
use graphew::graph::state::State;
use graphew::graph::transition::Transition;
use graphew::graph::translator::{SLIMTranslator, Translator};
use graphew::graph::StateSpace;

fn space(ids: &[usize], arcs: &[(usize, usize)]) -> StateSpace {
    StateSpace {
        states: ids
            .iter()
            .map(|id| State::new(*id, format!("s{}", id)))
            .collect(),
        transitions: arcs.iter().map(|(a, b)| Transition::new(*a, *b)).collect(),
    }
}

fn ends(graph: &DisplayGraph) -> Vec<(usize, usize)> {
    (0..graph.edge_count())
        .map(|e| graph.edge_endpoints(e).unwrap())
        .collect()
}

#[test]
fn unit_weight_is_one() {
    assert_eq!(f32::from_bits(UNIT_WEIGHT), 1.0);
    assert_eq!(f32::from_bits(Position::origin().x), 0.0);
    assert_eq!(f32::from_bits(Position::origin().y), 0.0);
    assert_eq!(Position::new(3, 4), Position { x: 3, y: 4 });
}

#[test]
fn build_keeps_counts() {
    let s = space(&[5, 7, 9], &[(5, 7), (7, 9), (9, 9), (5, 7), (9, 5)]);
    let g = s.build().unwrap();
    assert_eq!(g.node_count(), 3);
    assert_eq!(g.edge_count(), 5);
}

#[test]
fn build_empty_space() {
    let g = space(&[], &[]).build().unwrap();
    assert_eq!(g.node_count(), 0);
    assert_eq!(g.edge_count(), 0);
    assert!(g.node(0).is_none());
    assert!(g.edge_endpoints(0).is_none());
    assert!(g.children(0).is_empty());
}

#[test]
fn build_resolves_identifiers_to_handles() {
    let s = space(&[5, 7, 9], &[(5, 7), (7, 9), (9, 9), (5, 7), (9, 5)]);
    let g = s.build().unwrap();
    assert_eq!(ends(&g), vec![(0, 1), (1, 2), (2, 2), (0, 1), (2, 0)]);
    for a in 0..3 {
        let node = g.node(a).unwrap();
        assert_eq!(node.state.index, [5, 7, 9][a]);
        assert_eq!(node.state.info, format!("s{}", [5, 7, 9][a]));
        assert_eq!(node.position, Position::origin());
        assert!(!node.selected);
        assert!(!node.dragged);
    }
    assert_eq!(
        g.edge(2).unwrap(),
        GraphEdge {
            transition: Transition::new(9, 9),
            weight: UNIT_WEIGHT
        }
    );
    assert!(g.node(3).is_none());
    assert!(g.edge(5).is_none());
    assert!(g.edge_endpoints(usize::MAX).is_none());
    assert!(g.node(usize::MAX).is_none());
}

#[test]
fn build_fails_on_unknown_identifier() {
    assert_eq!(
        space(&[0, 1], &[(0, 1), (1, 2)]).build().err(),
        Some(GraphError::UnknownStateId)
    );
    assert_eq!(
        space(&[0, 1], &[(3, 1)]).build().err(),
        Some(GraphError::UnknownStateId)
    );
    assert_eq!(
        space(&[], &[(0, 0)]).build().err(),
        Some(GraphError::UnknownStateId)
    );
}

#[test]
fn build_takes_the_last_state_of_an_identifier() {
    let g = space(&[4, 4, 6], &[(4, 6), (6, 4)]).build().unwrap();
    assert_eq!(g.node_count(), 3);
    assert_eq!(ends(&g), vec![(1, 2), (2, 1)]);
}

#[test]
fn parsed_scenario_builds_two_nodes_three_edges() {
    let text = "States\n0::idle\n1::busy\nTransitions\n0::1\n1::0,1\n";
    let g = SLIMTranslator::translate(text).unwrap().build().unwrap();
    assert_eq!(g.node_count(), 2);
    assert_eq!(g.edge_count(), 3);
    assert_eq!(ends(&g), vec![(0, 1), (1, 0), (1, 1)]);
    let loops: Vec<(usize, usize)> = ends(&g).into_iter().filter(|(a, b)| a == b).collect();
    assert_eq!(loops, vec![(1, 1)]);
    assert_eq!(g.node(0).unwrap().state.info, "idle");
    assert_eq!(g.node(1).unwrap().state.info, "busy");
}

#[test]
fn children_come_newest_edge_first() {
    let g = space(&[0, 1, 2, 3], &[(0, 1), (0, 2), (1, 3), (0, 3), (0, 0), (0, 2)])
        .build()
        .unwrap();
    assert_eq!(g.children(0), vec![2, 0, 3, 2, 1]);
    assert_eq!(g.children(1), vec![3]);
    assert!(g.children(2).is_empty());
    assert!(g.children(9).is_empty());
    assert!(g.children(usize::MAX).is_empty());
}

#[test]
fn node_state_can_be_set() {
    let mut g = space(&[0, 1], &[(0, 1)]).build().unwrap();
    assert!(g.set_position(1, Position::new(10, 20)));
    assert!(g.set_selected(1, true));
    assert!(g.set_dragged(0, true));
    assert!(!g.set_position(2, Position::new(1, 1)));
    assert!(!g.set_selected(2, true));
    assert!(!g.set_dragged(usize::MAX, true));
    let n0 = g.node(0).unwrap();
    assert!(n0.dragged && !n0.selected);
    assert_eq!(n0.position, Position::origin());
    let n1 = g.node(1).unwrap();
    assert!(!n1.dragged && n1.selected);
    assert_eq!(n1.position, Position::new(10, 20));
    assert_eq!(n1.state.index, 1);
    assert_eq!(ends(&g), vec![(0, 1)]);
    assert!(g.set_selected(1, false));
    assert!(!g.node(1).unwrap().selected);
}

#[test]
fn simulation_mirrors_the_display_graph() {
    let mut g = space(&[3, 4], &[(3, 4), (4, 4), (4, 3)]).build().unwrap();
    g.set_position(0, Position::new(7, 8));
    g.set_selected(0, true);
    g.set_dragged(1, true);
    let p = construct_simulation(&g);
    assert_eq!(p.node_count(), 2);
    assert_eq!(p.edge_count(), 3);
    assert_eq!(p.edge_handles(), vec![0, 1, 2]);
    assert_eq!(p.edge_endpoints(0), Some((0, 1)));
    assert_eq!(p.edge_endpoints(1), Some((1, 1)));
    assert_eq!(p.edge_endpoints(2), Some((1, 0)));
    assert_eq!(p.edge_endpoints(3), None);
    assert_eq!(
        p.edge(1),
        Some(GraphEdge {
            transition: Transition::new(4, 4),
            weight: UNIT_WEIGHT
        })
    );
    assert_eq!(p.location(0), Some((0, 0, 0)));
    assert_eq!(p.location(2), None);
    let n0 = p.node(0).unwrap();
    assert_eq!(n0.state.index, 3);
    assert_eq!(n0.state.info, "s3");
    assert!(!n0.selected && !n0.dragged);
    assert!(!p.node(1).unwrap().dragged);
    assert!(p.pending().is_empty());
}

#[test]
fn step_sets_self_loops_aside_and_puts_them_back() {
    let g = space(
        &[0, 1, 2],
        &[(0, 0), (0, 1), (1, 1), (1, 2), (1, 1), (2, 0)],
    )
    .build()
    .unwrap();
    let mut p = construct_simulation(&g);
    p.set_weight(2, 77);
    p.begin_step();
    assert_eq!(p.edge_count(), 3);
    assert_eq!(p.edge_handles(), vec![1, 3, 5]);
    assert_eq!(p.edge_endpoints(0), None);
    assert_eq!(p.edge_endpoints(1), Some((0, 1)));
    assert_eq!(p.edge_endpoints(2), None);
    assert_eq!(p.edge_endpoints(4), None);
    assert_eq!(
        p.pending().clone(),
        vec![
            SelfLoop {
                node: 0,
                transition: Transition::new(0, 0)
            },
            SelfLoop {
                node: 1,
                transition: Transition::new(1, 1)
            },
            SelfLoop {
                node: 1,
                transition: Transition::new(1, 1)
            },
        ]
    );
    assert!(p.set_position(2, Position::new(5, 6)));
    let handles = p.end_step();
    assert!(p.pending().is_empty());
    assert_eq!(p.edge_count(), 6);
    assert_eq!(p.edge_handles(), vec![0, 1, 2, 3, 4, 5]);
    let mut sorted = handles.clone();
    sorted.sort();
    assert_eq!(sorted, vec![0, 2, 4]);
    assert_eq!(p.edge_endpoints(handles[0]), Some((0, 0)));
    assert_eq!(p.edge_endpoints(handles[1]), Some((1, 1)));
    assert_eq!(p.edge_endpoints(handles[2]), Some((1, 1)));
    for h in handles {
        assert_eq!(p.edge(h).unwrap().weight, UNIT_WEIGHT);
    }
    assert_eq!(p.edge_endpoints(1), Some((0, 1)));
    assert_eq!(p.edge_endpoints(3), Some((1, 2)));
    assert_eq!(p.edge_endpoints(5), Some((2, 0)));
    let mut loops: Vec<usize> = (0..6)
        .filter_map(|e| p.edge_endpoints(e))
        .filter(|(a, b)| a == b)
        .map(|(a, _)| a)
        .collect();
    loops.sort();
    assert_eq!(loops, vec![0, 1, 1]);
    assert_eq!(p.location(2), Some((5, 6, 0)));
}

#[test]
fn step_without_self_loops_changes_nothing() {
    let g = space(&[0, 1], &[(0, 1), (1, 0)]).build().unwrap();
    let mut p = construct_simulation(&g);
    p.begin_step();
    assert!(p.pending().is_empty());
    assert_eq!(p.edge_handles(), vec![0, 1]);
    assert!(p.end_step().is_empty());
    assert_eq!(p.edge_handles(), vec![0, 1]);
}

#[test]
fn two_steps_in_a_row_keep_the_self_loops() {
    let g = space(&[0, 1], &[(0, 0), (0, 1), (1, 1)]).build().unwrap();
    let mut p = construct_simulation(&g);
    for _ in 0..3 {
        p.begin_step();
        assert_eq!(p.edge_count(), 1);
        assert_eq!(p.pending().len(), 2);
        p.end_step();
        assert_eq!(p.edge_count(), 3);
        let mut loops: Vec<usize> = p
            .edge_handles()
            .into_iter()
            .filter_map(|e| p.edge_endpoints(e))
            .filter(|(a, b)| a == b)
            .map(|(a, _)| a)
            .collect();
        loops.sort();
        assert_eq!(loops, vec![0, 1]);
        assert_eq!(p.edge_endpoints(1), Some((0, 1)));
    }
}

#[test]
fn weights_can_be_set_and_are_reset() {
    let g = space(&[0, 1], &[(0, 1), (1, 0)]).build().unwrap();
    let mut p = construct_simulation(&g);
    assert!(p.set_weight(1, 5));
    assert!(!p.set_weight(2, 5));
    assert!(!p.set_weight(usize::MAX, 5));
    assert_eq!(p.edge(1).unwrap().weight, 5);
    assert_eq!(p.edge(0).unwrap().weight, UNIT_WEIGHT);
    assert_eq!(p.edge(1).unwrap().transition, Transition::new(1, 0));
    p.reset_weights();
    assert_eq!(p.edge(1).unwrap().weight, UNIT_WEIGHT);
    assert_eq!(p.edge_endpoints(1), Some((1, 0)));
}

#[test]
fn sync_pins_dragged_nodes_and_moves_the_others() {
    let mut g = space(&[0, 1, 2], &[(0, 1), (1, 2), (2, 2)]).build().unwrap();
    let mut p = construct_simulation(&g);
    g.set_position(0, Position::new(100, 200));
    g.set_dragged(0, true);
    g.set_selected(0, true);
    g.set_position(1, Position::new(300, 400));
    g.set_selected(2, true);
    p.set_position(0, Position::new(1, 2));
    p.set_position(1, Position::new(3, 4));
    p.set_position(2, Position::new(5, 6));
    p.set_weight(0, 9);
    p.set_weight(2, 9);

    let selected = sync_graph_with_simulation(&mut g, &mut p).unwrap();
    assert_eq!(selected, vec![0, 2]);

    assert_eq!(p.location(0), Some((100, 200, 0)));
    assert_eq!(g.node(0).unwrap().position, Position::new(100, 200));
    assert!(g.node(0).unwrap().dragged);

    assert_eq!(g.node(1).unwrap().position, Position::new(3, 4));
    assert_eq!(p.location(1), Some((3, 4, 0)));
    assert_eq!(g.node(2).unwrap().position, Position::new(5, 6));
    assert_eq!(p.location(2), Some((5, 6, 0)));
    assert!(g.node(2).unwrap().selected);
    assert_eq!(g.node(1).unwrap().state.index, 1);

    for e in 0..3 {
        assert_eq!(p.edge(e).unwrap().weight, UNIT_WEIGHT);
    }
    assert_eq!(ends(&g), vec![(0, 1), (1, 2), (2, 2)]);
    assert_eq!(p.edge_endpoints(2), Some((2, 2)));
}

#[test]
fn sync_between_the_halves_of_a_step() {
    let mut g = space(&[0, 1], &[(0, 0), (0, 1)]).build().unwrap();
    let mut p = construct_simulation(&g);
    p.begin_step();
    p.set_position(1, Position::new(8, 9));
    let selected = sync_graph_with_simulation(&mut g, &mut p).unwrap();
    assert!(selected.is_empty());
    assert_eq!(g.node(1).unwrap().position, Position::new(8, 9));
    assert_eq!(p.pending().len(), 1);
    assert_eq!(p.edge_handles(), vec![1]);
    p.end_step();
    assert_eq!(p.edge_handles(), vec![0, 1]);
}

#[test]
fn sync_reports_graphs_that_do_not_match() {
    let mut g = space(&[0, 1], &[(0, 1)]).build().unwrap();
    let other = space(&[0, 1, 2], &[(0, 1)]).build().unwrap();
    let mut p = construct_simulation(&other);
    g.set_position(0, Position::new(1, 1));
    g.set_dragged(0, true);
    p.set_position(1, Position::new(2, 2));
    p.set_weight(0, 3);
    assert_eq!(
        sync_graph_with_simulation(&mut g, &mut p),
        Err(ConsistencyFault)
    );
    assert_eq!(p.location(0), Some((0, 0, 0)));
    assert_eq!(g.node(1).unwrap().position, Position::origin());
    assert_eq!(p.edge(0).unwrap().weight, 3);
}

fn loop_nodes(p: &PhysicsGraph) -> Vec<usize> {
    let mut loops: Vec<usize> = p
        .edge_handles()
        .into_iter()
        .filter_map(|e| p.edge_endpoints(e))
        .filter(|(a, b)| a == b)
        .map(|(a, _)| a)
        .collect();
    loops.sort();
    loops
}

#[test]
fn whole_step_hides_self_loops_from_the_integrator() {
    let g = space(
        &[0, 1, 2],
        &[(0, 0), (0, 1), (1, 1), (1, 2), (1, 1), (2, 0)],
    )
    .build()
    .unwrap();
    let mut p = construct_simulation(&g);
    assert_eq!(loop_nodes(&p), vec![0, 1, 1]);
    let (places, handles) = update_simulation(&mut p, |cut: &PhysicsGraph| {
        assert_eq!(cut.edge_handles(), vec![1, 3, 5]);
        assert!(loop_nodes(cut).is_empty());
        assert_eq!(cut.pending().len(), 3);
        vec![Position::new(11, 12), Position::new(21, 22), Position::new(31, 32)]
    });
    assert_eq!(places.len(), 3);
    assert_eq!(handles.len(), 3);
    assert_eq!(loop_nodes(&p), vec![0, 1, 1]);
    assert_eq!(p.edge_count(), 6);
    assert_eq!(p.edge_endpoints(1), Some((0, 1)));
    assert_eq!(p.edge_endpoints(3), Some((1, 2)));
    assert_eq!(p.edge_endpoints(5), Some((2, 0)));
    assert_eq!(p.location(0), Some((11, 12, 0)));
    assert_eq!(p.location(1), Some((21, 22, 0)));
    assert_eq!(p.location(2), Some((31, 32, 0)));
    assert!(p.pending().is_empty());
}

#[test]
fn whole_step_with_too_few_or_too_many_places() {
    let g = space(&[0, 1, 2], &[(0, 1), (2, 2)]).build().unwrap();
    let mut p = construct_simulation(&g);
    update_simulation(&mut p, |_: &PhysicsGraph| vec![Position::new(1, 1)]);
    assert_eq!(p.location(0), Some((1, 1, 0)));
    assert_eq!(p.location(1), Some((0, 0, 0)));
    assert_eq!(p.location(2), Some((0, 0, 0)));
    update_simulation(&mut p, |_: &PhysicsGraph| {
        vec![
            Position::new(2, 2),
            Position::new(3, 3),
            Position::new(4, 4),
            Position::new(5, 5),
        ]
    });
    assert_eq!(p.location(0), Some((2, 2, 0)));
    assert_eq!(p.location(2), Some((4, 4, 0)));
    assert_eq!(loop_nodes(&p), vec![2]);
    assert_eq!(p.edge_count(), 2);
}

/// An integrator in whole numbers: every node goes where the ends of the
/// edges that it is shown put it.
fn by_degree(cut: &PhysicsGraph) -> Vec<Position> {
    let mut places = vec![(0u32, 0u32); cut.node_count()];
    for e in cut.edge_handles() {
        let (a, b) = cut.edge_endpoints(e).unwrap();
        places[a].0 += 1 + b as u32;
        places[b].1 += 10 + a as u32;
    }
    places.into_iter().map(|(x, y)| Position::new(x, y)).collect()
}

#[test]
fn self_loops_take_no_part_in_the_integration() {
    let with = space(&[0, 1, 2], &[(0, 0), (0, 1), (1, 1), (1, 2), (1, 1), (2, 0)])
        .build()
        .unwrap();
    let without = space(&[0, 1, 2], &[(0, 1), (1, 2), (2, 0)]).build().unwrap();
    let mut p = construct_simulation(&with);
    let mut q = construct_simulation(&without);
    let (places, _) = update_simulation(&mut p, by_degree);
    let (other, _) = update_simulation(&mut q, by_degree);
    assert_eq!(places, other);
    for a in 0..3 {
        assert_eq!(p.location(a), q.location(a));
    }
    assert_eq!(p.location(0), Some((2, 12, 0)));
    assert_eq!(loop_nodes(&p), vec![0, 1, 1]);
    assert!(loop_nodes(&q).is_empty());
}
