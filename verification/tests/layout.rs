use graphew::graph::display::DisplayGraph;
use graphew::graph::state::State;
use graphew::graph::transition::Transition;
use graphew::graph::StateSpace;
use graphew::graph::node::Position;
use graphew::layout::radial::{Anchor, Located, Placement, RadialLayout, Spot, BASE_RADIUS};
use graphew::layout::Layout;

fn graph(n: usize, arcs: &[(usize, usize)]) -> DisplayGraph {
    StateSpace {
        states: (0..n).map(|id| State::new(id, format!("s{}", id))).collect(),
        transitions: arcs.iter().map(|(a, b)| Transition::new(*a, *b)).collect(),
    }
    .build()
    .unwrap()
}

#[test]
fn base_radius() {
    assert_eq!(BASE_RADIUS, 160);
}

#[test]
fn empty_graph_has_an_empty_plan() {
    assert!(RadialLayout::plan(&graph(0, &[])).is_empty());
}

#[test]
fn single_node_is_the_root() {
    assert_eq!(
        RadialLayout::plan(&graph(1, &[])),
        vec![Placement::Root { node: 0 }]
    );
}

#[test]
fn root_with_four_children() {
    let plan = RadialLayout::plan(&graph(5, &[(0, 1), (0, 2), (0, 3), (0, 4)]));
    assert_eq!(
        plan,
        vec![
            Placement::Root { node: 0 },
            Placement::Ring { node: 4, index: 1, count: 4 },
            Placement::Ring { node: 3, index: 2, count: 4 },
            Placement::Ring { node: 2, index: 3, count: 4 },
            Placement::Ring { node: 1, index: 4, count: 4 },
        ]
    );
    let angles: Vec<f64> = plan[1..]
        .iter()
        .map(|p| match p {
            Placement::Ring { index, count, .. } => {
                2.0 * std::f64::consts::PI * (*index as f64) / (*count as f64)
            }
            _ => unreachable!(),
        })
        .collect();
    let pi = std::f64::consts::PI;
    assert_eq!(angles, vec![pi / 2.0, pi, 3.0 * pi / 2.0, 2.0 * pi]);
}

#[test]
fn chain_goes_level_by_level() {
    let plan = RadialLayout::plan(&graph(4, &[(0, 1), (1, 2), (2, 3)]));
    assert_eq!(
        plan,
        vec![
            Placement::Root { node: 0 },
            Placement::Ring { node: 1, index: 1, count: 1 },
            Placement::Fan { node: 2, parent: 1, index: 1, count: 1 },
            Placement::Fan { node: 3, parent: 2, index: 1, count: 1 },
        ]
    );
}

#[test]
fn tree_is_walked_breadth_first() {
    let plan = RadialLayout::plan(&graph(
        7,
        &[(0, 1), (0, 2), (1, 3), (1, 4), (2, 5), (2, 6)],
    ));
    assert_eq!(
        plan,
        vec![
            Placement::Root { node: 0 },
            Placement::Ring { node: 2, index: 1, count: 2 },
            Placement::Ring { node: 1, index: 2, count: 2 },
            Placement::Fan { node: 6, parent: 1, index: 1, count: 2 },
            Placement::Fan { node: 5, parent: 1, index: 2, count: 2 },
            Placement::Fan { node: 4, parent: 2, index: 1, count: 2 },
            Placement::Fan { node: 3, parent: 2, index: 2, count: 2 },
        ]
    );
}

#[test]
fn shared_child_is_placed_twice_and_expanded_once() {
    let plan = RadialLayout::plan(&graph(
        5,
        &[(0, 1), (0, 2), (1, 3), (2, 3), (3, 3), (3, 0), (3, 4)],
    ));
    assert_eq!(
        plan,
        vec![
            Placement::Root { node: 0 },
            Placement::Ring { node: 2, index: 1, count: 2 },
            Placement::Ring { node: 1, index: 2, count: 2 },
            Placement::Fan { node: 3, parent: 1, index: 1, count: 1 },
            Placement::Fan { node: 3, parent: 2, index: 1, count: 1 },
            Placement::Fan { node: 4, parent: 3, index: 1, count: 1 },
        ]
    );
}

#[test]
fn root_self_loop_and_parallel_edges() {
    let plan = RadialLayout::plan(&graph(2, &[(0, 0), (0, 1), (0, 1)]));
    assert_eq!(
        plan,
        vec![
            Placement::Root { node: 0 },
            Placement::Ring { node: 1, index: 1, count: 3 },
            Placement::Ring { node: 1, index: 2, count: 3 },
            Placement::Ring { node: 0, index: 3, count: 3 },
        ]
    );
}

#[test]
fn parallel_edges_below_the_root() {
    let plan = RadialLayout::plan(&graph(3, &[(0, 1), (1, 2), (1, 2), (1, 1)]));
    assert_eq!(
        plan,
        vec![
            Placement::Root { node: 0 },
            Placement::Ring { node: 1, index: 1, count: 1 },
            Placement::Fan { node: 2, parent: 1, index: 1, count: 2 },
            Placement::Fan { node: 2, parent: 1, index: 2, count: 2 },
        ]
    );
}

#[test]
fn unreachable_nodes_are_not_placed() {
    let plan = RadialLayout::plan(&graph(4, &[(0, 1), (2, 3), (3, 0)]));
    assert_eq!(
        plan,
        vec![
            Placement::Root { node: 0 },
            Placement::Ring { node: 1, index: 1, count: 1 },
        ]
    );
}

#[test]
fn planning_twice_gives_the_same_plan() {
    let g = graph(
        6,
        &[(0, 1), (0, 2), (1, 3), (2, 3), (3, 4), (4, 1), (4, 5), (5, 5)],
    );
    let first = RadialLayout::plan(&g);
    let second = RadialLayout::plan(&g);
    assert_eq!(first, second);
    assert_eq!(first[0], Placement::Root { node: 0 });
}

#[test]
fn placement_accessors() {
    let root = Placement::Root { node: 3 };
    let ring = Placement::Ring { node: 4, index: 1, count: 1 };
    let fan = Placement::Fan { node: 5, parent: 2, index: 2, count: 3 };
    assert_eq!(root.node(), 3);
    assert_eq!(ring.node(), 4);
    assert_eq!(fan.node(), 5);
    assert!(!root.has_siblings());
    assert!(!ring.has_siblings());
    assert!(fan.has_siblings());
}

/// A geometry in whole numbers, to follow what the layout hands on: the
/// place says which step placed the node around which centre, the angle
/// counts the levels and the radius is halved.
fn tally(step: Placement, by: Option<Spot>) -> Located {
    let index = match step {
        Placement::Root { .. } => 0,
        Placement::Ring { index, .. } => index,
        Placement::Fan { index, .. } => index,
    };
    match by {
        None => Located {
            place: Position::new(1000 + index as u32, 0),
            fan_from: 0,
            radius: BASE_RADIUS,
        },
        Some(by) => Located {
            place: Position::new(by.place.x * 10 + index as u32, by.anchor.fan_from + 1),
            fan_from: by.anchor.fan_from + 1,
            radius: by.anchor.radius / 2,
        },
    }
}

fn places(g: &DisplayGraph) -> Vec<(u32, u32)> {
    (0..g.node_count())
        .map(|a| {
            let p = g.node(a).unwrap().position;
            (p.x, p.y)
        })
        .collect()
}

#[test]
fn layout_moves_the_nodes_of_the_plan() {
    let mut g = graph(7, &[(0, 1), (0, 2), (1, 3), (1, 4), (2, 5)]);
    g.set_position(6, Position::new(77, 78));
    g.set_selected(3, true);
    let (plan, spots) = RadialLayout::layout(&mut g, tally);
    assert_eq!(plan, RadialLayout::plan(&g));
    assert_eq!(
        plan,
        vec![
            Placement::Root { node: 0 },
            Placement::Ring { node: 2, index: 1, count: 2 },
            Placement::Ring { node: 1, index: 2, count: 2 },
            Placement::Fan { node: 5, parent: 1, index: 1, count: 1 },
            Placement::Fan { node: 4, parent: 2, index: 1, count: 2 },
            Placement::Fan { node: 3, parent: 2, index: 2, count: 2 },
        ]
    );
    assert_eq!(spots.len(), 6);
    assert_eq!(
        places(&g),
        vec![
            (0, 0),
            (1002, 0),
            (1001, 0),
            (10022, 1),
            (10021, 1),
            (10011, 1),
            (77, 78)
        ]
    );
    assert_eq!(
        spots[0],
        Spot {
            place: Position::origin(),
            anchor: Anchor {
                has_siblings: false,
                fan_from: 0,
                radius: 0
            }
        }
    );
    assert_eq!(
        spots[3],
        Spot {
            place: Position::new(10011, 1),
            anchor: Anchor {
                has_siblings: false,
                fan_from: 1,
                radius: 80
            }
        }
    );
    assert_eq!(spots[5].anchor.radius, 80);
    assert!(spots[5].anchor.has_siblings);
    assert!(g.node(3).unwrap().selected);
    assert_eq!(g.node(3).unwrap().state.index, 3);
    assert_eq!(g.edge_count(), 5);
}

#[test]
fn layout_reads_the_centre_where_it_lies_now() {
    let mut g = graph(5, &[(0, 1), (0, 2), (1, 3), (2, 3), (3, 4)]);
    let (plan, spots) = RadialLayout::layout(&mut g, tally);
    assert_eq!(
        plan,
        vec![
            Placement::Root { node: 0 },
            Placement::Ring { node: 2, index: 1, count: 2 },
            Placement::Ring { node: 1, index: 2, count: 2 },
            Placement::Fan { node: 3, parent: 1, index: 1, count: 1 },
            Placement::Fan { node: 3, parent: 2, index: 1, count: 1 },
            Placement::Fan { node: 4, parent: 3, index: 1, count: 1 },
        ]
    );
    // node 3 was placed around node 2 and then around node 1, and keeps the
    // last place; node 4 goes around that place, by the anchor of the first
    assert_eq!(spots[3].place, Position::new(10011, 1));
    assert_eq!(spots[4].place, Position::new(10021, 1));
    assert_eq!(g.node(3).unwrap().position, Position::new(10021, 1));
    assert_eq!(spots[5].place, Position::new(100211, 2));
    assert_eq!(spots[5].anchor.radius, 40);
    assert_eq!(g.node(4).unwrap().position, Position::new(100211, 2));
}

#[test]
fn layout_by_kind() {
    let mut g = graph(3, &[(0, 1), (1, 2)]);
    let mut h = graph(3, &[(0, 1), (1, 2)]);
    let by_kind = Layout::Radical.layout(&mut g, tally);
    let direct = RadialLayout::layout(&mut h, tally);
    assert_eq!(by_kind, direct);
    assert_eq!(places(&g), places(&h));
    assert_eq!(places(&g), vec![(0, 0), (1001, 0), (10011, 1)]);
}

#[test]
fn layout_of_the_empty_graph() {
    let mut g = graph(0, &[]);
    let (plan, spots) = RadialLayout::layout(&mut g, tally);
    assert!(plan.is_empty());
    assert!(spots.is_empty());
}

#[test]
fn place_carries_out_any_plan_in_order() {
    let mut g = graph(3, &[]);
    let plan = vec![
        Placement::Root { node: 2 },
        Placement::Fan { node: 0, parent: 0, index: 3, count: 4 },
        Placement::Fan { node: 9, parent: 1, index: 1, count: 1 },
        Placement::Fan { node: 2, parent: 2, index: 1, count: 1 },
    ];
    let spots = RadialLayout::place(&mut g, &plan, tally);
    assert_eq!(spots.len(), 4);
    assert_eq!(spots[0].place, Position::origin());
    assert_eq!(spots[1].place, Position::new(3, 1));
    assert_eq!(spots[2].place, Position::new(31, 2));
    // the node of step 2 is no node of the graph: its place counts as the origin
    assert_eq!(spots[3].place, Position::new(1, 3));
    assert_eq!(places(&g), vec![(3, 1), (0, 0), (1, 3)]);
}

#[test]
fn layout_puts_the_root_at_the_origin() {
    let mut g = graph(3, &[(0, 1), (1, 0), (1, 2), (2, 0)]);
    g.set_position(0, Position::new(5, 5));
    RadialLayout::layout(&mut g, tally);
    assert_eq!(g.node(0).unwrap().position, Position::origin());
}

#[test]
fn layout_puts_a_root_with_a_self_loop_on_its_ring() {
    let mut g = graph(2, &[(0, 0), (0, 1), (0, 1)]);
    let (plan, spots) = RadialLayout::layout(&mut g, tally);
    assert_eq!(plan[3], Placement::Ring { node: 0, index: 3, count: 3 });
    assert_eq!(spots[3].place, Position::new(1003, 0));
    assert_eq!(places(&g), vec![(1003, 0), (1002, 0)]);
}

fn reachable(n: usize, arcs: &[(usize, usize)]) -> Vec<usize> {
    let mut seen = vec![false; n];
    let mut stack = vec![];
    if n > 0 {
        seen[0] = true;
        stack.push(0);
    }
    while let Some(a) = stack.pop() {
        for (from, to) in arcs {
            if *from == a && !seen[*to] {
                seen[*to] = true;
                stack.push(*to);
            }
        }
    }
    (0..n).filter(|a| seen[*a]).collect()
}

#[test]
fn plan_places_what_the_root_leads_to() {
    let cases: Vec<(usize, Vec<(usize, usize)>)> = vec![
        (0, vec![]),
        (1, vec![]),
        (1, vec![(0, 0)]),
        (4, vec![(0, 1), (2, 3), (3, 0)]),
        (6, vec![(0, 1), (0, 2), (1, 3), (2, 3), (3, 4), (4, 1), (5, 5), (5, 0)]),
        (5, vec![(1, 0), (2, 1), (3, 2), (4, 3)]),
        (5, vec![(0, 4), (4, 3), (3, 2), (2, 1), (1, 0), (0, 4)]),
    ];
    for (n, arcs) in cases {
        let plan = RadialLayout::plan(&graph(n, &arcs));
        let mut placed: Vec<usize> = plan.iter().map(|p| p.node()).collect();
        placed.sort();
        placed.dedup();
        assert_eq!(placed, reachable(n, &arcs));
        for (k, step) in plan.iter().enumerate() {
            match *step {
                Placement::Root { node } => assert!(k == 0 && node == 0),
                Placement::Ring { index, count, .. } => {
                    assert!(k == index && 1 <= index && index <= count)
                }
                Placement::Fan { node, parent, index, count } => {
                    assert!(1 <= parent && parent < k && 1 <= index && index <= count);
                    assert!(node != 0);
                    assert!(arcs.contains(&(plan[parent].node(), node)));
                }
            }
        }
    }
}

#[test]
fn layout_keeps_the_sibling_flag_from_the_step() {
    let mut g = graph(4, &[(0, 1), (1, 2), (1, 3)]);
    let (plan, spots) = RadialLayout::layout(&mut g, tally);
    for (step, spot) in plan.iter().zip(spots.iter()) {
        assert_eq!(spot.anchor.has_siblings, step.has_siblings());
    }
    assert!(!spots[1].anchor.has_siblings);
    assert!(spots[2].anchor.has_siblings && spots[3].anchor.has_siblings);
}

#[test]
fn layout_again_changes_nothing() {
    let arcs = [(0, 1), (0, 2), (1, 3), (2, 3), (3, 4), (4, 1), (5, 5)];
    let mut g = graph(6, &arcs);
    g.set_position(5, Position::new(9, 9));
    g.set_position(3, Position::new(8, 8));
    let (plan, spots) = RadialLayout::layout(&mut g, tally);
    let once = places(&g);
    let (plan_again, spots_again) = RadialLayout::layout(&mut g, tally);
    assert_eq!(plan, plan_again);
    assert_eq!(spots, spots_again);
    assert_eq!(places(&g), once);
    assert_eq!(once[5], (9, 9));
}

#[test]
fn layout_does_not_depend_on_where_placed_nodes_lay() {
    let arcs = [(0, 1), (0, 2), (1, 3), (2, 3), (3, 4)];
    let mut g = graph(5, &arcs);
    let mut h = graph(5, &arcs);
    for a in 0..5 {
        h.set_position(a, Position::new(50 + a as u32, 60));
    }
    let first = RadialLayout::layout(&mut g, tally);
    let second = RadialLayout::layout(&mut h, tally);
    assert_eq!(first, second);
    assert_eq!(places(&g), places(&h));
}
