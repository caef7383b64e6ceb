//! The radial layout: the nodes in rings and fans around a root, breadth
//! first.
//!
//! The root is the node with the handle zero and lies at the origin. Its
//! children lie evenly on a circle around it. The nodes placed so far wait in
//! a queue; a node that is taken from the queue for the first time gets its
//! children that have not been taken yet fanned out around it, at half the
//! radius at which it was itself placed, and they join the queue. A node that
//! several nodes lead to is placed by each of them in turn and keeps the last
//! place, and is taken from the queue once, as the first of them queued it.
//! Nodes that the root does not lead to are not placed.
//!
//! The layout is worked out in two parts. The plan says which node is placed
//! when, around which node, and as which of how many children; it is whole
//! numbers and is computed here. Where a step then puts its node is
//! geometry, with angles, sines and cosines; the caller supplies it as a
//! function, and the layout hands each answer on to the steps that go by it.

use vstd::prelude::*;
use vstd::pervasive::unreached;
use std::collections::{HashSet, VecDeque};
use crate::graph::display::DisplayGraph;
use crate::graph::model::GraphModel;
use crate::graph::node::{GraphNode, Position};

verus! {

broadcast use vstd::std_specs::hash::group_hash_axioms;

/// The radius of the circle on which the children of the root lie.
pub const BASE_RADIUS: u32 = 160;

/// One step of a radial layout: a node and what its place goes by.
///
/// The steps of a plan are numbered from zero, and the queue holds the steps
/// after the first, in their order. Each kind of step says what the geometry
/// is meant to make of it.
#[derive(Debug, Clone, Copy, PartialEq, Eq, Structural)]
pub enum Placement {
    /// The root goes to the origin.
    Root { node: usize },
    /// The child `index` of `count` children of the root goes on the circle
    /// of the base radius around the origin, at `index / count` of a full
    /// turn. Its children will fan out from that angle plus half a turn.
    Ring { node: usize, index: usize, count: usize },
    /// The child `index` of `count` children of the node of step `parent`
    /// goes on a circle around where that node lies now. The radius is half
    /// the radius at which step `parent` placed its node. The angle is the
    /// angle from which the children of step `parent` fan out plus
    /// `(count + 2 * index + 1) / (2 * count)` of half a turn; the children
    /// of this node will fan out from that angle plus half a turn.
    Fan { node: usize, parent: usize, index: usize, count: usize },
}

impl Placement {
    /// The node that this step places.
    pub open spec fn spec_node(self) -> usize {
        match self {
            Placement::Root { node } => node,
            Placement::Ring { node, .. } => node,
            Placement::Fan { node, .. } => node,
        }
    }

    /// The node that this step places.
    #[verifier::when_used_as_spec(spec_node)]
    pub fn node(self) -> (node: usize)
        ensures
            node == self.spec_node(),
    {
        match self {
            Placement::Root { node } => node,
            Placement::Ring { node, .. } => node,
            Placement::Fan { node, .. } => node,
        }
    }

    /// Whether the node is placed together with others.
    pub open spec fn spec_has_siblings(self) -> bool {
        match self {
            Placement::Root { .. } => false,
            Placement::Ring { count, .. } => count > 1,
            Placement::Fan { count, .. } => count > 1,
        }
    }

    /// Whether the node is placed together with others.
    #[verifier::when_used_as_spec(spec_has_siblings)]
    pub fn has_siblings(self) -> (several: bool)
        ensures
            several == self.spec_has_siblings(),
    {
        match self {
            Placement::Root { .. } => false,
            Placement::Ring { count, .. } => count > 1,
            Placement::Fan { count, .. } => count > 1,
        }
    }
}

// ---------------------------------------------------------------------------
// The plan
// ---------------------------------------------------------------------------

/// The number of nodes among the first `n` that have not been taken from the
/// queue.
pub open spec fn waiting(taken: Seq<bool>, n: int) -> nat
    decreases n,
{
    if n <= 0 {
        0
    } else if taken[n - 1] {
        waiting(taken, n - 1)
    } else {
        waiting(taken, n - 1) + 1
    }
}

/// Those among the first `k` of `children` that have not been taken from the
/// queue, in their order and as often as they occur.
pub open spec fn fresh(children: Seq<usize>, taken: Seq<bool>, k: int) -> Seq<usize>
    decreases k,
{
    if k <= 0 {
        Seq::empty()
    } else if taken[children[k - 1] as int] {
        fresh(children, taken, k - 1)
    } else {
        fresh(children, taken, k - 1).push(children[k - 1])
    }
}

/// The steps that place the children of the root.
pub open spec fn ring(children: Seq<usize>) -> Seq<Placement> {
    Seq::new(
        children.len(),
        |i: int|
            Placement::Ring {
                node: children[i],
                index: (i + 1) as usize,
                count: children.len() as usize,
            },
    )
}

/// The steps that place the children of the node of step `parent`.
pub open spec fn fan(children: Seq<usize>, parent: usize) -> Seq<Placement> {
    Seq::new(
        children.len(),
        |i: int|
            Placement::Fan {
                node: children[i],
                parent,
                index: (i + 1) as usize,
                count: children.len() as usize,
            },
    )
}

/// Taking the node `a` from the queue leaves one node fewer waiting.
pub proof fn lemma_waiting_taken(taken: Seq<bool>, a: int, n: int)
    requires
        0 <= a < taken.len(),
        0 <= n <= taken.len(),
        !taken[a],
    ensures
        waiting(taken.update(a, true), n) == waiting(taken, n) - (if a < n {
            1int
        } else {
            0int
        }),
    decreases n,
{
    if n > 0 {
        lemma_waiting_taken(taken, a, n - 1);
    }
}

/// The plan that results from the steps `plan`, of which those before `head`
/// have left the queue, when the nodes marked in `taken` have been taken
/// from it.
pub open spec fn run(model: GraphModel, plan: Seq<Placement>, taken: Seq<bool>, head: int) -> Seq<
    Placement,
>
    decreases waiting(taken, taken.len() as int), plan.len() - head,
{
    if head < 0 || head >= plan.len() {
        plan
    } else {
        let a = plan[head].spec_node();
        if a >= taken.len() || taken[a as int] {
            run(model, plan, taken, head + 1)
        } else {
            proof {
                lemma_waiting_taken(taken, a as int, taken.len() as int);
            }
            let now = taken.update(a as int, true);
            let children = model.children(a);
            run(
                model,
                plan + fan(fresh(children, now, children.len() as int), head as usize),
                now,
                head + 1,
            )
        }
    }
}

/// The radial plan of a graph: empty for a graph without nodes, and else the
/// root, the ring of its children, and the fans that the queue yields.
pub open spec fn radial_plan(model: GraphModel) -> Seq<Placement> {
    if model.nodes.len() == 0 {
        Seq::empty()
    } else {
        run(
            model,
            seq![Placement::Root { node: 0 }] + ring(model.children(0)),
            Seq::new(model.nodes.len(), |i: int| i == 0),
            1,
        )
    }
}

/// Running the queue adds steps behind those that are there and changes none
/// of them.
proof fn lemma_run_extends(model: GraphModel, plan: Seq<Placement>, taken: Seq<bool>, head: int)
    ensures
        run(model, plan, taken, head).len() >= plan.len(),
        forall|k: int| 0 <= k < plan.len() ==> run(model, plan, taken, head)[k] == plan[k],
    decreases waiting(taken, taken.len() as int), plan.len() - head,
{
    if head < 0 || head >= plan.len() {
    } else {
        let a = plan[head].spec_node();
        if a >= taken.len() || taken[a as int] {
            lemma_run_extends(model, plan, taken, head + 1);
        } else {
            lemma_waiting_taken(taken, a as int, taken.len() as int);
            let now = taken.update(a as int, true);
            let children = model.children(a);
            let longer = plan + fan(fresh(children, now, children.len() as int), head as usize);
            lemma_run_extends(model, longer, now, head + 1);
            assert forall|k: int| 0 <= k < plan.len() implies run(model, plan, taken, head)[k]
                == plan[k] by {
                assert(longer[k] == plan[k]);
            }
        }
    }
}

/// A plan begins with the root at the origin, followed by the children of
/// the root, evenly on their circle: the child `k + 1` of `count` at
/// `(k + 1) / count` of a full turn.
pub proof fn lemma_plan_begins(model: GraphModel)
    requires
        model.nodes.len() > 0,
    ensures
        radial_plan(model).len() >= 1 + model.children(0).len(),
        radial_plan(model)[0] == (Placement::Root { node: 0 }),
        forall|k: int|
            0 <= k < model.children(0).len() ==> (#[trigger] radial_plan(model)[1 + k]) == (
            Placement::Ring {
                node: model.children(0)[k],
                index: (k + 1) as usize,
                count: model.children(0).len() as usize,
            }),
{
    let start = seq![Placement::Root { node: 0 }] + ring(model.children(0));
    lemma_run_extends(model, start, Seq::new(model.nodes.len(), |i: int| i == 0), 1);
    assert(start[0] == (Placement::Root { node: 0 }));
    assert forall|k: int| 0 <= k < model.children(0).len() implies (#[trigger] radial_plan(
        model,
    )[1 + k]) == (Placement::Ring {
        node: model.children(0)[k],
        index: (k + 1) as usize,
        count: model.children(0).len() as usize,
    }) by {
        assert(start[1 + k] == ring(model.children(0))[k]);
    }
}

/// Whether step `k` of `plan` is in order: the root comes first, a ring step
/// places a child of the root, and a fan step places a child of the node of
/// an earlier step of the queue, as one of the children it counts, and never
/// the root.
pub open spec fn in_order(model: GraphModel, plan: Seq<Placement>, k: int) -> bool {
    match plan[k] {
        Placement::Root { node } => k == 0 && node == 0,
        Placement::Ring { node, index, count } => {
            &&& k == index
            &&& 1 <= index <= count
            &&& count == model.children(0).len()
            &&& node == model.children(0)[index - 1]
        },
        Placement::Fan { node, parent, index, count } => {
            &&& 1 <= parent < k
            &&& 1 <= index <= count
            &&& node != 0
            &&& model.children(plan[parent as int].spec_node()).contains(node)
        },
    }
}

/// Whether every step of `plan` is in order.
pub open spec fn sound(model: GraphModel, plan: Seq<Placement>) -> bool {
    forall|k: int| 0 <= k < plan.len() ==> in_order(model, plan, k)
}

/// Whether one of the first `k` steps of `plan` places the node `a`.
pub open spec fn names(plan: Seq<Placement>, k: int, a: int) -> bool {
    exists|j: int| 0 <= j < k && j < plan.len() && (#[trigger] plan[j]).spec_node() == a
}

/// Whether `steps` edges in a row lead from the root to the node `a`.
pub open spec fn leads_to(model: GraphModel, a: usize, steps: nat) -> bool
    decreases steps,
{
    if steps == 0 {
        a == 0 && model.nodes.len() > 0
    } else {
        exists|b: usize|
            leads_to(model, b, (steps - 1) as nat) && #[trigger] model.children(b).contains(a)
    }
}

/// Whether the root leads to the node `a`: over no edge, or over some.
pub open spec fn reachable(model: GraphModel, a: usize) -> bool {
    exists|steps: nat| leads_to(model, a, steps)
}

/// A plan in order places no node but those that the root leads to.
pub proof fn lemma_placed_are_reachable(model: GraphModel, plan: Seq<Placement>, k: int)
    requires
        sound(model, plan),
        model.nodes.len() > 0,
        0 <= k < plan.len(),
    ensures
        reachable(model, plan[k].spec_node()),
    decreases k,
{
    assert(in_order(model, plan, k));
    match plan[k] {
        Placement::Root { node } => {
            assert(leads_to(model, node, 0));
        },
        Placement::Ring { node, index, .. } => {
            assert(leads_to(model, 0, 0));
            assert(model.children(0).contains(model.children(0)[index - 1]));
            assert(leads_to(model, node, 1));
        },
        Placement::Fan { node, parent, .. } => {
            lemma_placed_are_reachable(model, plan, parent as int);
            let b = plan[parent as int].spec_node();
            let steps = choose|steps: nat| leads_to(model, b, steps);
            assert(model.children(b).contains(node));
            assert(leads_to(model, node, steps + 1));
        },
    }
}

/// In a graph without nodes the root leads nowhere.
proof fn lemma_no_root(model: GraphModel, a: usize, steps: nat)
    requires
        model.nodes.len() == 0,
    ensures
        !leads_to(model, a, steps),
    decreases steps,
{
    if steps > 0 && leads_to(model, a, steps) {
        let b = choose|b: usize|
            leads_to(model, b, (steps - 1) as nat) && #[trigger] model.children(b).contains(a);
        lemma_no_root(model, b, (steps - 1) as nat);
    }
}

/// Whether the queue has seen to the nodes taken from it: each of them is
/// placed by a step, and so is each of its children.
spec fn seen_to(model: GraphModel, plan: Seq<Placement>, taken: Seq<bool>) -> bool {
    forall|a: int|
        0 <= a < taken.len() && #[trigger] taken[a] ==> names(plan, plan.len() as int, a)
            && forall|i: int|
            0 <= i < model.children(a as usize).len() ==> names(
                plan,
                plan.len() as int,
                #[trigger] model.children(a as usize)[i] as int,
            )
}

/// What a plan names, a longer plan names.
proof fn lemma_names_more(plan: Seq<Placement>, longer: Seq<Placement>, a: int)
    requires
        plan.len() <= longer.len(),
        forall|k: int| 0 <= k < plan.len() ==> plan[k] == longer[k],
        names(plan, plan.len() as int, a),
    ensures
        names(longer, longer.len() as int, a),
{
    let j = choose|j: int| 0 <= j < plan.len() && j < plan.len() && (#[trigger] plan[j]).spec_node() == a;
    assert(longer[j].spec_node() == a);
}

/// What `fresh` keeps: every child among the first `k` that has not been
/// taken.
proof fn lemma_fresh_keeps(children: Seq<usize>, taken: Seq<bool>, k: int, i: int)
    requires
        0 <= i < k <= children.len(),
        !taken[children[i] as int],
    ensures
        fresh(children, taken, k).contains(children[i]),
    decreases k,
{
    let all = fresh(children, taken, k);
    if i < k - 1 {
        lemma_fresh_keeps(children, taken, k - 1, i);
        let rest = fresh(children, taken, k - 1);
        let at = choose|at: int| 0 <= at < rest.len() && rest[at] == children[i];
        assert(all[at] == children[i]);
    } else {
        assert(all[all.len() - 1] == children[i]);
    }
}

/// When the queue is empty, every node that the root leads to has been
/// taken from it.
proof fn lemma_reachable_are_taken(
    model: GraphModel,
    plan: Seq<Placement>,
    taken: Seq<bool>,
    a: usize,
    steps: nat,
)
    requires
        taken.len() == model.nodes.len(),
        taken.len() > 0 ==> taken[0],
        seen_to(model, plan, taken),
        forall|k: int|
            0 <= k < plan.len() ==> (#[trigger] plan[k]).spec_node() < taken.len()
                && taken[plan[k].spec_node() as int],
        leads_to(model, a, steps),
    ensures
        a < taken.len() && taken[a as int],
    decreases steps,
{
    if steps > 0 {
        let b = choose|b: usize|
            leads_to(model, b, (steps - 1) as nat) && #[trigger] model.children(b).contains(a);
        lemma_reachable_are_taken(model, plan, taken, b, (steps - 1) as nat);
        let i = choose|i: int| 0 <= i < model.children(b).len() && model.children(b)[i] == a;
        let at = b as int;
        assert(taken[at]);
        assert(at as usize == b);
        assert(names(plan, plan.len() as int, model.children(at as usize)[i] as int));
        let j = choose|j: int|
            0 <= j < plan.len() && j < plan.len() && (#[trigger] plan[j]).spec_node() == a as int;
        assert(taken[plan[j].spec_node() as int]);
    }
}

// ---------------------------------------------------------------------------
// Planning
// ---------------------------------------------------------------------------

/// The radial layout.
#[derive(Debug, Default)]
pub struct RadialLayout;

/// Whether `visited` holds the nodes that `taken` marks, and no other.
spec fn marks(visited: Set<usize>, taken: Seq<bool>) -> bool {
    forall|a: usize| #[trigger] visited.contains(a) <==> a < taken.len() && taken[a as int]
}

/// Marking one node more in both keeps them in step.
proof fn lemma_marks_more(visited: Set<usize>, taken: Seq<bool>, a: usize)
    requires
        marks(visited, taken),
        a < taken.len(),
    ensures
        marks(visited.insert(a), taken.update(a as int, true)),
{
    let more = taken.update(a as int, true);
    assert forall|b: usize| #[trigger]
        visited.insert(a).contains(b) <==> b < more.len() && more[b as int] by {
        if b != a {
            assert(visited.contains(b) <==> b < taken.len() && taken[b as int]);
        }
    }
}

/// Whether `queue` holds the steps from `head` on, in their order.
spec fn holds(queue: Seq<usize>, head: int, steps: int) -> bool {
    &&& queue.len() == steps - head
    &&& forall|i: int| 0 <= i < queue.len() ==> #[trigger] queue[i] == head + i
}

/// Those of `children` that have not been taken from the queue.
fn fresh_children(children: &Vec<usize>, visited: &HashSet<usize>, Ghost(taken): Ghost<Seq<bool>>) -> (kept:
    Vec<usize>)
    requires
        marks(visited@, taken),
        forall|i: int| 0 <= i < children.len() ==> (#[trigger] children[i]) < taken.len(),
    ensures
        kept@ == fresh(children@, taken, children.len() as int),
        kept.len() <= children.len(),
        forall|i: int| 0 <= i < kept.len() ==> (#[trigger] kept[i]) < taken.len(),
        forall|i: int| 0 <= i < kept.len() ==> children@.contains(#[trigger] kept[i]),
        forall|i: int| 0 <= i < kept.len() ==> !taken[(#[trigger] kept[i]) as int],
{
    let mut kept: Vec<usize> = Vec::new();
    let mut k: usize = 0;
    while k < children.len()
        invariant
            k <= children.len(),
            marks(visited@, taken),
            forall|i: int| 0 <= i < children.len() ==> (#[trigger] children[i]) < taken.len(),
            kept@ == fresh(children@, taken, k as int),
            kept.len() <= k,
            forall|i: int| 0 <= i < kept.len() ==> (#[trigger] kept[i]) < taken.len(),
            forall|i: int| 0 <= i < kept.len() ==> children@.contains(#[trigger] kept[i]),
            forall|i: int| 0 <= i < kept.len() ==> !taken[(#[trigger] kept[i]) as int],
        decreases children.len() - k,
    {
        let child = children[k];
        assert(visited@.contains(child) <==> taken[child as int]);
        if !visited.contains(&child) {
            kept.push(child);
            assert(children@[k as int] == child);
        }
        k += 1;
    }
    kept
}

impl RadialLayout {
    /// Plans the radial layout of `graph`: the steps that place the nodes
    /// that the root leads to, in the order in which they are to be carried
    /// out, every step in order.
    pub fn plan(graph: &DisplayGraph) -> (plan: Vec<Placement>)
        requires
            graph.wf(),
        ensures
            plan@ == radial_plan(graph@),
            sound(graph@, plan@),
            forall|a: usize|
                reachable(graph@, a) <==> #[trigger] names(plan@, plan.len() as int, a as int),
    {
        let ghost model = graph@;
        let n = graph.node_count();
        let mut plan: Vec<Placement> = Vec::new();
        if n == 0 {
            proof {
                assert forall|a: usize| !(#[trigger] reachable(model, a)) by {
                    if reachable(model, a) {
                        let steps = choose|steps: nat| leads_to(model, a, steps);
                        lemma_no_root(model, a, steps);
                    }
                }
            }
            return plan;
        }
        let mut queue: VecDeque<usize> = VecDeque::new();
        let mut visited: HashSet<usize> = HashSet::new();
        let ghost mut taken: Seq<bool> = Seq::new(model.nodes.len(), |i: int| i == 0);
        visited.insert(0);
        assert(marks(visited@, taken));

        plan.push(Placement::Root { node: 0 });
        let children = graph.children(0);
        let count = children.len();
        let mut i: usize = 0;
        while i < count
            invariant
                i <= count == children.len(),
                children@ == model.children(0),
                plan@ == seq![Placement::Root { node: 0 }] + ring(children@).take(i as int),
                sound(model, plan@),
                holds(queue@, 1, plan.len() as int),
            decreases count - i,
        {
            queue.push_back(plan.len());
            plan.push(Placement::Ring { node: children[i], index: i + 1, count });
            proof {
                assert(ring(children@).take(i + 1) == ring(children@).take(i as int).push(
                    ring(children@)[i as int],
                ));
            }
            i += 1;
        }
        assert(ring(children@).take(count as int) == ring(children@));
        proof {
            assert(plan@[0].spec_node() == 0);
            assert(names(plan@, plan.len() as int, 0));
            assert forall|i: int| 0 <= i < model.children(0).len() implies names(
                plan@,
                plan.len() as int,
                #[trigger] model.children(0)[i] as int,
            ) by {
                assert(plan@[1 + i] == ring(children@)[i]);
                assert(plan@[1 + i].spec_node() == model.children(0)[i]);
            }
            assert(seen_to(model, plan@, taken));
        }

        let ghost mut head: int = 1;
        while queue.len() > 0
            invariant
                graph.wf(),
                model == graph@,
                n == model.nodes.len(),
                taken.len() == n,
                marks(visited@, taken),
                1 <= head <= plan.len(),
                holds(queue@, head, plan.len() as int),
                forall|k: int| 0 <= k < plan.len() ==> (#[trigger] plan[k]).spec_node() < n,
                run(model, plan@, taken, head) == radial_plan(model),
                sound(model, plan@),
                n > 0,
                taken[0],
                seen_to(model, plan@, taken),
                forall|k: int| 1 <= k < head ==> taken[(#[trigger] plan[k]).spec_node() as int],
            decreases waiting(taken, n as int), queue.len(),
        {
            let at = match queue.pop_front() {
                Some(at) => at,
                None => unreached(),
            };
            assert(at == head);
            assert(holds(queue@, head + 1, plan.len() as int));
            let a = plan[at].node();
            assert(visited@.contains(a) <==> taken[a as int]);
            if !visited.contains(&a) {
                proof {
                    lemma_waiting_taken(taken, a as int, n as int);
                }
                let ghost earlier = taken;
                let ghost seen = visited@;
                visited.insert(a);
                proof {
                    taken = taken.update(a as int, true);
                    lemma_marks_more(seen, earlier, a);
                }
                let children = graph.children(a);
                let kept = fresh_children(&children, &visited, Ghost(taken));
                let count = kept.len();
                let ghost before = plan@;
                let mut i: usize = 0;
                while i < count
                    invariant
                        i <= count == kept.len(),
                        1 <= at < before.len(),
                        at == head,
                        forall|k: int| 0 <= k < kept.len() ==> (#[trigger] kept[k]) < n,
                        plan@ == before + fan(kept@, at).take(i as int),
                        forall|k: int| 0 <= k < plan.len() ==> (#[trigger] plan[k]).spec_node() < n,
                        before[at as int].spec_node() == a,
                        children@ == model.children(a),
                        forall|k: int| 0 <= k < kept.len() ==> children@.contains(#[trigger] kept[k]),
                        forall|k: int| 0 <= k < kept.len() ==> (#[trigger] kept[k]) != 0,
                        sound(model, plan@),
                        holds(queue@, head + 1, plan.len() as int),
                    decreases count - i,
                {
                    let ghost shorter = plan@;
                    queue.push_back(plan.len());
                    plan.push(Placement::Fan { node: kept[i], parent: at, index: i + 1, count });
                    proof {
                        assert(fan(kept@, at).take(i + 1) == fan(kept@, at).take(i as int).push(
                            fan(kept@, at)[i as int],
                        ));
                        assert forall|k: int| 0 <= k < plan.len() implies in_order(
                            model,
                            plan@,
                            k,
                        ) by {
                            if k < shorter.len() {
                                assert(in_order(model, shorter, k));
                                assert(plan@[k] == shorter[k]);
                                match shorter[k] {
                                    Placement::Fan { parent, .. } => {
                                        assert(plan@[parent as int] == shorter[parent as int]);
                                    },
                                    _ => {},
                                }
                            } else {
                                assert(k == shorter.len());
                                assert(shorter.len() == before.len() + i);
                                assert(plan@[at as int] == before[at as int]);
                                assert(children@.contains(kept[i as int]));
                            }
                        }
                    }
                    i += 1;
                }
                assert(fan(kept@, at).take(count as int) == fan(kept@, at));
                proof {
                    assert forall|b: int| 0 <= b < n && #[trigger] taken[b] implies names(
                        plan@,
                        plan.len() as int,
                        b,
                    ) && forall|i: int|
                        0 <= i < model.children(b as usize).len() ==> names(
                            plan@,
                            plan.len() as int,
                            #[trigger] model.children(b as usize)[i] as int,
                        ) by {
                        if b == a {
                            assert(plan@[at as int].spec_node() == a);
                            assert forall|i: int|
                                0 <= i < model.children(a).len() implies names(
                                plan@,
                                plan.len() as int,
                                #[trigger] model.children(a)[i] as int,
                            ) by {
                                let c = model.children(a)[i];
                                if taken[c as int] {
                                    if c != a {
                                        assert(earlier[c as int]);
                                        lemma_names_more(before, plan@, c as int);
                                    }
                                } else {
                                    lemma_fresh_keeps(children@, taken, children.len() as int, i);
                                    let j = choose|j: int| 0 <= j < kept.len() && kept@[j] == c;
                                    assert(plan@[before.len() + j] == fan(kept@, at)[j]);
                                    assert(plan@[before.len() + j].spec_node() == c);
                                }
                            }
                        } else {
                            assert(earlier[b]);
                            lemma_names_more(before, plan@, b);
                            assert forall|i: int|
                                0 <= i < model.children(b as usize).len() implies names(
                                plan@,
                                plan.len() as int,
                                #[trigger] model.children(b as usize)[i] as int,
                            ) by {
                                lemma_names_more(
                                    before,
                                    plan@,
                                    model.children(b as usize)[i] as int,
                                );
                            }
                        }
                    }
                    assert forall|k: int| 1 <= k < head + 1 implies taken[(
                    #[trigger] plan[k]).spec_node() as int] by {
                        assert(plan@[k] == before[k]);
                    }
                }
            }
            proof {
                head = head + 1;
            }
        }
        proof {
            assert(head == plan.len());
            assert forall|a: usize| reachable(model, a) <==> #[trigger] names(
                plan@,
                plan.len() as int,
                a as int,
            ) by {
                if reachable(model, a) {
                    let steps = choose|steps: nat| leads_to(model, a, steps);
                    assert forall|k: int| 0 <= k < plan.len() implies (
                    #[trigger] plan@[k]).spec_node() < taken.len()
                        && taken[plan@[k].spec_node() as int] by {
                        assert(in_order(model, plan@, k));
                    }
                    lemma_reachable_are_taken(model, plan@, taken, a, steps);
                }
                if names(plan@, plan.len() as int, a as int) {
                    let j = choose|j: int|
                        0 <= j < plan.len() && j < plan.len() && (#[trigger] plan@[j]).spec_node()
                            == a as int;
                    lemma_placed_are_reachable(model, plan@, j);
                }
            }
        }
        plan
    }
}

// ---------------------------------------------------------------------------
// Carrying a plan out
// ---------------------------------------------------------------------------

/// What the queue keeps of a placed node for the sake of its children:
/// whether it was placed together with others, the angle from which its
/// children fan out, and the radius at which it was placed. Angle and radius
/// are bit patterns, like coordinates: the layout hands them on and never
/// computes with them.
#[derive(Debug, Clone, Copy, PartialEq, Eq, Structural)]
pub struct Anchor {
    pub has_siblings: bool,
    pub fan_from: u32,
    pub radius: u32,
}

/// Where a step puts its node, and what the queue keeps of it; for the
/// children of a node: where the node lies, and what the queue kept of it.
#[derive(Debug, Clone, Copy, PartialEq, Eq, Structural)]
pub struct Spot {
    pub place: Position,
    pub anchor: Anchor,
}

/// What the geometry answers for a step: where the node goes, the angle from
/// which its children fan out, and the radius at which it lies.
#[derive(Debug, Clone, Copy, PartialEq, Eq, Structural)]
pub struct Located {
    pub place: Position,
    pub fan_from: u32,
    pub radius: u32,
}

/// The spot of the root: at the origin, and nothing for the queue to keep.
pub open spec fn root_spot() -> Spot {
    Spot {
        place: Position { x: 0, y: 0 },
        anchor: Anchor { has_siblings: false, fan_from: 0, radius: 0 },
    }
}

/// The spot that an answer of the geometry makes for a step: the answer,
/// and whether the step places its node together with others.
pub open spec fn spot_of(step: Placement, answer: Located) -> Spot {
    Spot {
        place: answer.place,
        anchor: Anchor {
            has_siblings: step.has_siblings(),
            fan_from: answer.fan_from,
            radius: answer.radius,
        },
    }
}

/// The answer of the geometry that a spot holds.
pub open spec fn answer_of(spot: Spot) -> Located {
    Located { place: spot.place, fan_from: spot.anchor.fan_from, radius: spot.anchor.radius }
}

/// What the geometry is ever asked: a ring step that goes by nothing, or a
/// fan step that goes by a spot.
pub open spec fn asked(step: Placement, by: Option<Spot>) -> bool {
    match step {
        Placement::Root { .. } => false,
        Placement::Ring { .. } => by is None,
        Placement::Fan { .. } => by is Some,
    }
}

/// Where the node `a` lies, or the origin where there is no such node.
pub open spec fn place_of(nodes: Seq<GraphNode>, a: usize) -> Position {
    if a < nodes.len() {
        nodes[a as int].position
    } else {
        Position { x: 0, y: 0 }
    }
}

/// The nodes after the first `k` steps of `plan` put their nodes where
/// `spots` say. A later step overrides an earlier one.
pub open spec fn carried_out(
    nodes: Seq<GraphNode>,
    plan: Seq<Placement>,
    spots: Seq<Spot>,
    k: int,
) -> Seq<GraphNode>
    decreases k,
{
    if k <= 0 {
        nodes
    } else {
        let before = carried_out(nodes, plan, spots, k - 1);
        let a = plan[k - 1].spec_node();
        if a < before.len() {
            before.update(a as int, GraphNode { position: spots[k - 1].place, ..before[a as int] })
        } else {
            before
        }
    }
}

/// What step `k` goes by: nothing for the root and its ring, and for a fan
/// step where the node of its parent step lies when the step is carried
/// out, with what the queue kept of that node.
pub open spec fn centre(
    nodes: Seq<GraphNode>,
    plan: Seq<Placement>,
    spots: Seq<Spot>,
    k: int,
) -> Option<Spot> {
    match plan[k] {
        Placement::Fan { parent, .. } => Some(
            Spot {
                place: place_of(
                    carried_out(nodes, plan, spots, k),
                    plan[parent as int].spec_node(),
                ),
                anchor: spots[parent as int].anchor,
            },
        ),
        _ => None,
    }
}

/// Whether `spots` answer step `k` of `plan`: the root has its spot, and
/// every other step has the spot that its step makes of what `locate` can
/// have answered when told the step and what it goes by.
pub open spec fn answered<F: Fn(Placement, Option<Spot>) -> Located>(
    locate: F,
    nodes: Seq<GraphNode>,
    plan: Seq<Placement>,
    spots: Seq<Spot>,
    k: int,
) -> bool {
    match plan[k] {
        Placement::Root { .. } => spots[k] == root_spot(),
        _ => spots[k] == spot_of(plan[k], answer_of(spots[k])) && call_ensures(
            locate,
            (plan[k], centre(nodes, plan, spots, k)),
            answer_of(spots[k]),
        ),
    }
}

/// Whether every fan step of `plan` names an earlier step as its parent.
pub open spec fn parents_first(plan: Seq<Placement>) -> bool {
    forall|k: int|
        0 <= k < plan.len() ==> (#[trigger] plan[k] matches Placement::Fan { parent, .. } ==> parent
            < k)
}

/// Carrying a plan out moves the nodes that its steps name and changes
/// nothing else: no other node, and nothing but the place of a node.
proof fn lemma_carried_out(
    nodes: Seq<GraphNode>,
    plan: Seq<Placement>,
    spots: Seq<Spot>,
    k: int,
)
    requires
        0 <= k <= plan.len(),
    ensures
        carried_out(nodes, plan, spots, k).len() == nodes.len(),
        forall|a: int|
            0 <= a < nodes.len() ==> (#[trigger] carried_out(nodes, plan, spots, k)[a]) == (
            GraphNode { position: carried_out(nodes, plan, spots, k)[a].position, ..nodes[a] }),
        forall|a: int|
            0 <= a < nodes.len() && !names(plan, k, a) ==> (#[trigger] carried_out(
                nodes,
                plan,
                spots,
                k,
            )[a]) == nodes[a],
    decreases k,
{
    if k > 0 {
        lemma_carried_out(nodes, plan, spots, k - 1);
        assert forall|a: int| 0 <= a < nodes.len() && !names(plan, k, a) implies (
        #[trigger] carried_out(nodes, plan, spots, k)[a]) == nodes[a] by {
            assert(plan[k - 1].spec_node() != a);
            assert(!names(plan, k - 1, a)) by {
                if names(plan, k - 1, a) {
                    let j = choose|j: int|
                        0 <= j < k - 1 && j < plan.len() && (#[trigger] plan[j]).spec_node() == a;
                    assert(plan[j].spec_node() == a);
                }
            }
        }
    }
}

/// `carried_out` looks at the first `k` spots only.
proof fn lemma_carried_out_prefix(
    nodes: Seq<GraphNode>,
    plan: Seq<Placement>,
    first: Seq<Spot>,
    second: Seq<Spot>,
    k: int,
)
    requires
        0 <= k <= first.len(),
        k <= second.len(),
        forall|j: int| 0 <= j < k ==> first[j] == second[j],
    ensures
        carried_out(nodes, plan, first, k) == carried_out(nodes, plan, second, k),
    decreases k,
{
    if k > 0 {
        lemma_carried_out_prefix(nodes, plan, first, second, k - 1);
    }
}

/// Where a node lies that one of the first `k` steps names does not depend
/// on where it lay before.
proof fn lemma_named_place(
    first: Seq<GraphNode>,
    second: Seq<GraphNode>,
    plan: Seq<Placement>,
    spots: Seq<Spot>,
    k: int,
    a: int,
)
    requires
        first.len() == second.len(),
        0 <= k <= plan.len(),
        0 <= a < first.len(),
        names(plan, k, a),
    ensures
        carried_out(first, plan, spots, k)[a].position == carried_out(
            second,
            plan,
            spots,
            k,
        )[a].position,
    decreases k,
{
    if k > 0 {
        lemma_carried_out(first, plan, spots, k - 1);
        lemma_carried_out(second, plan, spots, k - 1);
        if plan[k - 1].spec_node() != a {
            let j = choose|j: int|
                0 <= j < k && j < plan.len() && (#[trigger] plan[j]).spec_node() == a;
            assert(plan[j].spec_node() == a);
            assert(names(plan, k - 1, a));
            lemma_named_place(first, second, plan, spots, k - 1, a);
        }
    }
}

/// What step `k` goes by depends on the spots of earlier steps only, and not
/// on where the nodes lay before the plan was carried out.
proof fn lemma_centre_same(
    first_nodes: Seq<GraphNode>,
    second_nodes: Seq<GraphNode>,
    plan: Seq<Placement>,
    first: Seq<Spot>,
    second: Seq<Spot>,
    k: int,
)
    requires
        first_nodes.len() == second_nodes.len(),
        0 <= k < plan.len(),
        k <= first.len(),
        k <= second.len(),
        forall|j: int| 0 <= j < k ==> first[j] == second[j],
        parents_first(plan),
    ensures
        centre(first_nodes, plan, first, k) == centre(second_nodes, plan, second, k),
{
    lemma_carried_out_prefix(second_nodes, plan, first, second, k);
    lemma_carried_out(first_nodes, plan, first, k);
    lemma_carried_out(second_nodes, plan, first, k);
    match plan[k] {
        Placement::Fan { parent, .. } => {
            let centre = plan[parent as int].spec_node();
            if centre < first_nodes.len() {
                assert(names(plan, k, centre as int));
                lemma_named_place(first_nodes, second_nodes, plan, first, k, centre as int);
            }
        },
        _ => {},
    }
}

/// Two runs of a plan with a geometry that is a function agree on the first
/// `k` steps.
proof fn lemma_same_spots<F: Fn(Placement, Option<Spot>) -> Located>(
    locate: F,
    first_nodes: Seq<GraphNode>,
    second_nodes: Seq<GraphNode>,
    plan: Seq<Placement>,
    first: Seq<Spot>,
    second: Seq<Spot>,
    k: int,
)
    requires
        0 <= k <= plan.len(),
        first_nodes.len() == second_nodes.len(),
        forall|step: Placement, by: Option<Spot>, one: Located, other: Located|
            call_ensures(locate, (step, by), one) && call_ensures(locate, (step, by), other)
                ==> one == other,
        parents_first(plan),
        first.len() == plan.len(),
        second.len() == plan.len(),
        forall|j: int|
            0 <= j < plan.len() ==> #[trigger] answered(locate, first_nodes, plan, first, j),
        forall|j: int|
            0 <= j < plan.len() ==> #[trigger] answered(locate, second_nodes, plan, second, j),
    ensures
        forall|j: int| 0 <= j < k ==> first[j] == second[j],
    decreases k,
{
    if k > 0 {
        lemma_same_spots(locate, first_nodes, second_nodes, plan, first, second, k - 1);
        lemma_centre_same(first_nodes, second_nodes, plan, first, second, k - 1);
        assert(answered(locate, first_nodes, plan, first, k - 1));
        assert(answered(locate, second_nodes, plan, second, k - 1));
    }
}

/// A layout is determined by the graph and the geometry.
///
/// Let `locate` be a function: what it answers depends on what it is asked
/// and on nothing else. Then two runs of a plan lead to the same spots, step
/// by step, wherever the nodes lay before, and leave every node that the
/// plan names in the same place. Two runs on the same nodes leave every
/// node in the same place.
pub proof fn lemma_layout_is_determined<F: Fn(Placement, Option<Spot>) -> Located>(
    locate: F,
    first_nodes: Seq<GraphNode>,
    second_nodes: Seq<GraphNode>,
    plan: Seq<Placement>,
    first: Seq<Spot>,
    second: Seq<Spot>,
)
    requires
        forall|step: Placement, by: Option<Spot>, one: Located, other: Located|
            call_ensures(locate, (step, by), one) && call_ensures(locate, (step, by), other)
                ==> one == other,
        parents_first(plan),
        first_nodes.len() == second_nodes.len(),
        first.len() == plan.len(),
        second.len() == plan.len(),
        forall|k: int|
            0 <= k < plan.len() ==> #[trigger] answered(locate, first_nodes, plan, first, k),
        forall|k: int|
            0 <= k < plan.len() ==> #[trigger] answered(locate, second_nodes, plan, second, k),
    ensures
        first == second,
        forall|a: int|
            0 <= a < first_nodes.len() && names(plan, plan.len() as int, a) ==> (
            #[trigger] carried_out(first_nodes, plan, first, plan.len() as int)[a]).position
                == carried_out(second_nodes, plan, second, plan.len() as int)[a].position,
        first_nodes == second_nodes ==> carried_out(first_nodes, plan, first, plan.len() as int)
            == carried_out(second_nodes, plan, second, plan.len() as int),
{
    lemma_same_spots(locate, first_nodes, second_nodes, plan, first, second, plan.len() as int);
    assert(first =~= second);
    assert forall|a: int|
        0 <= a < first_nodes.len() && names(plan, plan.len() as int, a) implies (
    #[trigger] carried_out(first_nodes, plan, first, plan.len() as int)[a]).position
        == carried_out(second_nodes, plan, second, plan.len() as int)[a].position by {
        lemma_named_place(first_nodes, second_nodes, plan, first, plan.len() as int, a);
    }
}

/// Laying out once more changes nothing.
///
/// Let `locate` be a function, and let a plan be carried out on the nodes
/// that it was carried out on before. Then the second run leads to the
/// spots of the first and leaves every node where the first run left it.
pub proof fn lemma_layout_again<F: Fn(Placement, Option<Spot>) -> Located>(
    locate: F,
    nodes: Seq<GraphNode>,
    plan: Seq<Placement>,
    spots: Seq<Spot>,
    again: Seq<Spot>,
)
    requires
        forall|step: Placement, by: Option<Spot>, one: Located, other: Located|
            call_ensures(locate, (step, by), one) && call_ensures(locate, (step, by), other)
                ==> one == other,
        parents_first(plan),
        spots.len() == plan.len(),
        again.len() == plan.len(),
        forall|k: int| 0 <= k < plan.len() ==> #[trigger] answered(locate, nodes, plan, spots, k),
        forall|k: int|
            0 <= k < plan.len() ==> #[trigger] answered(
                locate,
                carried_out(nodes, plan, spots, plan.len() as int),
                plan,
                again,
                k,
            ),
    ensures
        again == spots,
        carried_out(
            carried_out(nodes, plan, spots, plan.len() as int),
            plan,
            again,
            plan.len() as int,
        ) == carried_out(nodes, plan, spots, plan.len() as int),
{
    let n = plan.len() as int;
    let once = carried_out(nodes, plan, spots, n);
    lemma_carried_out(nodes, plan, spots, n);
    lemma_layout_is_determined(locate, nodes, once, plan, spots, again);
    let twice = carried_out(once, plan, again, n);
    lemma_carried_out(once, plan, again, n);
    assert forall|a: int| 0 <= a < once.len() implies twice[a] == once[a] by {
        if names(plan, n, a) {
            lemma_named_place(once, nodes, plan, spots, n, a);
        }
    }
    assert(twice =~= once);
}

/// The plan of a graph does not depend on where its nodes lie.
pub proof fn lemma_plan_ignores_places(first: GraphModel, second: GraphModel)
    requires
        first.links == second.links,
        first.nodes.len() == second.nodes.len(),
    ensures
        radial_plan(first) == radial_plan(second),
{
    if first.nodes.len() > 0 {
        assert(first.children(0) == second.children(0));
        lemma_run_same(
            first,
            second,
            seq![Placement::Root { node: 0 }] + ring(first.children(0)),
            Seq::new(first.nodes.len(), |i: int| i == 0),
            1,
        );
    }
}

/// The queue runs alike on graphs with the same edges.
proof fn lemma_run_same(
    first: GraphModel,
    second: GraphModel,
    plan: Seq<Placement>,
    taken: Seq<bool>,
    head: int,
)
    requires
        first.links == second.links,
    ensures
        run(first, plan, taken, head) == run(second, plan, taken, head),
    decreases waiting(taken, taken.len() as int), plan.len() - head,
{
    if head < 0 || head >= plan.len() {
    } else {
        let a = plan[head].spec_node();
        if a >= taken.len() || taken[a as int] {
            lemma_run_same(first, second, plan, taken, head + 1);
        } else {
            lemma_waiting_taken(taken, a as int, taken.len() as int);
            let now = taken.update(a as int, true);
            assert(first.children(a) == second.children(a));
            let children = first.children(a);
            lemma_run_same(
                first,
                second,
                plan + fan(fresh(children, now, children.len() as int), head as usize),
                now,
                head + 1,
            );
        }
    }
}

/// A node that the first step puts somewhere and no later step names lies
/// where the first step put it.
proof fn lemma_root_stays(nodes: Seq<GraphNode>, plan: Seq<Placement>, spots: Seq<Spot>, k: int)
    requires
        1 <= k <= plan.len(),
        plan[0].spec_node() < nodes.len(),
        forall|j: int|
            1 <= j < plan.len() ==> (#[trigger] plan[j]).spec_node() != plan[0].spec_node(),
    ensures
        carried_out(nodes, plan, spots, k).len() == nodes.len(),
        carried_out(nodes, plan, spots, k)[plan[0].spec_node() as int].position == spots[0].place,
    decreases k,
{
    lemma_carried_out(nodes, plan, spots, k - 1);
    if k > 1 {
        lemma_root_stays(nodes, plan, spots, k - 1);
        assert(plan[k - 1].spec_node() != plan[0].spec_node());
    }
}

impl RadialLayout {
    /// Carries `plan` out on `graph`, step by step: puts the root at the
    /// origin, and for every other step asks `locate` where its node goes
    /// and puts it there. `locate` is told the step and what the step goes
    /// by, see [`centre`]; whether a node was placed together with others
    /// is kept from its step. Returns the spots, step by step. Steps that
    /// name no node of the graph move nothing.
    pub fn place<F: Fn(Placement, Option<Spot>) -> Located>(
        graph: &mut DisplayGraph,
        plan: &Vec<Placement>,
        locate: F,
    ) -> (spots: Vec<Spot>)
        requires
            old(graph).wf(),
            parents_first(plan@),
            forall|step: Placement, by: Option<Spot>|
                asked(step, by) ==> call_requires(locate, (step, by)),
        ensures
            final(graph).wf(),
            final(graph)@.links == old(graph)@.links,
            spots.len() == plan.len(),
            forall|k: int|
                0 <= k < plan.len() ==> #[trigger] answered(
                    locate,
                    old(graph)@.nodes,
                    plan@,
                    spots@,
                    k,
                ),
            final(graph)@.nodes == carried_out(
                old(graph)@.nodes,
                plan@,
                spots@,
                plan.len() as int,
            ),
            final(graph)@.nodes.len() == old(graph)@.nodes.len(),
            forall|a: int|
                0 <= a < old(graph)@.nodes.len() ==> (#[trigger] final(graph)@.nodes[a]) == (
                GraphNode { position: final(graph)@.nodes[a].position, ..old(graph)@.nodes[a] }),
            forall|a: int|
                0 <= a < old(graph)@.nodes.len() && !names(plan@, plan.len() as int, a) ==> (
                #[trigger] final(graph)@.nodes[a]) == old(graph)@.nodes[a],
    {
        let ghost nodes = graph@.nodes;
        let mut spots: Vec<Spot> = Vec::new();
        let mut k: usize = 0;
        while k < plan.len()
            invariant
                graph.wf(),
                graph@.links == old(graph)@.links,
                nodes == old(graph)@.nodes,
                k <= plan.len(),
                spots.len() == k,
                parents_first(plan@),
                forall|step: Placement, by: Option<Spot>|
                    asked(step, by) ==> call_requires(locate, (step, by)),
                forall|j: int| 0 <= j < k ==> #[trigger] answered(locate, nodes, plan@, spots@, j),
                graph@.nodes == carried_out(nodes, plan@, spots@, k as int),
            decreases plan.len() - k,
        {
            let step = plan[k];
            let by = match step {
                Placement::Fan { parent, .. } => {
                    let place = match graph.node(plan[parent].node()) {
                        Some(node) => node.position,
                        None => Position::origin(),
                    };
                    Some(Spot { place, anchor: spots[parent].anchor })
                },
                _ => None,
            };
            let ghost before = spots@;
            assert(by == centre(nodes, plan@, before, k as int));
            let spot = match step {
                Placement::Root { .. } => Spot {
                    place: Position::origin(),
                    anchor: Anchor { has_siblings: false, fan_from: 0, radius: 0 },
                },
                _ => {
                    assert(asked(step, by)) by {
                        match step {
                            Placement::Root { .. } => {},
                            Placement::Ring { .. } => {},
                            Placement::Fan { .. } => {},
                        }
                    }
                    let answer = locate(step, by);
                    Spot {
                        place: answer.place,
                        anchor: Anchor {
                            has_siblings: step.has_siblings(),
                            fan_from: answer.fan_from,
                            radius: answer.radius,
                        },
                    }
                },
            };
            graph.set_position(step.node(), spot.place);
            spots.push(spot);
            proof {
                assert forall|j: int| 0 <= j <= k implies carried_out(nodes, plan@, spots@, j)
                    == carried_out(nodes, plan@, before, j) by {
                    lemma_carried_out_prefix(nodes, plan@, before, spots@, j);
                }
                assert forall|j: int| 0 <= j < k + 1 implies #[trigger] answered(
                    locate,
                    nodes,
                    plan@,
                    spots@,
                    j,
                ) by {
                    assert(centre(nodes, plan@, spots@, j) == centre(nodes, plan@, before, j)) by {
                        match plan[j] {
                            Placement::Fan { parent, .. } => {
                                assert(spots@[parent as int] == before[parent as int]);
                            },
                            _ => {},
                        }
                    }
                    if j < k {
                        assert(answered(locate, nodes, plan@, before, j));
                        assert(spots[j] == before[j]);
                    }
                }
            }
            k += 1;
        }
        proof {
            lemma_carried_out(nodes, plan@, spots@, plan.len() as int);
        }
        spots
    }

    /// Lays `graph` out: plans the radial layout and carries the plan out,
    /// with `locate` for the geometry. Returns the plan and the spots, step
    /// by step. The root ends at the origin unless an edge leads from it to
    /// itself, which puts it on its own ring. Nodes that the root does not
    /// lead to stay where they are, and no node changes but in its place.
    /// The graph has the same plan after the layout as before it.
    pub fn layout<F: Fn(Placement, Option<Spot>) -> Located>(
        graph: &mut DisplayGraph,
        locate: F,
    ) -> (result: (Vec<Placement>, Vec<Spot>))
        requires
            old(graph).wf(),
            forall|step: Placement, by: Option<Spot>|
                asked(step, by) ==> call_requires(locate, (step, by)),
        ensures
            final(graph).wf(),
            final(graph)@.links == old(graph)@.links,
            result.0@ == radial_plan(old(graph)@),
            radial_plan(final(graph)@) == radial_plan(old(graph)@),
            sound(old(graph)@, result.0@),
            parents_first(result.0@),
            result.1.len() == result.0.len(),
            forall|k: int|
                0 <= k < result.0.len() ==> #[trigger] answered(
                    locate,
                    old(graph)@.nodes,
                    result.0@,
                    result.1@,
                    k,
                ),
            final(graph)@.nodes == carried_out(
                old(graph)@.nodes,
                result.0@,
                result.1@,
                result.0.len() as int,
            ),
            old(graph)@.nodes.len() > 0 && !old(graph)@.children(0).contains(0)
                ==> final(graph)@.nodes[0].position == (Position { x: 0, y: 0 }),
            final(graph)@.nodes.len() == old(graph)@.nodes.len(),
            forall|a: int|
                0 <= a < old(graph)@.nodes.len() ==> (#[trigger] final(graph)@.nodes[a]) == (
                GraphNode { position: final(graph)@.nodes[a].position, ..old(graph)@.nodes[a] }),
            forall|a: int|
                0 <= a < old(graph)@.nodes.len() && !names(result.0@, result.0.len() as int, a)
                    ==> (#[trigger] final(graph)@.nodes[a]) == old(graph)@.nodes[a],
            forall|a: usize|
                a < old(graph)@.nodes.len() && !reachable(old(graph)@, a) ==> (
                #[trigger] final(graph)@.nodes[a as int]) == old(graph)@.nodes[a as int],
    {
        let plan = Self::plan(graph);
        proof {
            assert forall|k: int| 0 <= k < plan.len() implies (#[trigger] plan[k] matches Placement::Fan {
                parent,
                ..
            } ==> parent < k) by {
                assert(in_order(graph@, plan@, k));
            }
        }
        let ghost nodes = graph@.nodes;
        let ghost model = graph@;
        let spots = Self::place(graph, &plan, locate);
        proof {
            lemma_plan_ignores_places(graph@, model);
            assert forall|a: usize| a < nodes.len() && !reachable(model, a) implies (
            #[trigger] graph@.nodes[a as int]) == nodes[a as int] by {
                if names(plan@, plan.len() as int, a as int) {
                    let j = choose|j: int|
                        0 <= j < plan.len() && j < plan.len() && (#[trigger] plan@[j]).spec_node()
                            == a as int;
                    lemma_placed_are_reachable(model, plan@, j);
                }
            }
            if nodes.len() > 0 && !model.children(0).contains(0) {
                lemma_plan_begins(model);
                assert(answered(locate, nodes, plan@, spots@, 0));
                assert forall|k: int| 1 <= k < plan.len() implies (#[trigger] plan[k]).spec_node()
                    != 0 by {
                    assert(in_order(model, plan@, k));
                    match plan[k] {
                        Placement::Ring { index, .. } => {
                            assert(model.children(0).contains(model.children(0)[index - 1]));
                        },
                        _ => {},
                    }
                }
                lemma_root_stays(nodes, plan@, spots@, plan.len() as int);
            }
        }
        (plan, spots)
    }
}

} // verus!
