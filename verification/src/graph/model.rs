//! The mathematical model of a graph, and facts about slots.

use vstd::prelude::*;
use super::node::{GraphNode, Link};
use super::stable::{filled, full, MAX_SLOTS};

verus! {

/// A graph in which every slot is occupied: the nodes by handle, and the
/// edges by handle.
pub ghost struct GraphModel {
    pub nodes: Seq<GraphNode>,
    pub links: Seq<Link>,
}

/// The handles of the edges among the first `n` of `links` that leave the
/// node `a`, the newest first.
pub open spec fn leaving(links: Seq<Link>, a: usize, n: int) -> Seq<usize>
    decreases n,
{
    if n <= 0 {
        Seq::empty()
    } else if links[n - 1].source == a {
        seq![(n - 1) as usize] + leaving(links, a, n - 1)
    } else {
        leaving(links, a, n - 1)
    }
}

impl GraphModel {
    /// Every edge starts and ends at a node, and the handles fit the graph.
    pub open spec fn wf(self) -> bool {
        &&& self.nodes.len() <= MAX_SLOTS
        &&& self.links.len() <= MAX_SLOTS
        &&& forall|e: int|
            0 <= e < self.links.len() ==> (#[trigger] self.links[e]).source < self.nodes.len()
                && self.links[e].target < self.nodes.len()
    }

    /// The nodes that the edges leaving `a` lead to, one for each edge, the
    /// newest edge first. A node occurs once for each parallel edge, and `a`
    /// itself for each self-loop.
    pub open spec fn children(self, a: usize) -> Seq<usize> {
        leaving(self.links, a, self.links.len() as int).map_values(
            |e: usize| self.links[e as int].target,
        )
    }
}

/// The handles of the selected nodes among the first `n`, in rising order.
pub open spec fn selected_below(nodes: Seq<GraphNode>, n: int) -> Seq<usize>
    decreases n,
{
    if n <= 0 {
        Seq::empty()
    } else if nodes[n - 1].selected {
        selected_below(nodes, n - 1).push((n - 1) as usize)
    } else {
        selected_below(nodes, n - 1)
    }
}

/// The handles that `leaving` lists are below `n`.
pub(crate) proof fn lemma_leaving_bound(links: Seq<Link>, a: usize, n: int)
    requires
        0 <= n <= links.len(),
        n <= usize::MAX,
    ensures
        forall|i: int|
            0 <= i < leaving(links, a, n).len() ==> (#[trigger] leaving(links, a, n)[i]) < n
                && links[leaving(links, a, n)[i] as int].source == a,
    decreases n,
{
    if n > 0 {
        lemma_leaving_bound(links, a, n - 1);
        let rest = leaving(links, a, n - 1);
        let all = leaving(links, a, n);
        if links[n - 1].source == a {
            assert forall|i: int| 0 <= i < all.len() implies (#[trigger] all[i]) < n
                && links[all[i] as int].source == a by {
                if i > 0 {
                    assert(all[i] == rest[i - 1]);
                }
            }
        }
    }
}

/// Where the first `n` slots are all occupied, their handles are `0` up to
/// `n`.
pub(crate) proof fn lemma_filled_full<T>(slots: Seq<Option<T>>, n: int)
    requires
        0 <= n <= slots.len(),
        n <= usize::MAX,
        full(slots),
    ensures
        filled(slots, n) == Seq::new(n as nat, |i: int| i as usize),
    decreases n,
{
    if n > 0 {
        lemma_filled_full(slots, n - 1);
    }
}

/// The handles that `filled` lists: below `n`, occupied, rising, and every
/// occupied slot below `n` among them.
pub(crate) proof fn lemma_filled<T>(slots: Seq<Option<T>>, n: int)
    requires
        0 <= n <= slots.len(),
        n <= usize::MAX,
    ensures
        filled(slots, n).len() <= n,
        forall|i: int|
            0 <= i < filled(slots, n).len() ==> (#[trigger] filled(slots, n)[i]) < n
                && slots[filled(slots, n)[i] as int] is Some,
        forall|i: int, j: int|
            0 <= i < j < filled(slots, n).len() ==> filled(slots, n)[i] < filled(slots, n)[j],
        forall|e: int|
            0 <= e < n && (#[trigger] slots[e]) is Some ==> filled(slots, n).contains(e as usize),
    decreases n,
{
    if n > 0 {
        lemma_filled(slots, n - 1);
        let before = filled(slots, n - 1);
        let now = filled(slots, n);
        if slots[n - 1] is Some {
            assert(now[now.len() - 1] == (n - 1) as usize);
            assert forall|e: int| 0 <= e < n && (#[trigger] slots[e]) is Some implies now.contains(
                e as usize,
            ) by {
                if e < n - 1 {
                    let i = choose|i: int| 0 <= i < before.len() && before[i] == e as usize;
                    assert(now[i] == e as usize);
                } else {
                    assert(now[now.len() - 1] == e as usize);
                }
            }
        }
    }
}

} // verus!
