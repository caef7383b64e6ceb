//! Layouts of the display graph.
//!
//! A layout plans the steps in which the nodes are placed, in whole numbers,
//! and carries the plan out. Where a step puts its node takes trigonometry,
//! which the caller supplies as a function.

use vstd::prelude::*;
use crate::graph::display::DisplayGraph;

pub mod radial;

verus! {

/// The kinds of layout.
#[derive(Debug, Clone, Copy, PartialEq, Eq, Structural)]
pub enum Layout {
    /// The radial layout of [`radial::RadialLayout`].
    Radical,
}

impl Layout {
    /// Lays `graph` out in this layout, with `locate` for the geometry, and
    /// returns the plan and what `locate` answered, step by step.
    pub fn layout<F: Fn(radial::Placement, Option<radial::Spot>) -> radial::Located>(
        &self,
        graph: &mut DisplayGraph,
        locate: F,
    ) -> (result: (Vec<radial::Placement>, Vec<radial::Spot>))
        requires
            old(graph).wf(),
            forall|step: radial::Placement, by: Option<radial::Spot>|
                radial::asked(step, by) ==> call_requires(locate, (step, by)),
        ensures
            final(graph).wf(),
            final(graph)@.links == old(graph)@.links,
            match *self {
                Layout::Radical => {
                    &&& result.0@ == radial::radial_plan(old(graph)@)
                    &&& radial::radial_plan(final(graph)@) == radial::radial_plan(old(graph)@)
                    &&& radial::sound(old(graph)@, result.0@)
                    &&& radial::parents_first(result.0@)
                    &&& result.1.len() == result.0.len()
                    &&& forall|k: int|
                        0 <= k < result.0.len() ==> #[trigger] radial::answered(
                            locate,
                            old(graph)@.nodes,
                            result.0@,
                            result.1@,
                            k,
                        )
                    &&& final(graph)@.nodes == radial::carried_out(
                        old(graph)@.nodes,
                        result.0@,
                        result.1@,
                        result.0.len() as int,
                    )
                },
            },
    {
        match self {
            Layout::Radical => radial::RadialLayout::layout(graph, locate),
        }
    }
}

} // verus!
