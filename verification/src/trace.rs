use crate::graph::VisualizationStep;
use vstd::prelude::*;

verus! {

/// Trace-wide discipline shared by all engines: committed edges only grow
/// from one snapshot to the next, and a node once listed visited stays listed.
pub open spec fn steps_monotone(steps: Seq<VisualizationStep>) -> bool {
    &&& forall|k: int|
        0 <= k < steps.len() - 1 ==> (#[trigger] steps[k]).edges_in_path@.is_prefix_of(
            steps[k + 1].edges_in_path@,
        )
    &&& forall|k: int, x: usize|
        0 <= k < steps.len() - 1 && #[trigger] steps[k].visited_nodes@.contains(x) ==> steps[k
            + 1].visited_nodes@.contains(x)
}

/// Appending a snapshot that extends the last one keeps the discipline.
pub proof fn lemma_steps_monotone_push(steps: Seq<VisualizationStep>, s: VisualizationStep)
    requires
        steps_monotone(steps),
        steps.len() > 0 ==> steps[steps.len() - 1].edges_in_path@.is_prefix_of(s.edges_in_path@),
        steps.len() > 0 ==> forall|x: usize| #[trigger]
            steps[steps.len() - 1].visited_nodes@.contains(x) ==> s.visited_nodes@.contains(x),
    ensures
        steps_monotone(steps.push(s)),
{
    let now = steps.push(s);
    assert forall|k: int|
        0 <= k < now.len() - 1 implies (#[trigger] now[k]).edges_in_path@.is_prefix_of(
        now[k + 1].edges_in_path@,
    ) by {
        if k < steps.len() - 1 {
            assert(now[k] == steps[k] && now[k + 1] == steps[k + 1]);
        } else {
            assert(now[k] == steps[steps.len() - 1] && now[k + 1] == s);
        }
    }
    assert forall|k: int, x: usize|
        0 <= k < now.len() - 1 && #[trigger] now[k].visited_nodes@.contains(x) implies now[k
        + 1].visited_nodes@.contains(x) by {
        if k < steps.len() - 1 {
            assert(now[k] == steps[k] && now[k + 1] == steps[k + 1]);
        } else {
            assert(now[k] == steps[steps.len() - 1] && now[k + 1] == s);
        }
    }
}

} // verus!
