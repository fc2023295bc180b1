//! Growing a tree until it reaches its goal.
//!
//! A planner is in one of two states. While growing, each step inserts the
//! point that the caller has steered to, and is told whether that point lies
//! within the threshold of the goal. Once one does, the planner has reached
//! the goal: the path to the node inserted last is kept, and further steps
//! do nothing.

use vstd::prelude::*;
use rand::rngs::ThreadRng;
use crate::tree::{lemma_insertion_keeps_shape, path_to, Node, TreeView, RRT};

verus! {

/// What one step of growth did.
#[derive(Clone, Copy, PartialEq, Eq, Structural, Debug)]
pub enum Growth {
    /// The goal had been reached before: nothing was inserted.
    Halted,
    /// A node was inserted, and it is not within the threshold of the goal.
    Extended,
    /// A node was inserted within the threshold of the goal, and the path
    /// to it was recorded.
    Reached,
}

/// A tree, whether it has reached its goal, and the path it found.
pub struct Planner<P, S> {
    tree: RRT<P, S>,
    goal_reached: bool,
    optimal_path: Vec<P>,
}

/// What a planner is, mathematically.
pub struct PlannerView<P, S> {
    pub tree: TreeView<P, S>,
    pub goal_reached: bool,
    pub optimal_path: Seq<P>,
}

impl<P, S> PlannerView<P, S> {
    /// The invariant of a planner. Its tree is sound. Once the goal is
    /// reached, the recorded path is the way from the root to the node
    /// inserted last; until then no path is recorded.
    pub open spec fn wf(self) -> bool {
        &&& self.tree.wf()
        &&& self.goal_reached ==> self.optimal_path == path_to(
            self.tree.nodes,
            self.tree.nodes.len() - 1,
        )
        &&& !self.goal_reached ==> self.optimal_path.len() == 0
    }
}

/// The state after one step of growth: `new_point` was steered to from the
/// node at `nearest_index`, and `within_threshold` says whether it lies
/// within the threshold of the goal.
pub open spec fn grown<P, S>(
    pre: PlannerView<P, S>,
    nearest_index: usize,
    new_point: P,
    within_threshold: bool,
) -> PlannerView<P, S> {
    if pre.goal_reached {
        pre
    } else {
        let nodes = pre.tree.nodes.push(Node { point: new_point, parent: Some(nearest_index) });
        PlannerView {
            tree: TreeView { nodes, ..pre.tree },
            goal_reached: within_threshold,
            optimal_path: if within_threshold {
                path_to(nodes, nodes.len() - 1)
            } else {
                pre.optimal_path
            },
        }
    }
}

/// What one step of growth reports.
pub open spec fn growth_of(goal_reached: bool, within_threshold: bool) -> Growth {
    if goal_reached {
        Growth::Halted
    } else if within_threshold {
        Growth::Reached
    } else {
        Growth::Extended
    }
}

/// A step of growth keeps the invariant: the tree stays a tree, and path and
/// flag stay in step with it.
pub proof fn lemma_growth_keeps_invariant<P, S>(
    pre: PlannerView<P, S>,
    nearest_index: usize,
    new_point: P,
    within_threshold: bool,
)
    requires
        pre.wf(),
        nearest_index < pre.tree.nodes.len(),
    ensures
        grown(pre, nearest_index, new_point, within_threshold).wf(),
{
    lemma_insertion_keeps_shape(pre.tree.nodes, new_point, nearest_index);
}

/// Reaching the goal is final: a planner that has reached its goal is not
/// changed by further growth, neither its tree nor its recorded path.
pub proof fn lemma_reached_is_final<P, S>(
    pre: PlannerView<P, S>,
    nearest_index: usize,
    new_point: P,
    within_threshold: bool,
)
    requires
        pre.goal_reached,
    ensures
        grown(pre, nearest_index, new_point, within_threshold) == pre,
        growth_of(pre.goal_reached, within_threshold) == Growth::Halted,
{
}

/// A tree only grows: a step of growth appends exactly one node while the
/// goal is not reached, none after, and leaves every earlier node and the
/// parameters alone.
pub proof fn lemma_growth_appends<P, S>(
    pre: PlannerView<P, S>,
    nearest_index: usize,
    new_point: P,
    within_threshold: bool,
)
    ensures
        ({
            let post = grown(pre, nearest_index, new_point, within_threshold);
            &&& post.tree.nodes.len() == pre.tree.nodes.len() + if pre.goal_reached {
                0int
            } else {
                1int
            }
            &&& post.tree.nodes.subrange(0, pre.tree.nodes.len() as int) == pre.tree.nodes
            &&& post.tree.goal == pre.tree.goal
            &&& post.tree.step_size == pre.tree.step_size
            &&& post.tree.goal_threshold == pre.tree.goal_threshold
        }),
{
    let post = grown(pre, nearest_index, new_point, within_threshold);
    assert(post.tree.nodes.subrange(0, pre.tree.nodes.len() as int) =~= pre.tree.nodes);
}

impl<P, S> View for Planner<P, S> {
    type V = PlannerView<P, S>;

    closed spec fn view(&self) -> PlannerView<P, S> {
        PlannerView {
            tree: self.tree@,
            goal_reached: self.goal_reached,
            optimal_path: self.optimal_path@,
        }
    }
}

impl<P: Copy, S: Copy> Planner<P, S> {
    /// The invariant that `new` establishes and every method keeps.
    pub open spec fn wf(&self) -> bool {
        self@.wf()
    }

    /// A planner that has yet to grow: its tree holds the root at `start`,
    /// the goal is not reached and no path is recorded.
    pub fn new(start: P, goal: P, step_size: S, goal_threshold: S) -> (planner: Self)
        ensures
            planner.wf(),
            planner@ == (PlannerView {
                tree: TreeView {
                    nodes: seq![Node { point: start, parent: None }],
                    goal,
                    step_size,
                    goal_threshold,
                },
                goal_reached: false,
                optimal_path: Seq::empty(),
            }),
    {
        Planner {
            tree: RRT::new(start, goal, step_size, goal_threshold),
            goal_reached: false,
            optimal_path: Vec::new(),
        }
    }

    /// One step of growth, after the caller has sampled, found the nearest
    /// node and steered from it.
    ///
    /// While growing: inserts `new_point` under the node at `nearest_index`
    /// where the point is free of collision, and reaches the goal if
    /// `within_threshold` says that the point lies within the threshold of
    /// it, recording the path to the node inserted last. After the goal is
    /// reached: nothing.
    pub fn grow(&mut self, nearest_index: usize, new_point: P, within_threshold: bool) -> (growth:
        Growth)
        requires
            old(self).wf(),
            !old(self)@.goal_reached ==> nearest_index < old(self)@.tree.nodes.len(),
        ensures
            final(self).wf(),
            final(self)@ == grown(old(self)@, nearest_index, new_point, within_threshold),
            growth == growth_of(old(self)@.goal_reached, within_threshold),
    {
        if self.goal_reached {
            return Growth::Halted;
        }
        if self.tree.is_collision_free(&new_point) {
            self.tree.add_node(new_point, nearest_index);
        }
        if within_threshold {
            self.goal_reached = true;
            self.optimal_path = self.tree.trace_path();
            Growth::Reached
        } else {
            Growth::Extended
        }
    }

    /// The tree grown so far.
    pub fn tree(&self) -> (tree: &RRT<P, S>)
        ensures
            tree@ == self@.tree,
    {
        &self.tree
    }

    /// Whether the goal has been reached.
    pub fn goal_reached(&self) -> (reached: bool)
        ensures
            reached == self@.goal_reached,
    {
        self.goal_reached
    }

    /// The path from the start to the node that reached the goal, empty
    /// until the goal is reached.
    pub fn optimal_path(&self) -> (path: &Vec<P>)
        ensures
            path@ == self@.optimal_path,
    {
        &self.optimal_path
    }

    /// The random source of the planner's tree, to draw samples from.
    /// Drawing changes nothing else.
    pub fn rng(&mut self) -> (rng: &mut ThreadRng)
        ensures
            final(self)@ == old(self)@,
    {
        self.tree.rng()
    }
}

} // verus!
