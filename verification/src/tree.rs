//! The tree itself: nodes that point back at their parents by index.

use vstd::prelude::*;
use rand::rngs::ThreadRng;

verus! {

/// A point of the tree and the index of the node it was grown from. Only the
/// root has no parent.
#[derive(Clone, Copy, PartialEq, Debug)]
pub struct Node<P> {
    pub point: P,
    pub parent: Option<usize>,
}

impl<P> Node<P> {
    /// A node at `point` grown from the node at index `parent`.
    pub fn new(point: P, parent: Option<usize>) -> (node: Node<P>)
        ensures
            node == (Node { point, parent }),
    {
        Node { point, parent }
    }
}

/// A rapidly-exploring random tree together with the goal it grows toward,
/// over points of type `P` and lengths of type `S`.
///
/// Nodes are kept in the order they were inserted and are never removed or
/// changed, so an index names the same node for the tree's whole life.
pub struct RRT<P, S> {
    nodes: Vec<Node<P>>,
    goal: P,
    step_size: S,
    goal_threshold: S,
    rng: ThreadRng,
}

/// What a tree is, mathematically: its nodes in insertion order and the
/// three parameters it was made with. The random source is no part of it.
pub struct TreeView<P, S> {
    pub nodes: Seq<Node<P>>,
    pub goal: P,
    pub step_size: S,
    pub goal_threshold: S,
}

/// The parent of node `i`, where its link points at an earlier node.
pub open spec fn parent_of<P>(nodes: Seq<Node<P>>, i: int) -> Option<int> {
    match nodes[i].parent {
        Some(p) => if p < i {
            Some(p as int)
        } else {
            None
        },
        None => None,
    }
}

/// The shape every tree has: a first node without a parent, and every later
/// node linked to a node inserted before it. The links therefore form one
/// tree rooted at index 0, without cycles.
pub open spec fn rooted<P>(nodes: Seq<Node<P>>) -> bool {
    &&& nodes.len() > 0
    &&& nodes[0].parent is None
    &&& forall|i: int|
        0 < i < nodes.len() ==> ((#[trigger] nodes[i]).parent matches Some(p) && p < i)
}

/// `idx` is the place of the least key, and of the earliest where several
/// keys are least: no key is below it, and every key before it is strictly
/// above.
pub open spec fn is_least(keys: Seq<u64>, idx: int) -> bool {
    &&& 0 <= idx < keys.len()
    &&& forall|j: int| 0 <= j < keys.len() ==> keys[idx] <= #[trigger] keys[j]
    &&& forall|j: int| 0 <= j < idx ==> keys[idx] < #[trigger] keys[j]
}

/// The place of the least key, the earliest of several.
pub open spec fn least_index(keys: Seq<u64>) -> int {
    choose|idx: int| is_least(keys, idx)
}

/// The points met on the way down from the root to node `i`, both included.
pub open spec fn path_to<P>(nodes: Seq<Node<P>>, i: int) -> Seq<P>
    decreases i,
{
    match parent_of(nodes, i) {
        Some(p) => path_to(nodes, p).push(nodes[i].point),
        None => seq![nodes[i].point],
    }
}

/// The number of ancestors of node `i`: links to follow before the root.
pub open spec fn depth<P>(nodes: Seq<Node<P>>, i: int) -> nat
    decreases i,
{
    match parent_of(nodes, i) {
        Some(p) => depth(nodes, p) + 1,
        None => 0,
    }
}

/// A call of a method of a tree, as far as the nodes can tell: an insertion,
/// or any of the other methods, none of which touches the nodes.
pub enum Call<P> {
    AddNode { point: P, parent_index: usize },
    Other,
}

/// The nodes after one call.
pub open spec fn after_call<P>(nodes: Seq<Node<P>>, call: Call<P>) -> Seq<Node<P>> {
    match call {
        Call::AddNode { point, parent_index } => nodes.push(
            Node { point, parent: Some(parent_index) },
        ),
        Call::Other => nodes,
    }
}

/// The nodes after a run of calls, made in order.
pub open spec fn after_calls<P>(nodes: Seq<Node<P>>, calls: Seq<Call<P>>) -> Seq<Node<P>>
    decreases calls.len(),
{
    if calls.len() == 0 {
        nodes
    } else {
        after_call(after_calls(nodes, calls.drop_last()), calls.last())
    }
}

/// How many calls of a run are insertions.
pub open spec fn insertions<P>(calls: Seq<Call<P>>) -> nat
    decreases calls.len(),
{
    if calls.len() == 0 {
        0
    } else {
        insertions(calls.drop_last()) + if calls.last() is AddNode {
            1nat
        } else {
            0nat
        }
    }
}

/// Every insertion of a run names a node that is there when it is made.
pub open spec fn parents_exist<P>(nodes: Seq<Node<P>>, calls: Seq<Call<P>>) -> bool
    decreases calls.len(),
{
    calls.len() > 0 ==> {
        &&& parents_exist(nodes, calls.drop_last())
        &&& calls.last() matches Call::AddNode { parent_index, .. } ==> parent_index < after_calls(
            nodes,
            calls.drop_last(),
        ).len()
    }
}

impl<P, S> TreeView<P, S> {
    /// The invariant of a tree: the rooted shape of its nodes.
    pub open spec fn wf(self) -> bool {
        rooted(self.nodes)
    }
}

impl<P, S> View for RRT<P, S> {
    type V = TreeView<P, S>;

    closed spec fn view(&self) -> TreeView<P, S> {
        TreeView {
            nodes: self.nodes@,
            goal: self.goal,
            step_size: self.step_size,
            goal_threshold: self.goal_threshold,
        }
    }
}

impl<P: Copy, S: Copy> RRT<P, S> {
    /// The invariant that `new` establishes and every method keeps.
    pub open spec fn wf(&self) -> bool {
        self@.wf()
    }

    /// A tree that holds only its root, at `start`, with a random source of
    /// its own.
    pub fn new(start: P, goal: P, step_size: S, goal_threshold: S) -> (tree: Self)
        ensures
            tree.wf(),
            tree@ == (TreeView {
                nodes: seq![Node { point: start, parent: None }],
                goal,
                step_size,
                goal_threshold,
            }),
    {
        let root = Node::new(start, None);
        let mut nodes: Vec<Node<P>> = Vec::new();
        nodes.push(root);
        let tree = RRT { nodes, goal, step_size, goal_threshold, rng: rand::thread_rng() };
        assert(tree@.nodes =~= seq![Node { point: start, parent: None }]);
        tree
    }

    /// Appends a node at `point` whose parent is the node at `parent_index`.
    /// Nothing else changes, and no earlier node moves.
    pub fn add_node(&mut self, point: P, parent_index: usize)
        requires
            old(self).wf(),
            parent_index < old(self)@.nodes.len(),
        ensures
            final(self).wf(),
            final(self)@ == (TreeView {
                nodes: old(self)@.nodes.push(Node { point, parent: Some(parent_index) }),
                ..old(self)@
            }),
    {
        let new_node = Node::new(point, Some(parent_index));
        self.nodes.push(new_node);
        proof {
            lemma_insertion_keeps_shape(old(self)@.nodes, point, parent_index);
        }
    }

    /// The index of the node nearest to a query point, given for each node,
    /// in order, a key that stands for its distance to that point: keys
    /// compare as the distances do. Where several nodes are equally near,
    /// the one inserted first is chosen. Every key is looked at.
    pub fn find_nearest(&self, keys: &[u64]) -> (idx: usize)
        requires
            self.wf(),
            keys@.len() == self@.nodes.len(),
        ensures
            is_least(keys@, idx as int),
            idx == least_index(keys@),
            idx < self@.nodes.len(),
    {
        let mut best: usize = 0;
        let mut i: usize = 1;
        while i < keys.len()
            invariant
                1 <= i <= keys@.len(),
                best < i,
                forall|j: int| 0 <= j < i ==> keys@[best as int] <= #[trigger] keys@[j],
                forall|j: int| 0 <= j < best ==> keys@[best as int] < #[trigger] keys@[j],
            decreases keys.len() - i,
        {
            if keys[i] < keys[best] {
                best = i;
            }
            i += 1;
        }
        proof {
            lemma_least_is(keys@, best as int);
        }
        best
    }

    /// Whether a node may stand at the given point. The plane holds no
    /// obstacles, so every point is admitted.
    pub fn is_collision_free(&self, _point: &P) -> (free: bool)
        ensures
            free,
    {
        true
    }

    /// The way from the root to the node inserted last, as points: found by
    /// following parent links back from that node, then turned around.
    pub fn trace_path(&self) -> (path: Vec<P>)
        requires
            self.wf(),
        ensures
            path@ == path_to(self@.nodes, self@.nodes.len() - 1),
    {
        let ghost whole = path_to(self.nodes@, self.nodes.len() - 1);
        let mut backward: Vec<P> = Vec::new();
        let mut current: usize = self.nodes.len() - 1;
        loop
            invariant_except_break
                self.wf(),
                current < self.nodes.len(),
                backward.len() + path_to(self.nodes@, current as int).len() == whole.len(),
                path_to(self.nodes@, current as int) == whole.subrange(
                    0,
                    whole.len() - backward.len(),
                ),
                forall|k: int|
                    0 <= k < backward.len() ==> backward@[k] == whole[whole.len() - 1 - k],
            ensures
                backward.len() == whole.len(),
                forall|k: int|
                    0 <= k < backward.len() ==> backward@[k] == whole[whole.len() - 1 - k],
            decreases current,
        {
            let node = self.nodes[current];
            proof {
                let here = path_to(self.nodes@, current as int);
                assert(here.last() == node.point);
                assert(here.last() == whole[whole.len() - backward.len() - 1]);
                if let Some(p) = parent_of(self.nodes@, current as int) {
                    assert(path_to(self.nodes@, p) =~= here.drop_last());
                }
            }
            backward.push(node.point);
            match node.parent {
                Some(parent_index) => {
                    current = parent_index;
                },
                None => {
                    break ;
                },
            }
        }
        let path = reversed(&backward);
        assert(path@ =~= whole);
        path
    }

    /// The nodes in the order they were inserted, the root first.
    pub fn nodes(&self) -> (nodes: &Vec<Node<P>>)
        ensures
            nodes@ == self@.nodes,
    {
        &self.nodes
    }

    /// The point the tree grows toward.
    pub fn goal(&self) -> (goal: P)
        ensures
            goal == self@.goal,
    {
        self.goal
    }

    /// The length of every step.
    pub fn step_size(&self) -> (step_size: S)
        ensures
            step_size == self@.step_size,
    {
        self.step_size
    }

    /// The distance from the goal below which a node counts as arrived.
    pub fn goal_threshold(&self) -> (goal_threshold: S)
        ensures
            goal_threshold == self@.goal_threshold,
    {
        self.goal_threshold
    }

    /// The tree's random source, to draw samples from. Drawing leaves the
    /// nodes and the parameters as they are.
    pub fn rng(&mut self) -> (rng: &mut ThreadRng)
        ensures
            final(self)@ == old(self)@,
    {
        &mut self.rng
    }
}

/// Inserting a node under an existing parent keeps the shape of a tree:
/// afterwards, as before, the root has no parent and every other node's
/// parent precedes it.
pub proof fn lemma_insertion_keeps_shape<P>(nodes: Seq<Node<P>>, point: P, parent_index: usize)
    requires
        rooted(nodes),
        parent_index < nodes.len(),
    ensures
        rooted(nodes.push(Node { point, parent: Some(parent_index) })),
        nodes.push(Node { point, parent: Some(parent_index) }).len() == nodes.len() + 1,
{
    let after = nodes.push(Node { point, parent: Some(parent_index) });
    assert forall|i: int| 0 < i < after.len() implies ((#[trigger] after[i]).parent matches Some(p)
        && p < i) by {
        if i < nodes.len() {
            assert(after[i] == nodes[i]);
        }
    }
}

/// Over any run of calls a tree has as many nodes more as the run holds
/// insertions: its size never falls, no call but an insertion changes it,
/// the nodes it had stay where they were, and it keeps its shape.
pub proof fn lemma_size_counts_insertions<P>(nodes: Seq<Node<P>>, calls: Seq<Call<P>>)
    requires
        rooted(nodes),
        parents_exist(nodes, calls),
    ensures
        after_calls(nodes, calls).len() == nodes.len() + insertions(calls),
        after_calls(nodes, calls).subrange(0, nodes.len() as int) == nodes,
        rooted(after_calls(nodes, calls)),
    decreases calls.len(),
{
    if calls.len() == 0 {
        assert(nodes.subrange(0, nodes.len() as int) =~= nodes);
    } else {
        lemma_size_counts_insertions(nodes, calls.drop_last());
        let before = after_calls(nodes, calls.drop_last());
        let after = after_calls(nodes, calls);
        if let Call::AddNode { point, parent_index } = calls.last() {
            lemma_insertion_keeps_shape(before, point, parent_index);
        }
        assert(after.subrange(0, nodes.len() as int) =~= before.subrange(0, nodes.len() as int));
    }
}

/// The path to a node starts at the root, ends at the node, and holds one
/// point for the node and one for each of its ancestors.
pub proof fn lemma_path_shape<P>(nodes: Seq<Node<P>>, i: int)
    requires
        rooted(nodes),
        0 <= i < nodes.len(),
    ensures
        path_to(nodes, i).len() == depth(nodes, i) + 1,
        path_to(nodes, i).first() == nodes[0].point,
        path_to(nodes, i).last() == nodes[i].point,
    decreases i,
{
    if i > 0 {
        assert(nodes[i].parent is Some);
        let p = parent_of(nodes, i).unwrap();
        lemma_path_shape(nodes, p);
    }
}

/// Inserting a node changes the path to no node that was there before.
pub proof fn lemma_path_stable<P>(nodes: Seq<Node<P>>, node: Node<P>, i: int)
    requires
        0 <= i < nodes.len(),
    ensures
        path_to(nodes.push(node), i) == path_to(nodes, i),
        depth(nodes.push(node), i) == depth(nodes, i),
    decreases i,
{
    let after = nodes.push(node);
    assert(after[i] == nodes[i]);
    if let Some(p) = parent_of(nodes, i) {
        lemma_path_stable(nodes, node, p);
    }
}

/// Only one place is that of the least key.
pub proof fn lemma_least_unique(keys: Seq<u64>, i: int, j: int)
    requires
        is_least(keys, i),
        is_least(keys, j),
    ensures
        i == j,
{
    if i < j {
        assert(keys[j] < keys[i]);
        assert(keys[i] <= keys[j]);
    }
    if j < i {
        assert(keys[i] < keys[j]);
        assert(keys[j] <= keys[i]);
    }
}

/// Whoever exhibits the place of the least key has found `least_index`.
pub proof fn lemma_least_is(keys: Seq<u64>, idx: int)
    requires
        is_least(keys, idx),
    ensures
        least_index(keys) == idx,
{
    lemma_least_unique(keys, idx, least_index(keys));
}

/// Where there is a key at all there is a least one.
pub proof fn lemma_least_exists(keys: Seq<u64>)
    requires
        keys.len() > 0,
    ensures
        is_least(keys, least_index(keys)),
    decreases keys.len(),
{
    if keys.len() == 1 {
        assert(is_least(keys, 0));
    } else {
        let front = keys.drop_last();
        lemma_least_exists(front);
        let i = least_index(front);
        let last = keys.len() - 1;
        assert forall|j: int| 0 <= j < front.len() implies front[j] == keys[j] by {}
        if keys[last] < keys[i] {
            assert forall|j: int| 0 <= j < last implies keys[last] < #[trigger] keys[j] by {
                assert(front[i] <= front[j]);
            }
            assert(is_least(keys, last));
        } else {
            assert forall|j: int| 0 <= j < keys.len() implies keys[i] <= #[trigger] keys[j] by {
                if j < last {
                    assert(front[i] <= front[j]);
                }
            }
            assert forall|j: int| 0 <= j < i implies keys[i] < #[trigger] keys[j] by {
                assert(front[i] < front[j]);
            }
            assert(is_least(keys, i));
        }
    }
}

/// The values of `v` in the opposite order.
fn reversed<P: Copy>(v: &Vec<P>) -> (r: Vec<P>)
    ensures
        r@ == v@.reverse(),
{
    let mut r: Vec<P> = Vec::new();
    let mut i: usize = v.len();
    while i > 0
        invariant
            i <= v.len(),
            r.len() == v.len() - i,
            forall|k: int| 0 <= k < r.len() ==> r@[k] == v@[v.len() - 1 - k],
        decreases i,
    {
        i -= 1;
        r.push(v[i]);
    }
    assert(r@ =~= v@.reverse());
    r
}

} // verus!
