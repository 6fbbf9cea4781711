//! Topology of the bounding volume hierarchy over a triangle mesh, and the
//! randomized checksum that the renderer prints over it.

use vstd::prelude::*;
use rand::Rng;
use rand::rngs::StdRng;

verus! {

/// A node of the hierarchy: either two children or, when `i_node_right` is
/// `usize::MAX`, a leaf whose `i_node_left` is the index of its triangle. The
/// bounding box of each node is geometry and is kept beside the topology.
#[derive(Clone, Copy, Debug, PartialEq, Eq, Structural)]
pub struct BvhNode {
    pub i_node_left: usize,
    pub i_node_right: usize,
}

impl Default for BvhNode {
    /// A leaf that holds triangle 0.
    fn default() -> (node: Self)
        ensures
            node == (BvhNode { i_node_left: 0, i_node_right: usize::MAX }),
    {
        BvhNode { i_node_left: 0, i_node_right: usize::MAX }
    }
}

impl BvhNode {
    /// Whether the node is a leaf.
    pub open spec fn spec_is_leaf(&self) -> bool {
        self.i_node_right == usize::MAX
    }

    /// Whether the node is a leaf.
    pub fn is_leaf(&self) -> (b: bool)
        ensures
            b == self.spec_is_leaf(),
    {
        self.i_node_right == usize::MAX
    }
}

/// Every leaf names a triangle of the mesh and every inner node names two nodes of
/// the hierarchy.
pub open spec fn bvh_nodes_valid(nodes: Seq<BvhNode>, num_tri: nat) -> bool {
    forall|i: int|
        0 <= i < nodes.len() ==> if (#[trigger] nodes[i]).spec_is_leaf() {
            nodes[i].i_node_left < num_tri
        } else {
            nodes[i].i_node_left < nodes.len() && nodes[i].i_node_right < nodes.len()
        }
}

/// The leaf that holds triangle `i_tri`.
pub open spec fn leaf_node(i_tri: nat) -> BvhNode {
    BvhNode { i_node_left: i_tri as usize, i_node_right: usize::MAX }
}

/// The nodes, in depth-first order, of the balanced hierarchy over the triangles
/// `lo..hi`, its first node being stored at index `base`: one triangle is a leaf;
/// more are split at the middle of the range, and the node is followed by the
/// subtree of the lower half and then by that of the upper half.
pub open spec fn bvh_subtree(lo: nat, hi: nat, base: nat) -> Seq<BvhNode>
    decreases hi - lo,
{
    if hi <= lo + 1 {
        seq![leaf_node(lo)]
    } else {
        let mid = (lo + (hi - lo) / 2) as nat;
        let right = (base + 2 * (mid - lo)) as nat;
        seq![BvhNode { i_node_left: (base + 1) as usize, i_node_right: right as usize }] + bvh_subtree(
            lo,
            mid,
            base + 1,
        ) + bvh_subtree(mid, hi, right)
    }
}

/// The triangles of the leaves reached from node `i` by following children, the
/// left subtree first, over at most `depth` levels.
pub open spec fn reached_triangles(nodes: Seq<BvhNode>, i: int, depth: nat) -> Seq<usize>
    decreases depth,
{
    if depth == 0 || !(0 <= i < nodes.len()) {
        Seq::empty()
    } else if nodes[i].spec_is_leaf() {
        seq![nodes[i].i_node_left]
    } else {
        reached_triangles(nodes, nodes[i].i_node_left as int, (depth - 1) as nat) + reached_triangles(
            nodes,
            nodes[i].i_node_right as int,
            (depth - 1) as nat,
        )
    }
}

/// Every inner node names two children stored after it, the left one first.
pub open spec fn children_follow(nodes: Seq<BvhNode>) -> bool {
    forall|i: int|
        0 <= i < nodes.len() && !(#[trigger] nodes[i]).spec_is_leaf() ==> i < nodes[i].i_node_left
            < nodes[i].i_node_right < nodes.len()
}

/// The subtree over `n` triangles has `2 n - 1` nodes.
proof fn lemma_subtree_len(lo: nat, hi: nat, base: nat)
    requires
        lo < hi,
    ensures
        bvh_subtree(lo, hi, base).len() == 2 * (hi - lo) - 1,
    decreases hi - lo,
{
    if hi > lo + 1 {
        let mid = (lo + (hi - lo) / 2) as nat;
        lemma_subtree_len(lo, mid, base + 1);
        lemma_subtree_len(mid, hi, (base + 2 * (mid - lo)) as nat);
    }
}

/// Node `p` of the subtree stored at `base`: a leaf holds a triangle of the range,
/// an inner node names two children stored after it inside the subtree.
proof fn lemma_subtree_nodes(lo: nat, hi: nat, base: nat, p: int)
    requires
        lo < hi,
        hi <= usize::MAX,
        base + 2 * (hi - lo) <= usize::MAX,
        0 <= p < 2 * (hi - lo) - 1,
    ensures
        bvh_subtree(lo, hi, base)[p].spec_is_leaf() ==> lo <= bvh_subtree(lo, hi, base)[p].i_node_left < hi,
        !bvh_subtree(lo, hi, base)[p].spec_is_leaf() ==> base + p < bvh_subtree(lo, hi, base)[p].i_node_left
            < bvh_subtree(lo, hi, base)[p].i_node_right < base + 2 * (hi - lo) - 1,
    decreases hi - lo,
{
    lemma_subtree_len(lo, hi, base);
    if hi > lo + 1 {
        let mid = (lo + (hi - lo) / 2) as nat;
        let right = (base + 2 * (mid - lo)) as nat;
        let l = bvh_subtree(lo, mid, base + 1);
        let r = bvh_subtree(mid, hi, right);
        lemma_subtree_len(lo, mid, base + 1);
        lemma_subtree_len(mid, hi, right);
        let s = bvh_subtree(lo, hi, base);
        if p == 0 {
        } else if p < 2 * (mid - lo) {
            assert(s[p] == l[p - 1]);
            lemma_subtree_nodes(lo, mid, base + 1, p - 1);
        } else {
            assert(s[p] == r[p - 2 * (mid - lo)]);
            lemma_subtree_nodes(mid, hi, right, p - 2 * (mid - lo));
        }
    }
}

/// From the root of a subtree stored in `nodes`, the leaves reached hold the
/// triangles of its range, each once, in increasing order.
proof fn lemma_subtree_reaches(nodes: Seq<BvhNode>, lo: nat, hi: nat, base: nat, depth: nat)
    requires
        lo < hi,
        hi <= usize::MAX,
        base + 2 * (hi - lo) <= usize::MAX,
        base + 2 * (hi - lo) - 1 <= nodes.len(),
        nodes.subrange(base as int, base + 2 * (hi - lo) - 1) == bvh_subtree(lo, hi, base),
        depth >= hi - lo,
    ensures
        reached_triangles(nodes, base as int, depth) == Seq::new((hi - lo) as nat, |k: int| (lo + k) as usize),
    decreases hi - lo,
{
    lemma_subtree_len(lo, hi, base);
    let s = bvh_subtree(lo, hi, base);
    assert(nodes[base as int] == s[0]);
    if hi == lo + 1 {
        assert(reached_triangles(nodes, base as int, depth) =~= Seq::new(
            (hi - lo) as nat,
            |k: int| (lo + k) as usize,
        ));
    } else {
        let mid = (lo + (hi - lo) / 2) as nat;
        let right = (base + 2 * (mid - lo)) as nat;
        lemma_subtree_len(lo, mid, base + 1);
        lemma_subtree_len(mid, hi, right);
        let ln = nodes.subrange(base + 1int, base + 1 + 2 * (mid - lo) - 1);
        assert forall|k: int| 0 <= k < 2 * (mid - lo) - 1 implies #[trigger] ln[k] == bvh_subtree(
            lo,
            mid,
            base + 1,
        )[k] by {
            assert(nodes[base + 1 + k] == s[1 + k]);
        }
        assert(ln =~= bvh_subtree(lo, mid, base + 1));
        let rn = nodes.subrange(right as int, right + 2 * (hi - mid) - 1);
        assert forall|k: int| 0 <= k < 2 * (hi - mid) - 1 implies #[trigger] rn[k] == bvh_subtree(
            mid,
            hi,
            right,
        )[k] by {
            assert(nodes[right + k] == s[2 * (mid - lo) + k]);
        }
        assert(rn =~= bvh_subtree(mid, hi, right));
        lemma_subtree_reaches(nodes, lo, mid, base + 1, (depth - 1) as nat);
        lemma_subtree_reaches(nodes, mid, hi, right, (depth - 1) as nat);
        assert(reached_triangles(nodes, base as int, depth) =~= Seq::new(
            (hi - lo) as nat,
            |k: int| (lo + k) as usize,
        ));
    }
}

/// Appends to `nodes` the balanced subtree over the triangles `lo..hi`.
fn push_bvh_subtree(nodes: &mut Vec<BvhNode>, lo: usize, hi: usize)
    requires
        lo < hi,
        old(nodes)@.len() + 2 * (hi - lo) <= usize::MAX,
    ensures
        final(nodes)@ == old(nodes)@ + bvh_subtree(lo as nat, hi as nat, old(nodes)@.len()),
    decreases hi - lo,
{
    let base = nodes.len();
    if hi - lo == 1 {
        nodes.push(BvhNode { i_node_left: lo, i_node_right: usize::MAX });
        assert(nodes@ =~= old(nodes)@ + bvh_subtree(lo as nat, hi as nat, base as nat));
    } else {
        let mid = lo + (hi - lo) / 2;
        let right = base + 2 * (mid - lo);
        nodes.push(BvhNode { i_node_left: base + 1, i_node_right: right });
        proof {
            lemma_subtree_len(lo as nat, mid as nat, (base + 1) as nat);
        }
        push_bvh_subtree(nodes, lo, mid);
        push_bvh_subtree(nodes, mid, hi);
        assert(nodes@ =~= old(nodes)@ + bvh_subtree(lo as nat, hi as nat, base as nat));
    }
}

/// Builds the hierarchy over the `n` triangles of `tri2vtx`: `2 n - 1` nodes with
/// the root at 0. The triangle ranges are split in halves, so each triangle sits in
/// exactly one leaf reached from the root, and leaves are reached in triangle
/// order; every inner node names two children stored after it.
pub fn build_bvh_nodes(tri2vtx: &[[usize; 3]]) -> (nodes: Vec<BvhNode>)
    requires
        tri2vtx@.len() >= 1,
        2 * tri2vtx@.len() <= usize::MAX,
    ensures
        nodes@.len() == 2 * tri2vtx@.len() - 1,
        nodes@ == bvh_subtree(0, tri2vtx@.len() as nat, 0),
        bvh_nodes_valid(nodes@, tri2vtx@.len()),
        children_follow(nodes@),
        reached_triangles(nodes@, 0, tri2vtx@.len() as nat) == Seq::new(
            tri2vtx@.len() as nat,
            |k: int| k as usize,
        ),
{
    let num_tri = tri2vtx.len();
    let mut nodes: Vec<BvhNode> = Vec::new();
    push_bvh_subtree(&mut nodes, 0, num_tri);
    proof {
        let n = num_tri as nat;
        assert(nodes@ =~= bvh_subtree(0, n, 0));
        lemma_subtree_len(0, n, 0);
        assert forall|i: int| 0 <= i < nodes@.len() implies if (#[trigger] nodes@[i]).spec_is_leaf() {
            nodes@[i].i_node_left < n
        } else {
            nodes@[i].i_node_left < nodes@.len() && nodes@[i].i_node_right < nodes@.len()
        } by {
            lemma_subtree_nodes(0, n, 0, i);
        }
        assert forall|i: int| 0 <= i < nodes@.len() && !(#[trigger] nodes@[i]).spec_is_leaf() implies i
            < nodes@[i].i_node_left < nodes@[i].i_node_right < nodes@.len() by {
            lemma_subtree_nodes(0, n, 0, i);
        }
        assert(nodes@.subrange(0, 2 * n - 1) =~= nodes@);
        lemma_subtree_reaches(nodes@, 0, n, 0, n);
        assert(Seq::new(n, |k: int| (0 + k) as usize) =~= Seq::new(n, |k: int| k as usize));
    }
    nodes
}

/// The stack of nodes still to visit after the node `i_node` was taken from it and
/// the ray was tested against that node's box with outcome `hit`: the two children of
/// a hit inner node are pushed, left first; otherwise the stack is left as it is.
pub open spec fn visit_stack(nodes: Seq<BvhNode>, i_node: int, hit: bool, stack: Seq<usize>) -> Seq<usize> {
    if hit && !nodes[i_node].spec_is_leaf() {
        stack.push(nodes[i_node].i_node_left).push(nodes[i_node].i_node_right)
    } else {
        stack
    }
}

/// The triangle that the ray is to be tested against after the box test of node
/// `i_node`: that of a hit leaf, none otherwise.
pub open spec fn visit_triangle(nodes: Seq<BvhNode>, i_node: int, hit: bool) -> Option<usize> {
    if hit && nodes[i_node].spec_is_leaf() {
        Some(nodes[i_node].i_node_left)
    } else {
        None
    }
}

/// One step of the depth-first traversal of the hierarchy: `i_node` was popped
/// from `stack` and `hit` tells whether the ray meets its bounding box. Pushes the
/// children of a hit inner node and returns the triangle of a hit leaf.
pub fn bvh_visit(nodes: &[BvhNode], i_node: usize, hit: bool, stack: &mut Vec<usize>) -> (i_tri: Option<usize>)
    requires
        i_node < nodes@.len(),
    ensures
        final(stack)@ == visit_stack(nodes@, i_node as int, hit, old(stack)@),
        i_tri == visit_triangle(nodes@, i_node as int, hit),
{
    if !hit {
        return None;
    }
    let node = nodes[i_node];
    if node.is_leaf() {
        Some(node.i_node_left)
    } else {
        stack.push(node.i_node_left);
        stack.push(node.i_node_right);
        None
    }
}

/// In a valid hierarchy the traversal stays inside it: when every node on the stack
/// is a node of the hierarchy, so is every node on the stack after a step, and the
/// triangle to test is a triangle of the mesh.
pub proof fn lemma_visit_in_bounds(nodes: Seq<BvhNode>, num_tri: nat, i_node: int, hit: bool, stack: Seq<usize>)
    requires
        bvh_nodes_valid(nodes, num_tri),
        0 <= i_node < nodes.len(),
        forall|k: int| 0 <= k < stack.len() ==> #[trigger] stack[k] < nodes.len(),
    ensures
        forall|k: int|
            0 <= k < visit_stack(nodes, i_node, hit, stack).len() ==> #[trigger] visit_stack(
                nodes,
                i_node,
                hit,
                stack,
            )[k] < nodes.len(),
        visit_triangle(nodes, i_node, hit) matches Some(t) ==> t < num_tri,
{
    assert(nodes[i_node].spec_is_leaf() ==> nodes[i_node].i_node_left < num_tri);
}

/// Each step pushes at most two nodes, and only below a hit inner node; a missed
/// box or a leaf ends the descent there.
pub proof fn lemma_visit_prunes(nodes: Seq<BvhNode>, i_node: int, hit: bool, stack: Seq<usize>)
    requires
        0 <= i_node < nodes.len(),
    ensures
        !hit || nodes[i_node].spec_is_leaf() ==> visit_stack(nodes, i_node, hit, stack) == stack,
        visit_stack(nodes, i_node, hit, stack).len() <= stack.len() + 2,
        visit_stack(nodes, i_node, hit, stack).subrange(0, stack.len() as int) == stack,
{
    assert(visit_stack(nodes, i_node, hit, stack).subrange(0, stack.len() as int) =~= stack);
}

/// What a traversal step does not depend on what lies below the popped node:
/// the stack below is kept as it is, whatever its length, and only what the step
/// pushes goes on top of it.
pub proof fn lemma_visit_frame(nodes: Seq<BvhNode>, i_node: int, hit: bool, below: Seq<usize>, stack: Seq<usize>)
    requires
        0 <= i_node < nodes.len(),
    ensures
        visit_stack(nodes, i_node, hit, below + stack) == below + visit_stack(nodes, i_node, hit, stack),
        hit && !nodes[i_node].spec_is_leaf() ==> visit_stack(nodes, i_node, hit, stack).len() == stack.len() + 2
            && visit_stack(nodes, i_node, hit, stack)[stack.len() as int] == nodes[i_node].i_node_left
            && visit_stack(nodes, i_node, hit, stack)[stack.len() + 1int] == nodes[i_node].i_node_right,
{
    assert(visit_stack(nodes, i_node, hit, below + stack) =~= below + visit_stack(nodes, i_node, hit, stack));
}

/// The triangles that the depth-first traversal reports when the ray hits every box,
/// in the order it reports them: it repeatedly pops the top of `stack` and takes one
/// `bvh_visit` step on it, for at most `steps` steps.
pub open spec fn traversal_all_hit(nodes: Seq<BvhNode>, stack: Seq<usize>, steps: nat) -> Seq<usize>
    decreases steps,
{
    if steps == 0 || stack.len() == 0 {
        Seq::empty()
    } else {
        let i = stack.last() as int;
        let reported = match visit_triangle(nodes, i, true) {
            Some(t) => seq![t],
            None => Seq::empty(),
        };
        reported + traversal_all_hit(nodes, visit_stack(nodes, i, true, stack.drop_last()), (steps - 1) as nat)
    }
}

/// Traversing a subtree stored in `nodes` takes one step per node and reports its
/// triangles, upper half first, before going on with the stack below it.
proof fn lemma_traversal_subtree(
    nodes: Seq<BvhNode>,
    lo: nat,
    hi: nat,
    base: nat,
    below: Seq<usize>,
    steps: nat,
)
    requires
        lo < hi,
        hi <= usize::MAX,
        base + 2 * (hi - lo) <= usize::MAX,
        base + 2 * (hi - lo) - 1 <= nodes.len(),
        nodes.subrange(base as int, base + 2 * (hi - lo) - 1) == bvh_subtree(lo, hi, base),
        steps >= 2 * (hi - lo) - 1,
    ensures
        traversal_all_hit(nodes, below.push(base as usize), steps) == Seq::new(
            (hi - lo) as nat,
            |k: int| (hi - 1 - k) as usize,
        ) + traversal_all_hit(nodes, below, (steps - (2 * (hi - lo) - 1)) as nat),
    decreases hi - lo,
{
    lemma_subtree_len(lo, hi, base);
    let s = bvh_subtree(lo, hi, base);
    let st = below.push(base as usize);
    assert(nodes[base as int] == s[0]);
    assert(st.last() == base as usize && st.drop_last() =~= below);
    if hi == lo + 1 {
        assert(Seq::new((hi - lo) as nat, |k: int| (hi - 1 - k) as usize) =~= seq![lo as usize]);
    } else {
        let mid = (lo + (hi - lo) / 2) as nat;
        let right = (base + 2 * (mid - lo)) as nat;
        lemma_subtree_len(lo, mid, base + 1);
        lemma_subtree_len(mid, hi, right);
        let ln = nodes.subrange(base + 1int, base + 1 + 2 * (mid - lo) - 1);
        assert forall|k: int| 0 <= k < 2 * (mid - lo) - 1 implies #[trigger] ln[k] == bvh_subtree(
            lo,
            mid,
            base + 1,
        )[k] by {
            assert(nodes[base + 1 + k] == s[1 + k]);
        }
        assert(ln =~= bvh_subtree(lo, mid, base + 1));
        let rn = nodes.subrange(right as int, right + 2 * (hi - mid) - 1);
        assert forall|k: int| 0 <= k < 2 * (hi - mid) - 1 implies #[trigger] rn[k] == bvh_subtree(
            mid,
            hi,
            right,
        )[k] by {
            assert(nodes[right + k] == s[2 * (mid - lo) + k]);
        }
        assert(rn =~= bvh_subtree(mid, hi, right));
        let with_left = below.push((base + 1) as usize);
        assert(visit_stack(nodes, base as int, true, below) == with_left.push(right as usize));
        let steps1 = (steps - 1) as nat;
        lemma_traversal_subtree(nodes, mid, hi, right, with_left, steps1);
        let steps2 = (steps1 - (2 * (hi - mid) - 1)) as nat;
        lemma_traversal_subtree(nodes, lo, mid, base + 1, below, steps2);
        assert(Seq::new((hi - mid) as nat, |k: int| (hi - 1 - k) as usize) + Seq::new(
            (mid - lo) as nat,
            |k: int| (mid - 1 - k) as usize,
        ) =~= Seq::new((hi - lo) as nat, |k: int| (hi - 1 - k) as usize));
    }
}

/// When the ray hits every box, the depth-first traversal of the hierarchy that
/// `build_bvh_nodes` builds over `n` triangles, started from the root, reports every
/// triangle exactly once (the upper half of each range before the lower half, so in
/// decreasing order) in `2 n - 1` steps, and then stops.
pub proof fn lemma_traversal_reports_every_triangle(n: nat, steps: nat)
    requires
        1 <= n,
        2 * n <= usize::MAX,
        steps >= 2 * n - 1,
    ensures
        traversal_all_hit(bvh_subtree(0, n, 0), seq![0usize], steps) == Seq::new(n, |k: int| (n - 1 - k) as usize),
{
    let nodes = bvh_subtree(0, n, 0);
    lemma_subtree_len(0, n, 0);
    assert(nodes.subrange(0, 2 * n - 1) =~= nodes);
    assert(Seq::<usize>::empty().push(0usize) =~= seq![0usize]);
    lemma_traversal_subtree(nodes, 0, n, 0, Seq::empty(), steps);
    assert(traversal_all_hit(nodes, Seq::empty(), (steps - (2 * n - 1)) as nat) =~= Seq::<usize>::empty());
    assert(Seq::new((n - 0) as nat, |k: int| (n - 1 - k) as usize) + Seq::<usize>::empty() =~= Seq::new(
        n,
        |k: int| (n - 1 - k) as usize,
    ));
}

/// `sum over k < i of weights[k] * nodes[k].i_node_left`.
pub open spec fn weighted_key_sum(nodes: Seq<BvhNode>, weights: Seq<usize>, i: nat) -> int
    decreases i,
{
    if i == 0 {
        0
    } else {
        weighted_key_sum(nodes, weights, (i - 1) as nat) + weights[i - 1] * nodes[i
            - 1].i_node_left
    }
}

/// Sums `weights[k] * nodes[k].i_node_left` over all nodes; `None` when the sum
/// does not fit in a `usize`.
pub fn weighted_key(nodes: &[BvhNode], weights: &[usize]) -> (key: Option<usize>)
    requires
        weights@.len() == nodes@.len(),
    ensures
        key == if weighted_key_sum(nodes@, weights@, nodes@.len()) <= usize::MAX {
            Some(weighted_key_sum(nodes@, weights@, nodes@.len()) as usize)
        } else {
            None::<usize>
        },
{
    let n = nodes.len();
    let mut acc: usize = 0;
    let mut i: usize = 0;
    while i < n
        invariant
            i <= n,
            n == nodes@.len(),
            weights@.len() == n,
            acc == weighted_key_sum(nodes@, weights@, i as nat),
        decreases n - i,
    {
        proof {
            assert(weights@[i as int] * nodes@[i as int].i_node_left >= 0) by (nonlinear_arith)
                requires
                    weights@[i as int] >= 0,
                    nodes@[i as int].i_node_left >= 0,
            ;
            lemma_weighted_key_sum_grows(nodes@, weights@, (i + 1) as nat, n as nat);
        }
        match weights[i].checked_mul(nodes[i].i_node_left) {
            Some(term) => match acc.checked_add(term) {
                Some(a) => {
                    acc = a;
                },
                None => {
                    return None;
                },
            },
            None => {
                return None;
            },
        }
        i = i + 1;
    }
    Some(acc)
}

/// The partial sums of the key never decrease.
proof fn lemma_weighted_key_sum_grows(nodes: Seq<BvhNode>, weights: Seq<usize>, i: nat, j: nat)
    requires
        i <= j <= nodes.len(),
        j <= weights.len(),
    ensures
        weighted_key_sum(nodes, weights, i) <= weighted_key_sum(nodes, weights, j),
    decreases j,
{
    if i < j {
        lemma_weighted_key_sum_grows(nodes, weights, i, (j - 1) as nat);
        assert(weights[j - 1] * nodes[j - 1].i_node_left >= 0) by (nonlinear_arith)
            requires
                weights[j - 1] >= 0,
                nodes[j - 1].i_node_left >= 0,
        ;
    }
}

#[verifier::external_type_specification]
#[verifier::external_body]
pub struct ExStdRng(StdRng);

/// Draws a value from `0..=3` with `rand::Rng::random_range`, whose documentation
/// promises a value inside the (non-empty) range; which value comes out depends on
/// the generator's state and is left unsaid.
#[verifier::external_body]
fn random_weight(rng: &mut StdRng) -> (w: usize)
    ensures
        w <= 3,
{
    rng.random_range(0..=3usize)
}

/// Draws the `n` weights, each in `0..=3`, of the checksum printed over the nodes.
pub fn draw_key_weights(rng: &mut StdRng, n: usize) -> (weights: Vec<usize>)
    ensures
        weights@.len() == n,
        forall|k: int| 0 <= k < n ==> #[trigger] weights@[k] <= 3,
{
    let mut weights: Vec<usize> = Vec::new();
    let mut i: usize = 0;
    while i < n
        invariant
            i <= n,
            weights@.len() == i,
            forall|k: int| 0 <= k < i ==> #[trigger] weights@[k] <= 3,
        decreases n - i,
    {
        let w = random_weight(rng);
        weights.push(w);
        i = i + 1;
    }
    weights
}

} // verus!
