//! The build as a sequence of steps on a state, the invariant that every
//! reachable state satisfies, and the measure that makes the build stop.
use vstd::prelude::*;
use crate::bbox::{contains, empty_box, lemma_contains_transitive, lemma_merge_contains, merge_box, Bbox};
use crate::binning::{lemma_plan_left_count_range, plan_left_count, split_plan};
use crate::bvh::BvhNode;
use crate::partition::{lemma_two_pointer_keeps_bound, lemma_two_pointer_permutes, sides_of, two_pointer};
use crate::triangle::Triangle;

verus! {

/// The state of a build: the primitives in their current order, the nodes
/// created so far, and the ids of the nodes still to be processed.
pub type BuildState = (Seq<Triangle>, Seq<BvhNode>, Seq<usize>);

/// A node without children over `[start, end)`.
pub open spec fn leaf_node(start: int, end: int, bbox: Bbox) -> BvhNode {
    BvhNode { lc: None, rc: None, bbox, start: start as usize, end: end as usize }
}

/// Merged box of all the primitives of `prims`.
pub open spec fn range_box(prims: Seq<Triangle>) -> Bbox
    decreases prims.len(),
{
    if prims.len() == 0 {
        empty_box()
    } else {
        merge_box(range_box(prims.drop_last()), prims.last().bbox)
    }
}

/// Before the first step: no node for no primitives, else the root over all
/// of them, pending.
pub open spec fn initial_state(input: Seq<Triangle>) -> BuildState {
    if input.len() == 0 {
        (input, Seq::empty(), Seq::empty())
    } else {
        (input, seq![leaf_node(0, input.len() as int, range_box(input))], seq![0usize])
    }
}

/// One step of the build: pop the last node id; a node of at most
/// `max_leaf` primitives stays a leaf; otherwise the chosen split partitions
/// its range, and unless a side would be empty, two children with fresh ids
/// are attached and pushed, the left one first.
pub open spec fn build_step(st: BuildState, max_leaf: int, b: int) -> BuildState {
    let (prims, nodes, stack) = st;
    if stack.len() == 0 {
        st
    } else {
        let u = stack.last() as int;
        let rest = stack.drop_last();
        let node = nodes[u];
        let s = node.start as int;
        let e = node.end as int;
        if e - s <= max_leaf {
            (prims, nodes, rest)
        } else {
            let sub = prims.subrange(s, e);
            let plan = split_plan(sub, node.bbox, b);
            let count = plan_left_count(sub, node.bbox, b);
            if count == 0 || count == e - s {
                (prims, nodes, rest)
            } else {
                let mid = s + count;
                let sides = sides_of(sub, node.bbox, plan.0, b, plan.1);
                let p2 = two_pointer(prims, sides, s, s, mid, e);
                let id = nodes.len() as int;
                let l = leaf_node(s, mid, range_box(p2.subrange(s, mid)));
                let r = leaf_node(mid, e, range_box(p2.subrange(mid, e)));
                let parent = BvhNode {
                    lc: Some(id as usize),
                    rc: Some((id + 1) as usize),
                    bbox: node.bbox,
                    start: node.start,
                    end: node.end,
                };
                (
                    p2,
                    nodes.update(u, parent).push(l).push(r),
                    rest.push(id as usize).push((id + 1) as usize),
                )
            }
        }
    }
}

/// The state after `k` steps from `st`.
pub open spec fn iterate(st: BuildState, max_leaf: int, b: int, k: nat) -> BuildState
    decreases k,
{
    if k == 0 {
        st
    } else {
        build_step(iterate(st, max_leaf, b, (k - 1) as nat), max_leaf, b)
    }
}

/// `prims` and `nodes` are what building over `input` leaves: the primitive
/// order and the node arena once no node is left to process.
pub open spec fn build_outcome(
    input: Seq<Triangle>,
    max_leaf: int,
    b: int,
    prims: Seq<Triangle>,
    nodes: Seq<BvhNode>,
) -> bool {
    exists|k: nat|
        #[trigger] iterate(initial_state(input), max_leaf, b, k) == (prims, nodes, Seq::<usize>::empty())
}

pub open spec fn disjoint(a: BvhNode, b: BvhNode) -> bool {
    a.end <= b.start || b.end <= a.start
}

pub open spec fn within(inner: BvhNode, outer: BvhNode) -> bool {
    outer.start <= inner.start && inner.end <= outer.end
}

pub open spec fn is_leaf(n: BvhNode) -> bool {
    n.lc is None
}

/// Node `i` is well formed: a non-empty range inside the primitives, and,
/// when interior, children `l` and `l + 1` after it that split its range.
pub open spec fn node_wf(nodes: Seq<BvhNode>, i: int, n: int) -> bool {
    let node = nodes[i];
    &&& node.start < node.end <= n
    &&& (node.lc is None <==> node.rc is None)
    &&& node.lc is Some ==> {
        let l = node.lc->0 as int;
        &&& node.rc == Some((l + 1) as usize)
        &&& i < l
        &&& l + 1 < nodes.len()
        &&& nodes[l].start == node.start
        &&& nodes[l].end == nodes[l + 1].start
        &&& nodes[l + 1].end == node.end
    }
}

pub open spec fn has_parent(nodes: Seq<BvhNode>, j: int) -> bool {
    exists|i: int|
        0 <= i < j && (#[trigger] nodes[i].lc == Some(j as usize) || nodes[i].rc == Some(
            j as usize,
        ))
}

/// Whether a leaf was left as it is for a reason: it is small enough, or the
/// chosen split of its range would leave one side empty.
pub open spec fn leaf_settled(prims: Seq<Triangle>, node: BvhNode, max_leaf: int, b: int) -> bool {
    let size = node.end - node.start;
    let count = plan_left_count(prims.subrange(node.start as int, node.end as int), node.bbox, b);
    size <= max_leaf || count == 0 || count == size
}

/// What holds of every state that a build over `input` reaches.
pub open spec fn build_inv(st: BuildState, input: Seq<Triangle>, max_leaf: int, b: int) -> bool {
    let (prims, nodes, stack) = st;
    let n = input.len() as int;
    &&& prims.len() == n
    &&& nodes.len() <= usize::MAX
    &&& prims.to_multiset() == input.to_multiset()
    &&& (n == 0 <==> nodes.len() == 0)
    &&& n == 0 ==> stack.len() == 0
    &&& n > 0 ==> nodes[0].start == 0 && nodes[0].end == n
    &&& n > 0 ==> nodes.len() + 2 * stack_slack(nodes, stack) <= 2 * n - 1
    &&& forall|i: int| 0 <= i < nodes.len() ==> #[trigger] node_wf(nodes, i, n)
    &&& forall|j: int| 0 < j < nodes.len() ==> #[trigger] has_parent(nodes, j)
    &&& forall|i: int, i2: int|
        0 <= i < nodes.len() && 0 <= i2 < nodes.len() && (#[trigger] nodes[i]).lc is Some && (
        #[trigger] nodes[i2]).lc == nodes[i].lc ==> i == i2
    &&& forall|i: int, k: int|
        0 <= i < nodes.len() && nodes[i].start <= k < nodes[i].end ==> contains(
            #[trigger] nodes[i].bbox,
            #[trigger] prims[k].bbox,
        )
    &&& forall|q: int|
        0 <= q < stack.len() ==> (#[trigger] stack[q] as int) < nodes.len() && is_leaf(
            nodes[stack[q] as int],
        )
    &&& forall|q: int, q2: int|
        0 <= q < stack.len() && 0 <= q2 < stack.len() && q != q2 ==> disjoint(
            nodes[#[trigger] stack[q] as int],
            nodes[#[trigger] stack[q2] as int],
        )
    &&& forall|i: int, q: int|
        0 <= i < nodes.len() && 0 <= q < stack.len() && !disjoint(
            #[trigger] nodes[i],
            nodes[#[trigger] stack[q] as int],
        ) ==> within(nodes[stack[q] as int], nodes[i])
    &&& forall|i: int|
        0 <= i < nodes.len() && is_leaf(#[trigger] nodes[i]) && !stack.contains(i as usize) ==> {
            &&& leaf_settled(prims, nodes[i], max_leaf, b)
            &&& forall|q: int| 0 <= q < stack.len() ==> disjoint(nodes[i], nodes[#[trigger] stack[q] as int])
        }
}

pub open spec fn node_weight(n: BvhNode) -> nat {
    if n.end > n.start {
        (2 * (n.end - n.start) - 1) as nat
    } else {
        1
    }
}

/// Work left on the stack: each pending node of size `m` counts `2m - 1`.
pub open spec fn stack_measure(nodes: Seq<BvhNode>, stack: Seq<usize>) -> nat
    decreases stack.len(),
{
    if stack.len() == 0 {
        0
    } else {
        stack_measure(nodes, stack.drop_last()) + node_weight(nodes[stack.last() as int])
    }
}

/// Primitives beyond the first of each pending node: every split still to
/// come adds two nodes and consumes one of them.
pub open spec fn stack_slack(nodes: Seq<BvhNode>, stack: Seq<usize>) -> int
    decreases stack.len(),
{
    if stack.len() == 0 {
        0
    } else {
        stack_slack(nodes, stack.drop_last()) + (nodes[stack.last() as int].end - nodes[
            stack.last() as int].start - 1)
    }
}

} // verus!

verus! {

pub proof fn lemma_range_box_contains(ps: Seq<Triangle>)
    ensures
        forall|k: int| 0 <= k < ps.len() ==> contains(range_box(ps), #[trigger] ps[k].bbox),
    decreases ps.len(),
{
    if ps.len() > 0 {
        let p = ps.drop_last();
        lemma_range_box_contains(p);
        lemma_merge_contains(range_box(p), ps.last().bbox);
        assert forall|k: int| 0 <= k < ps.len() implies contains(range_box(ps), #[trigger] ps[k].bbox) by {
            if k < ps.len() - 1 {
                assert(ps[k] == p[k]);
                lemma_contains_transitive(range_box(ps), range_box(p), p[k].bbox);
            }
        }
    }
}

proof fn lemma_measure_frame(nodes: Seq<BvhNode>, nodes2: Seq<BvhNode>, stack: Seq<usize>)
    requires
        forall|q: int|
            0 <= q < stack.len() ==> nodes2[#[trigger] stack[q] as int].start == nodes[stack[q] as int].start
                && nodes2[stack[q] as int].end == nodes[stack[q] as int].end,
    ensures
        stack_measure(nodes2, stack) == stack_measure(nodes, stack),
        stack_slack(nodes2, stack) == stack_slack(nodes, stack),
    decreases stack.len(),
{
    if stack.len() > 0 {
        let p = stack.drop_last();
        assert forall|q: int| 0 <= q < p.len() implies nodes2[#[trigger] p[q] as int].start
            == nodes[p[q] as int].start && nodes2[p[q] as int].end == nodes[p[q] as int].end by {
            assert(p[q] == stack[q]);
        }
        lemma_measure_frame(nodes, nodes2, p);
        assert(stack[stack.len() - 1] == stack.last());
    }
}

proof fn lemma_slack_nonneg(nodes: Seq<BvhNode>, stack: Seq<usize>)
    requires
        forall|q: int|
            0 <= q < stack.len() ==> nodes[#[trigger] stack[q] as int].start < nodes[stack[q] as int].end,
    ensures
        stack_slack(nodes, stack) >= 0,
    decreases stack.len(),
{
    if stack.len() > 0 {
        let p = stack.drop_last();
        assert forall|q: int|
            0 <= q < p.len() implies nodes[#[trigger] p[q] as int].start < nodes[p[q] as int].end by {
            assert(p[q] == stack[q]);
        }
        lemma_slack_nonneg(nodes, p);
        assert(stack[stack.len() - 1] == stack.last());
    }
}

pub(crate) proof fn lemma_initial_inv(input: Seq<Triangle>, max_leaf: int, b: int)
    requires
        input.len() <= i32::MAX,
    ensures
        build_inv(initial_state(input), input, max_leaf, b),
{
    let st = initial_state(input);
    let prims = st.0;
    let nodes = st.1;
    let stack = st.2;
    if input.len() > 0 {
        lemma_range_box_contains(input);
        assert(nodes.len() == 1);
        assert(stack.len() == 1);
        assert(stack[0] == 0usize);
        assert(node_wf(nodes, 0, input.len() as int));
        assert(stack.drop_last() =~= Seq::<usize>::empty());
        assert(stack_slack(nodes, Seq::<usize>::empty()) == 0);
        assert(stack.last() == 0usize);
        assert(stack_slack(nodes, stack) == input.len() - 1);
        assert forall|i: int, k: int|
            0 <= i < nodes.len() && nodes[i].start <= k < nodes[i].end implies contains(
            #[trigger] nodes[i].bbox,
            #[trigger] prims[k].bbox,
        ) by {
            assert(i == 0);
        }
        assert forall|i: int| 0 <= i < nodes.len() && is_leaf(#[trigger] nodes[i]) && !stack.contains(
            i as usize,
        ) implies false by {
            assert(stack.contains(0usize));
        }
    }
}

} // verus!

verus! {

/// Distinct stack entries name distinct nodes.
proof fn lemma_stack_distinct(st: BuildState, input: Seq<Triangle>, max_leaf: int, b: int, q: int, q2: int)
    requires
        build_inv(st, input, max_leaf, b),
        0 <= q < st.2.len(),
        0 <= q2 < st.2.len(),
        q != q2,
    ensures
        st.2[q] != st.2[q2],
{
    let nodes = st.1;
    let stack = st.2;
    assert(disjoint(nodes[stack[q] as int], nodes[stack[q2] as int]));
    assert(node_wf(nodes, stack[q] as int, input.len() as int));
}

/// Popping a node that stays a leaf keeps the invariant.
#[verifier::rlimit(40)]
proof fn lemma_step_leaf(st: BuildState, input: Seq<Triangle>, max_leaf: int, b: int)
    requires
        build_inv(st, input, max_leaf, b),
        st.2.len() > 0,
        leaf_settled(st.0, st.1[st.2.last() as int], max_leaf, b),
    ensures
        build_inv((st.0, st.1, st.2.drop_last()), input, max_leaf, b),
        stack_measure(st.1, st.2.drop_last()) < stack_measure(st.1, st.2),
{
    let (prims, nodes, stack) = st;
    let rest = stack.drop_last();
    let u = stack.last();
    let last = stack.len() - 1;
    assert(stack[last] == u);
    assert(node_wf(nodes, u as int, input.len() as int));
    assert forall|i: int|
        0 <= i < nodes.len() && is_leaf(#[trigger] nodes[i]) && !rest.contains(i as usize) implies {
        &&& leaf_settled(prims, nodes[i], max_leaf, b)
        &&& forall|q: int| 0 <= q < rest.len() ==> disjoint(nodes[i], nodes[#[trigger] rest[q] as int])
    } by {
        if i == u as int {
            assert forall|q: int| 0 <= q < rest.len() implies disjoint(
                nodes[i],
                nodes[#[trigger] rest[q] as int],
            ) by {
                assert(rest[q] == stack[q]);
                assert(disjoint(nodes[stack[q] as int], nodes[stack[last] as int]));
            }
        } else {
            if stack.contains(i as usize) {
                let q = choose|q: int| 0 <= q < stack.len() && stack[q] == i as usize;
                assert(stack[q] as int == i);
                assert(q != last);
                assert(rest[q] == stack[q]);
                assert(rest.contains(i as usize));
            }
            assert forall|q: int| 0 <= q < rest.len() implies disjoint(
                nodes[i],
                nodes[#[trigger] rest[q] as int],
            ) by {
                assert(rest[q] == stack[q]);
            }
        }
    }
    assert forall|q: int, q2: int|
        0 <= q < rest.len() && 0 <= q2 < rest.len() && q != q2 implies disjoint(
        nodes[#[trigger] rest[q] as int],
        nodes[#[trigger] rest[q2] as int],
    ) by {
        assert(rest[q] == stack[q]);
        assert(rest[q2] == stack[q2]);
    }
    assert forall|i: int, q: int|
        0 <= i < nodes.len() && 0 <= q < rest.len() && !disjoint(
        #[trigger] nodes[i],
        nodes[#[trigger] rest[q] as int],
    ) implies within(nodes[rest[q] as int], nodes[i]) by {
        assert(rest[q] == stack[q]);
    }
    assert forall|q: int| 0 <= q < rest.len() implies (#[trigger] rest[q] as int) < nodes.len() && is_leaf(
        nodes[rest[q] as int],
    ) by {
        assert(rest[q] == stack[q]);
    }
}

} // verus!

verus! {

/// Splitting a node into two non-empty children keeps the invariant and
/// lowers the work left.
#[verifier::rlimit(60)]
proof fn lemma_step_split(st: BuildState, input: Seq<Triangle>, max_leaf: int, b: int)
    requires
        build_inv(st, input, max_leaf, b),
        st.2.len() > 0,
        input.len() <= i32::MAX,
        b >= 2,
        ({
            let node = st.1[st.2.last() as int];
            let size = node.end - node.start;
            let count = plan_left_count(
                st.0.subrange(node.start as int, node.end as int),
                node.bbox,
                b,
            );
            size > max_leaf && count != 0 && count != size
        }),
    ensures
        build_inv(build_step(st, max_leaf, b), input, max_leaf, b),
        stack_measure(build_step(st, max_leaf, b).1, build_step(st, max_leaf, b).2) < stack_measure(
            st.1,
            st.2,
        ),
{
    let (prims, nodes, stack) = st;
    let n = input.len() as int;
    let last = stack.len() - 1;
    let u = stack.last() as int;
    assert(stack[last] as int == u);
    let rest = stack.drop_last();
    let node = nodes[u];
    let s = node.start as int;
    let e = node.end as int;
    let sub = prims.subrange(s, e);
    let plan = split_plan(sub, node.bbox, b);
    let count = plan_left_count(sub, node.bbox, b);
    let mid = s + count;
    let sides = sides_of(sub, node.bbox, plan.0, b, plan.1);
    let p2 = two_pointer(prims, sides, s, s, mid, e);
    let id = nodes.len() as int;
    let l = leaf_node(s, mid, range_box(p2.subrange(s, mid)));
    let r = leaf_node(mid, e, range_box(p2.subrange(mid, e)));
    let parent = BvhNode {
        lc: Some(id as usize),
        rc: Some((id + 1) as usize),
        bbox: node.bbox,
        start: node.start,
        end: node.end,
    };
    let nodes2 = nodes.update(u, parent).push(l).push(r);
    let stack2 = rest.push(id as usize).push((id + 1) as usize);
    assert(build_step(st, max_leaf, b) == (p2, nodes2, stack2));
    assert(u < id && is_leaf(node));
    assert(node_wf(nodes, u, n));
    assert(stack.drop_last() == rest);
    assert forall|q: int|
        0 <= q < rest.len() implies nodes[#[trigger] rest[q] as int].start < nodes[rest[q] as int].end by {
        assert(rest[q] == stack[q]);
        assert(node_wf(nodes, stack[q] as int, n));
    }
    lemma_slack_nonneg(nodes, rest);
    assert(stack_slack(nodes, stack) == stack_slack(nodes, rest) + (e - s - 1));
    lemma_plan_left_count_range(sub, node.bbox, b);
    assert(0 < count < e - s);
    assert(s < mid < e);
    assert(id + 2 <= 2 * n - 1);
    // the partition
    lemma_two_pointer_permutes(prims, sides, s, s, mid, e, e);
    assert(p2.len() == n);
    // the nodes
    assert(nodes2.len() == id + 2);
    assert(nodes2[u] == parent);
    assert(nodes2[id] == l);
    assert(nodes2[id + 1] == r);
    assert forall|j: int| 0 <= j < id && j != u implies #[trigger] nodes2[j] == nodes[j] by {}
    assert forall|j: int|
        0 <= j < id implies (#[trigger] nodes2[j]).start == nodes[j].start && nodes2[j].end
            == nodes[j].end && nodes2[j].bbox == nodes[j].bbox by {
        if j != u {
            assert(nodes2[j] == nodes[j]);
        }
    }
    // the stack
    assert(stack2.len() == rest.len() + 2);
    assert forall|q: int| 0 <= q < rest.len() implies #[trigger] stack2[q] == stack[q] && (
    stack[q] as int) != u by {
        assert(stack2[q] == rest[q]);
        assert(rest[q] == stack[q]);
        lemma_stack_distinct(st, input, max_leaf, b, q, last);
    }
    assert(stack2[rest.len() as int] as int == id);
    assert(stack2[rest.len() as int + 1] as int == id + 1);
    // node well-formedness
    assert forall|i: int| 0 <= i < nodes2.len() implies #[trigger] node_wf(nodes2, i, n) by {
        if i < id && i != u {
            assert(node_wf(nodes, i, n));
            if nodes[i].lc is Some {
                let c = nodes[i].lc->0 as int;
                assert(nodes2[c].start == nodes[c].start && nodes2[c].end == nodes[c].end);
                assert(nodes2[c + 1].start == nodes[c + 1].start && nodes2[c + 1].end == nodes[c
                    + 1].end);
            }
        }
    }
    // parents
    assert forall|j: int| 0 < j < nodes2.len() implies #[trigger] has_parent(nodes2, j) by {
        if j < id {
            assert(has_parent(nodes, j));
            let i0 = choose|i0: int|
                0 <= i0 < j && (#[trigger] nodes[i0].lc == Some(j as usize) || nodes[i0].rc
                    == Some(j as usize));
            assert(i0 != u);
            assert(nodes2[i0] == nodes[i0]);
            assert(nodes2[i0].lc == Some(j as usize) || nodes2[i0].rc == Some(j as usize));
        } else {
            assert(nodes2[u].lc == Some(id as usize));
            assert(nodes2[u].rc == Some((id + 1) as usize));
        }
    }
    // left children are unique
    assert forall|i: int, i2: int|
        0 <= i < nodes2.len() && 0 <= i2 < nodes2.len() && (#[trigger] nodes2[i]).lc is Some && (
        #[trigger] nodes2[i2]).lc == nodes2[i].lc implies i == i2 by {
        if i != u && i2 != u {
            assert(nodes2[i] == nodes[i]);
            assert(nodes2[i2] == nodes[i2]);
        } else if i == u && i2 != u {
            assert(nodes2[i2] == nodes[i2]);
            assert(node_wf(nodes, i2, n));
        } else if i2 == u && i != u {
            assert(nodes2[i] == nodes[i]);
            assert(node_wf(nodes, i, n));
        }
    }
    // boxes
    lemma_range_box_contains(p2.subrange(s, mid));
    lemma_range_box_contains(p2.subrange(mid, e));
    assert forall|i: int, k: int|
        0 <= i < nodes2.len() && nodes2[i].start <= k < nodes2[i].end implies contains(
        #[trigger] nodes2[i].bbox,
        #[trigger] p2[k].bbox,
    ) by {
        if i == id {
            assert(p2.subrange(s, mid)[k - s] == p2[k]);
        } else if i == id + 1 {
            assert(p2.subrange(mid, e)[k - mid] == p2[k]);
        } else {
            let bx = nodes[i].bbox;
            assert(node_wf(nodes, i, n));
            if disjoint(nodes[i], node) || !(s <= k < e) {
                assert(p2[k] == prims[k]);
                assert(contains(nodes[i].bbox, prims[k].bbox));
            } else {
                assert(!disjoint(nodes[i], nodes[stack[last] as int]));
                assert(within(node, nodes[i]));
                assert forall|k2: int| s <= k2 < e implies contains(bx, #[trigger] prims[k2].bbox) by {
                    assert(contains(nodes[i].bbox, prims[k2].bbox));
                }
                lemma_two_pointer_keeps_bound(prims, sides, s, s, mid, e, e, bx);
            }
        }
    }
    // stack entries are leaves
    assert forall|q: int| 0 <= q < stack2.len() implies (#[trigger] stack2[q] as int) < nodes2.len()
        && is_leaf(nodes2[stack2[q] as int]) by {
        if q < rest.len() {
            assert(stack2[q] == stack[q]);
            assert(nodes2[stack[q] as int] == nodes[stack[q] as int]);
        }
    }
    // stack entries are disjoint
    assert forall|q: int, q2: int|
        0 <= q < stack2.len() && 0 <= q2 < stack2.len() && q != q2 implies disjoint(
        nodes2[#[trigger] stack2[q] as int],
        nodes2[#[trigger] stack2[q2] as int],
    ) by {
        if q < rest.len() {
            assert(stack2[q] == stack[q]);
            assert(nodes2[stack[q] as int] == nodes[stack[q] as int]);
            assert(disjoint(nodes[stack[q] as int], nodes[stack[last] as int]));
        }
        if q2 < rest.len() {
            assert(stack2[q2] == stack[q2]);
            assert(nodes2[stack[q2] as int] == nodes[stack[q2] as int]);
            assert(disjoint(nodes[stack[q2] as int], nodes[stack[last] as int]));
        }
    }
    // a node that meets a stack entry contains it
    assert forall|i: int, q: int|
        0 <= i < nodes2.len() && 0 <= q < stack2.len() && !disjoint(
        #[trigger] nodes2[i],
        nodes2[#[trigger] stack2[q] as int],
    ) implies within(nodes2[stack2[q] as int], nodes2[i]) by {
        if q < rest.len() {
            let x = stack[q] as int;
            assert(stack2[q] == stack[q]);
            assert(nodes2[x] == nodes[x]);
            assert(disjoint(nodes[x], nodes[stack[last] as int]));
            if i < id {
                assert(!disjoint(nodes[i], nodes[x]));
            }
        } else if i < id {
            assert(!disjoint(nodes[i], nodes[stack[last] as int]));
        }
    }
    // settled leaves
    assert forall|i: int|
        0 <= i < nodes2.len() && is_leaf(#[trigger] nodes2[i]) && !stack2.contains(
        i as usize,
    ) implies {
        &&& leaf_settled(p2, nodes2[i], max_leaf, b)
        &&& forall|q: int| 0 <= q < stack2.len() ==> disjoint(nodes2[i], nodes2[#[trigger] stack2[q] as int])
    } by {
        if i == id {
            assert(stack2.contains(id as usize));
        } else if i == id + 1 {
            assert(stack2.contains((id + 1) as usize));
        } else {
            assert(i != u);
            assert(nodes2[i] == nodes[i]);
            if stack.contains(i as usize) {
                let q = choose|q: int| 0 <= q < stack.len() && stack[q] == i as usize;
                assert(stack[q] as int == i);
                assert(q != last);
                assert(stack2[q] == stack[q]);
                assert(stack2.contains(i as usize));
            }
            assert(leaf_settled(prims, nodes[i], max_leaf, b));
            assert(disjoint(nodes[i], nodes[stack[last] as int]));
            let si = nodes[i].start as int;
            let ei = nodes[i].end as int;
            assert(node_wf(nodes, i, n));
            assert forall|k: int| si <= k < ei implies #[trigger] p2[k] == prims[k] by {}
            assert(p2.subrange(si, ei) =~= prims.subrange(si, ei));
            assert forall|q: int| 0 <= q < stack2.len() implies disjoint(
                nodes2[i],
                nodes2[#[trigger] stack2[q] as int],
            ) by {
                if q < rest.len() {
                    assert(stack2[q] == stack[q]);
                    assert(nodes2[stack[q] as int] == nodes[stack[q] as int]);
                }
            }
        }
    }
    // the work left
    assert(stack.drop_last() == rest);
    assert(stack2.drop_last() == rest.push(id as usize));
    assert(rest.push(id as usize).drop_last() == rest);
    assert forall|q: int|
        0 <= q < rest.len() implies nodes2[#[trigger] rest[q] as int].start == nodes[rest[q] as int].start
        && nodes2[rest[q] as int].end == nodes[rest[q] as int].end by {
        assert(rest[q] == stack[q]);
        assert(stack2[q] == stack[q]);
        assert((stack2[q] as int) < nodes2.len());
    }
    lemma_measure_frame(nodes, nodes2, rest);
    assert(stack2.last() as int == id + 1);
    assert(rest.push(id as usize).last() as int == id);
    assert(stack_measure(nodes2, stack2) == stack_measure(nodes2, rest.push(id as usize))
        + node_weight(r));
    assert(stack_measure(nodes2, rest.push(id as usize)) == stack_measure(nodes2, rest)
        + node_weight(l));
    assert(stack_measure(nodes, stack) == stack_measure(nodes, rest) + node_weight(node));
    assert(stack_slack(nodes2, stack2) == stack_slack(nodes2, rest.push(id as usize)) + (e - mid
        - 1));
    assert(stack_slack(nodes2, rest.push(id as usize)) == stack_slack(nodes2, rest) + (mid - s
        - 1));
}

} // verus!

verus! {

/// Every step of the build keeps the invariant, and a step that pops a node
/// lowers the work left.
pub proof fn lemma_step_inv(st: BuildState, input: Seq<Triangle>, max_leaf: int, b: int)
    requires
        build_inv(st, input, max_leaf, b),
        input.len() <= i32::MAX,
        b >= 2,
    ensures
        build_inv(build_step(st, max_leaf, b), input, max_leaf, b),
        st.2.len() > 0 ==> stack_measure(build_step(st, max_leaf, b).1, build_step(st, max_leaf, b).2)
            < stack_measure(st.1, st.2),
{
    if st.2.len() > 0 {
        let node = st.1[st.2.last() as int];
        let size = node.end - node.start;
        let count = plan_left_count(st.0.subrange(node.start as int, node.end as int), node.bbox, b);
        if size <= max_leaf || count == 0 || count == size {
            lemma_step_leaf(st, input, max_leaf, b);
        } else {
            lemma_step_split(st, input, max_leaf, b);
        }
    }
}

pub proof fn lemma_iterate_inv(input: Seq<Triangle>, max_leaf: int, b: int, k: nat)
    requires
        input.len() <= i32::MAX,
        b >= 2,
    ensures
        build_inv(iterate(initial_state(input), max_leaf, b, k), input, max_leaf, b),
    decreases k,
{
    if k == 0 {
        lemma_initial_inv(input, max_leaf, b);
    } else {
        lemma_iterate_inv(input, max_leaf, b, (k - 1) as nat);
        lemma_step_inv(
            iterate(initial_state(input), max_leaf, b, (k - 1) as nat),
            input,
            max_leaf,
            b,
        );
    }
}

/// Once no node is left to process, further steps change nothing.
pub proof fn lemma_iterate_stable(st: BuildState, max_leaf: int, b: int, k: nat, m: nat)
    requires
        iterate(st, max_leaf, b, k).2.len() == 0,
    ensures
        iterate(st, max_leaf, b, k + m) == iterate(st, max_leaf, b, k),
    decreases m,
{
    if m > 0 {
        lemma_iterate_stable(st, max_leaf, b, k, (m - 1) as nat);
        assert(iterate(st, max_leaf, b, k + m) == build_step(
            iterate(st, max_leaf, b, (k + m - 1) as nat),
            max_leaf,
            b,
        ));
    }
}

/// Two finished runs from the same state end in the same state.
pub proof fn lemma_iterate_agree(st: BuildState, max_leaf: int, b: int, k1: nat, k2: nat)
    requires
        iterate(st, max_leaf, b, k1).2.len() == 0,
        iterate(st, max_leaf, b, k2).2.len() == 0,
    ensures
        iterate(st, max_leaf, b, k1) == iterate(st, max_leaf, b, k2),
{
    if k1 <= k2 {
        let m = (k2 - k1) as nat;
        lemma_iterate_stable(st, max_leaf, b, k1, m);
        assert(k1 + m == k2);
    } else {
        let m = (k1 - k2) as nat;
        lemma_iterate_stable(st, max_leaf, b, k2, m);
        assert(k2 + m == k1);
    }
}

/// What a finished build satisfies.
pub proof fn lemma_outcome_inv(
    input: Seq<Triangle>,
    max_leaf: int,
    b: int,
    prims: Seq<Triangle>,
    nodes: Seq<BvhNode>,
)
    requires
        input.len() <= i32::MAX,
        b >= 2,
        build_outcome(input, max_leaf, b, prims, nodes),
    ensures
        build_inv((prims, nodes, Seq::<usize>::empty()), input, max_leaf, b),
{
    let k = choose|k: nat|
        #[trigger] iterate(initial_state(input), max_leaf, b, k) == (
            prims,
            nodes,
            Seq::<usize>::empty(),
        );
    lemma_iterate_inv(input, max_leaf, b, k);
}

} // verus!
