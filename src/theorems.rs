//! What every finished build guarantees, stated over `build_outcome`, which
//! `BvhAccel::new` establishes for the primitive order and nodes it returns.
use vstd::prelude::*;
use crate::bbox::contains;
use crate::binning::plan_left_count;
use crate::build_model::{
    build_outcome, has_parent, initial_state, iterate, lemma_iterate_agree, lemma_outcome_inv,
    node_wf,
};
use crate::bvh::{flattened, BvhNode};
use crate::triangle::Triangle;

verus! {

/// The build only reorders the primitives, and the two children of every
/// interior node split its range into two non-empty adjacent ranges.
pub proof fn theorem_partition(
    input: Seq<Triangle>,
    max_leaf: int,
    b: int,
    prims: Seq<Triangle>,
    nodes: Seq<BvhNode>,
)
    requires
        input.len() <= i32::MAX,
        b >= 2,
        build_outcome(input, max_leaf, b, prims, nodes),
    ensures
        prims.len() == input.len(),
        prims.to_multiset() == input.to_multiset(),
        forall|i: int|
            0 <= i < nodes.len() && (#[trigger] nodes[i]).lc is Some ==> {
                let l = nodes[i].lc->0 as int;
                &&& nodes[i].rc == Some((l + 1) as usize)
                &&& nodes[l].start == nodes[i].start
                &&& nodes[l].start < nodes[l].end
                &&& nodes[l].end == nodes[l + 1].start
                &&& nodes[l + 1].start < nodes[l + 1].end
                &&& nodes[l + 1].end == nodes[i].end
            },
{
    lemma_outcome_inv(input, max_leaf, b, prims, nodes);
    let n = input.len() as int;
    assert forall|i: int| 0 <= i < nodes.len() && (#[trigger] nodes[i]).lc is Some implies {
        let l = nodes[i].lc->0 as int;
        &&& nodes[i].rc == Some((l + 1) as usize)
        &&& nodes[l].start == nodes[i].start
        &&& nodes[l].start < nodes[l].end
        &&& nodes[l].end == nodes[l + 1].start
        &&& nodes[l + 1].start < nodes[l + 1].end
        &&& nodes[l + 1].end == nodes[i].end
    } by {
        let l = nodes[i].lc->0 as int;
        assert(node_wf(nodes, i, n));
        assert(node_wf(nodes, l, n));
        assert(node_wf(nodes, l + 1, n));
    }
}

/// Every leaf holds at most `max_leaf` primitives, unless the split chosen
/// for its range would have left one child empty.
pub proof fn theorem_leaf_size(
    input: Seq<Triangle>,
    max_leaf: int,
    b: int,
    prims: Seq<Triangle>,
    nodes: Seq<BvhNode>,
)
    requires
        input.len() <= i32::MAX,
        b >= 2,
        build_outcome(input, max_leaf, b, prims, nodes),
    ensures
        forall|i: int|
            0 <= i < nodes.len() && (#[trigger] nodes[i]).lc is None ==> {
                let size = nodes[i].end - nodes[i].start;
                let count = plan_left_count(
                    prims.subrange(nodes[i].start as int, nodes[i].end as int),
                    nodes[i].bbox,
                    b,
                );
                size <= max_leaf || count == 0 || count == size
            },
{
    lemma_outcome_inv(input, max_leaf, b, prims, nodes);
}

/// The box of every node contains the box of every primitive in its range.
pub proof fn theorem_box_containment(
    input: Seq<Triangle>,
    max_leaf: int,
    b: int,
    prims: Seq<Triangle>,
    nodes: Seq<BvhNode>,
)
    requires
        input.len() <= i32::MAX,
        b >= 2,
        build_outcome(input, max_leaf, b, prims, nodes),
    ensures
        forall|i: int, k: int|
            0 <= i < nodes.len() && nodes[i].start <= k < nodes[i].end ==> contains(
                #[trigger] nodes[i].bbox,
                #[trigger] prims[k].bbox,
            ),
{
    lemma_outcome_inv(input, max_leaf, b, prims, nodes);
}

/// The ids of a tree of `k` nodes are exactly `0 .. k`: node 0 is the root
/// over all the primitives, children ids name nodes after their parent,
/// every other id has a parent with a smaller id, and no two nodes share a
/// child. A tree over `n` primitives has at most `2n - 1` nodes.
pub proof fn theorem_id_density(
    input: Seq<Triangle>,
    max_leaf: int,
    b: int,
    prims: Seq<Triangle>,
    nodes: Seq<BvhNode>,
)
    requires
        input.len() <= i32::MAX,
        b >= 2,
        build_outcome(input, max_leaf, b, prims, nodes),
    ensures
        input.len() > 0 ==> nodes.len() <= 2 * input.len() - 1,
        input.len() > 0 ==> nodes[0].start == 0 && nodes[0].end == input.len(),
        forall|i: int|
            0 <= i < nodes.len() ==> ((#[trigger] nodes[i]).lc matches Some(l) ==> i < l < nodes.len())
                && (nodes[i].rc matches Some(r) ==> i < r < nodes.len()),
        forall|j: int| 0 < j < nodes.len() ==> #[trigger] has_parent(nodes, j),
        forall|i: int, i2: int|
            0 <= i < nodes.len() && 0 <= i2 < nodes.len() && (#[trigger] nodes[i]).lc is Some && (
            #[trigger] nodes[i2]).lc == nodes[i].lc ==> i == i2,
{
    lemma_outcome_inv(input, max_leaf, b, prims, nodes);
    let n = input.len() as int;
    assert forall|i: int| 0 <= i < nodes.len() implies ((#[trigger] nodes[i]).lc matches Some(l)
        ==> i < l < nodes.len()) && (nodes[i].rc matches Some(r) ==> i < r < nodes.len()) by {
        assert(node_wf(nodes, i, n));
    }
}

/// A build over no primitives yields no nodes, and flattening it writes
/// nothing.
pub proof fn theorem_empty_input(
    input: Seq<Triangle>,
    max_leaf: int,
    b: int,
    prims: Seq<Triangle>,
    nodes: Seq<BvhNode>,
    table: Seq<crate::uniforms::BvhNode>,
)
    requires
        input.len() == 0,
        b >= 2,
        build_outcome(input, max_leaf, b, prims, nodes),
    ensures
        nodes.len() == 0,
        prims.len() == 0,
        flattened(table, nodes) == table,
{
    lemma_outcome_inv(input, max_leaf, b, prims, nodes);
    assert(flattened(table, nodes) =~= table);
}

/// Two builds over the same input and configuration give the same primitive
/// order, the same nodes, and so the same flattened table.
pub proof fn theorem_deterministic(
    input: Seq<Triangle>,
    max_leaf: int,
    b: int,
    prims1: Seq<Triangle>,
    nodes1: Seq<BvhNode>,
    prims2: Seq<Triangle>,
    nodes2: Seq<BvhNode>,
    table: Seq<crate::uniforms::BvhNode>,
)
    requires
        build_outcome(input, max_leaf, b, prims1, nodes1),
        build_outcome(input, max_leaf, b, prims2, nodes2),
    ensures
        prims1 == prims2,
        nodes1 == nodes2,
        flattened(table, nodes1) == flattened(table, nodes2),
{
    let init = initial_state(input);
    let k1 = choose|k: nat|
        #[trigger] iterate(init, max_leaf, b, k) == (prims1, nodes1, Seq::<usize>::empty());
    let k2 = choose|k: nat|
        #[trigger] iterate(init, max_leaf, b, k) == (prims2, nodes2, Seq::<usize>::empty());
    lemma_iterate_agree(init, max_leaf, b, k1, k2);
}

/// Flattening the same nodes into a table a second time changes nothing.
pub proof fn theorem_flatten_idempotent(table: Seq<crate::uniforms::BvhNode>, nodes: Seq<BvhNode>)
    ensures
        flattened(flattened(table, nodes), nodes) == flattened(table, nodes),
{
    assert(flattened(flattened(table, nodes), nodes) =~= flattened(table, nodes));
}

} // verus!
