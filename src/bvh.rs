//! The bounding volume hierarchy: an arena of nodes addressed by id, built by
//! repeated binned splits, and its flattening into a fixed-capacity table.
use vstd::prelude::*;
use crate::bbox::Bbox;
use crate::binning::plan_split;
use crate::build_model::{
    build_inv, build_outcome, build_step, initial_state, iterate, lemma_initial_inv, lemma_step_inv,
    leaf_node, node_wf, range_box, stack_measure,
};
use crate::partition::{compute_sides, partition_range, sides_of, two_pointer};
use crate::triangle::Triangle;

verus! {

/// A node of the hierarchy. Its id is its position in the arena. An interior
/// node has both children, a leaf neither; every node covers the primitives
/// `[start, end)`.
#[derive(Clone, Copy, Debug)]
pub struct BvhNode {
    pub lc: Option<usize>,
    pub rc: Option<usize>,
    pub bbox: Bbox,
    pub start: usize,
    pub end: usize,
}

/// A built hierarchy: the node arena, with the root at id 0, and the number
/// of primitives it covers. A build over zero primitives has no nodes.
pub struct BvhAccel {
    pub nodes: Vec<BvhNode>,
    pub primitive_count: usize,
}

/// Why a build was refused.
#[derive(Clone, Copy, Debug, PartialEq, Eq, Structural)]
pub enum BuildError {
    /// Fewer than two buckets.
    BucketNumber,
    /// A maximum leaf size of zero.
    LeafSize,
    /// More primitives than a 32-bit signed range can address.
    TooManyPrimitives,
}

/// The entry of the node table for a node.
pub open spec fn table_entry(n: BvhNode) -> crate::uniforms::BvhNode {
    crate::uniforms::BvhNode {
        lc_ind: match n.lc {
            Some(l) => l as i32,
            None => -1i32,
        },
        rc_ind: match n.rc {
            Some(r) => r as i32,
            None => -1i32,
        },
        prim_start: n.start as i32,
        prim_end: n.end as i32,
        bbox: n.bbox,
    }
}

/// The table after writing each node at the slot of its id; the other slots
/// keep what they held.
pub open spec fn flattened(
    table: Seq<crate::uniforms::BvhNode>,
    nodes: Seq<BvhNode>,
) -> Seq<crate::uniforms::BvhNode> {
    Seq::new(
        table.len(),
        |i: int|
            if i < nodes.len() {
                table_entry(nodes[i])
            } else {
                table[i]
            },
    )
}

fn merged_box(prims: &Vec<Triangle>, s: usize, e: usize) -> (r: Bbox)
    requires
        s <= e <= prims@.len(),
    ensures
        r == range_box(prims@.subrange(s as int, e as int)),
{
    let mut acc = Bbox::empty();
    let mut k: usize = s;
    proof {
        assert(prims@.subrange(s as int, s as int).len() == 0);
    }
    while k < e
        invariant
            s <= k <= e <= prims@.len(),
            acc == range_box(prims@.subrange(s as int, k as int)),
        decreases e - k,
    {
        proof {
            assert(prims@.subrange(s as int, k as int + 1).drop_last() =~= prims@.subrange(
                s as int,
                k as int,
            ));
            assert(prims@.subrange(s as int, k as int + 1).last() == prims@[k as int]);
        }
        acc = acc.merge(prims[k].bbox);
        k = k + 1;
    }
    acc
}

/// Partitions `prims[s..e]`, a node with box `n`, for the split along `axis`
/// at bucket boundary `split`, with `mid - s` primitives going left; returns
/// the merged boxes of the two sides after the partition.
pub fn split_at(
    prims: &mut Vec<Triangle>,
    n: Bbox,
    axis: usize,
    split: usize,
    bucket_number: usize,
    s: usize,
    mid: usize,
    e: usize,
) -> (r: (Bbox, Bbox))
    requires
        s <= mid <= e <= old(prims)@.len(),
        axis < 3,
        bucket_number > 0,
    ensures
        final(prims)@ == two_pointer(
            old(prims)@,
            sides_of(
                old(prims)@.subrange(s as int, e as int),
                n,
                axis as int,
                bucket_number as int,
                split as int,
            ),
            s as int,
            s as int,
            mid as int,
            e as int,
        ),
        r.0 == range_box(final(prims)@.subrange(s as int, mid as int)),
        r.1 == range_box(final(prims)@.subrange(mid as int, e as int)),
{
    let sides = compute_sides(prims, s, e, n, axis, bucket_number, split);
    partition_range(prims, &sides, s, mid, e);
    let left = merged_box(prims, s, mid);
    let right = merged_box(prims, mid, e);
    (left, right)
}

impl BvhAccel {
    /// The arena is consistent with the primitive count: ranges lie inside
    /// it, children ids name nodes, and the count fits a 32-bit range.
    pub open spec fn wf(&self) -> bool {
        &&& self.primitive_count <= i32::MAX
        &&& forall|i: int|
            0 <= i < self.nodes@.len() ==> {
                let n = #[trigger] self.nodes@[i];
                &&& n.start <= n.end <= self.primitive_count
                &&& (n.lc matches Some(l) ==> l < self.nodes@.len())
                &&& (n.rc matches Some(r) ==> r < self.nodes@.len())
            }
    }

    /// Builds the hierarchy over `triangles`, reordering them in place.
    /// Leaves hold at most `max_leaf_size` primitives unless no split can
    /// separate them; splits are chosen among `bucket_number` buckets per axis.
    #[verifier::rlimit(40)]
    pub fn new(triangles: &mut Vec<Triangle>, max_leaf_size: usize, bucket_number: usize) -> (r:
        Result<BvhAccel, BuildError>)
        ensures
            bucket_number < 2 <==> r == Err::<BvhAccel, BuildError>(BuildError::BucketNumber),
            bucket_number >= 2 && max_leaf_size == 0 <==> r == Err::<BvhAccel, BuildError>(
                BuildError::LeafSize,
            ),
            bucket_number >= 2 && max_leaf_size >= 1 && old(triangles)@.len() > i32::MAX <==> r
                == Err::<BvhAccel, BuildError>(BuildError::TooManyPrimitives),
            r is Err ==> final(triangles)@ == old(triangles)@,
            r matches Ok(bvh) ==> {
                &&& bvh.wf()
                &&& bvh.primitive_count == old(triangles)@.len()
                &&& build_outcome(
                    old(triangles)@,
                    max_leaf_size as int,
                    bucket_number as int,
                    final(triangles)@,
                    bvh.nodes@,
                )
            },
    {
        if bucket_number < 2 {
            return Err(BuildError::BucketNumber);
        }
        if max_leaf_size == 0 {
            return Err(BuildError::LeafSize);
        }
        if triangles.len() > i32::MAX as usize {
            return Err(BuildError::TooManyPrimitives);
        }
        let ghost input = triangles@;
        let ghost max_leaf = max_leaf_size as int;
        let ghost b = bucket_number as int;
        let n = triangles.len();
        let mut nodes: Vec<BvhNode> = Vec::new();
        let mut stack: Vec<usize> = Vec::new();
        if n > 0 {
            let bbox = merged_box(triangles, 0, n);
            nodes.push(BvhNode { lc: None, rc: None, bbox, start: 0, end: n });
            stack.push(0);
        }
        proof {
            assert(input.subrange(0, n as int) =~= input);
            assert((triangles@, nodes@, stack@) == initial_state(input)) by {
                if n > 0 {
                    assert(nodes@ =~= seq![leaf_node(0, n as int, range_box(input))]);
                    assert(stack@ =~= seq![0usize]);
                } else {
                    assert(nodes@ =~= Seq::<BvhNode>::empty());
                    assert(stack@ =~= Seq::<usize>::empty());
                }
            }
            lemma_initial_inv(input, max_leaf, b);
        }
        let ghost mut k: nat = 0;
        while stack.len() > 0
            invariant
                input.len() <= i32::MAX,
                n == input.len(),
                b >= 2,
                max_leaf >= 1,
                max_leaf == max_leaf_size,
                b == bucket_number,
                iterate(initial_state(input), max_leaf, b, k) == (triangles@, nodes@, stack@),
                build_inv((triangles@, nodes@, stack@), input, max_leaf, b),
            decreases stack_measure(nodes@, stack@),
        {
            let ghost cur = (triangles@, nodes@, stack@);
            proof {
                lemma_step_inv(cur, input, max_leaf, b);
                assert(stack@[stack@.len() - 1] == stack@.last());
            }
            let u = stack.pop().unwrap();
            let node = nodes[u];
            let s = node.start;
            let e = node.end;
            proof {
                assert(node_wf(cur.1, u as int, n as int));
            }
            if e - s > max_leaf_size {
                let (axis, split, count) = plan_split(triangles, s, e, node.bbox, bucket_number);
                if count != 0 && count != e - s {
                    let mid = s + count;
                    let (lbox, rbox) = split_at(
                        triangles,
                        node.bbox,
                        axis,
                        split,
                        bucket_number,
                        s,
                        mid,
                        e,
                    );
                    let lid = nodes.len();
                    nodes.push(BvhNode { lc: None, rc: None, bbox: lbox, start: s, end: mid });
                    let rid = nodes.len();
                    nodes.push(BvhNode { lc: None, rc: None, bbox: rbox, start: mid, end: e });
                    nodes.set(
                        u,
                        BvhNode { lc: Some(lid), rc: Some(rid), bbox: node.bbox, start: s, end: e },
                    );
                    stack.push(lid);
                    stack.push(rid);
                    proof {
                        let step = build_step(cur, max_leaf, b);
                        assert(nodes@ =~= step.1);
                        assert(stack@ =~= step.2);
                    }
                }
            }
            proof {
                k = k + 1;
            }
        }
        proof {
            assert(stack@ =~= Seq::<usize>::empty());
            assert(build_outcome(input, max_leaf, b, triangles@, nodes@));
            assert forall|i: int| 0 <= i < nodes@.len() implies {
                let nd = #[trigger] nodes@[i];
                &&& nd.start <= nd.end <= n
                &&& (nd.lc matches Some(l) ==> l < nodes@.len())
                &&& (nd.rc matches Some(r) ==> r < nodes@.len())
            } by {
                assert(node_wf(nodes@, i, n as int));
            }
        }
        Ok(BvhAccel { nodes, primitive_count: n })
    }

    /// Writes the entry of every node at the slot of its id in `table`.
    pub fn fill_in_uniform(&self, table: &mut Vec<crate::uniforms::BvhNode>)
        requires
            self.wf(),
            self.nodes@.len() <= old(table)@.len() <= 0x8000_0000,
        ensures
            final(table)@ == flattened(old(table)@, self.nodes@),
    {
        let ghost before = table@;
        let mut i: usize = 0;
        while i < self.nodes.len()
            invariant
                self.wf(),
                self.nodes@.len() <= before.len() <= 0x8000_0000,
                table@.len() == before.len(),
                i <= self.nodes@.len(),
                forall|j: int| 0 <= j < i ==> #[trigger] table@[j] == table_entry(self.nodes@[j]),
                forall|j: int| i <= j < before.len() ==> #[trigger] table@[j] == before[j],
            decreases self.nodes@.len() - i,
        {
            let u = self.nodes[i];
            let lc_ind: i32 = match u.lc {
                Some(l) => l as i32,
                None => -1,
            };
            let rc_ind: i32 = match u.rc {
                Some(r) => r as i32,
                None => -1,
            };
            let entry = crate::uniforms::BvhNode::new(
                lc_ind,
                rc_ind,
                u.start as i32,
                u.end as i32,
                u.bbox,
            );
            table.set(i, entry);
            i = i + 1;
        }
        proof {
            assert(table@ =~= flattened(before, self.nodes@));
        }
    }

    /// Number of nodes; zero for a build over no primitives.
    pub fn node_count(&self) -> (r: usize)
        ensures
            r == self.nodes@.len(),
    {
        self.nodes.len()
    }
}

} // verus!
