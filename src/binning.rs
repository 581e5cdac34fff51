//! Binned split selection: primitives are sorted into equal-width buckets
//! along each axis by their centroid, and the boundary between buckets with
//! the lowest estimated cost is chosen.
use vstd::prelude::*;
use vstd::arithmetic::div_mod::{lemma_multiply_divide_lt, lemma_div_pos_is_pos};
use crate::bbox::{coord, empty_box, extent, lemma_merge_empty, merge_box, volume, Bbox, Point3};
use crate::triangle::Triangle;

verus! {

/// Cost reported by an axis that cannot be split; above every real cost.
pub open spec fn infinite_cost() -> int {
    u128::MAX as int
}

/// The bucket, among `b` equal-width buckets of the node box `n` along
/// `axis`, that holds the centroid of the box `t`; -1 when the axis has no
/// extent or the centroid lies outside `[0, b)` buckets. Coordinates are
/// doubled so that the centroid is exact.
pub open spec fn bucket_of(t: Bbox, n: Bbox, axis: int, b: int) -> int {
    let e = extent(n, axis);
    let off = coord(t.p_min, axis) + coord(t.p_max, axis) - 2 * coord(n.p_min, axis);
    if e > 0 && 0 <= off < 2 * e {
        off * b / (2 * e)
    } else {
        -1
    }
}

/// Merged box of the primitives of `prims` that fall into bucket `j`.
pub open spec fn bucket_box(prims: Seq<Triangle>, n: Bbox, axis: int, b: int, j: int) -> Bbox
    decreases prims.len(),
{
    if prims.len() == 0 {
        empty_box()
    } else {
        let t = prims.last().bbox;
        merge_box(
            bucket_box(prims.drop_last(), n, axis, b, j),
            if bucket_of(t, n, axis, b) == j {
                t
            } else {
                empty_box()
            },
        )
    }
}

/// Number of the primitives of `prims` that fall into bucket `j`.
pub open spec fn bucket_count(prims: Seq<Triangle>, n: Bbox, axis: int, b: int, j: int) -> int
    decreases prims.len(),
{
    if prims.len() == 0 {
        0
    } else {
        bucket_count(prims.drop_last(), n, axis, b, j) + if bucket_of(
            prims.last().bbox,
            n,
            axis,
            b,
        ) == j {
            1int
        } else {
            0int
        }
    }
}

pub open spec fn bucket_boxes(prims: Seq<Triangle>, n: Bbox, axis: int, b: int) -> Seq<Bbox> {
    Seq::new(b as nat, |j: int| bucket_box(prims, n, axis, b, j))
}

pub open spec fn bucket_counts(prims: Seq<Triangle>, n: Bbox, axis: int, b: int) -> Seq<int> {
    Seq::new(b as nat, |j: int| bucket_count(prims, n, axis, b, j))
}

pub open spec fn as_ints(s: Seq<usize>) -> Seq<int> {
    Seq::new(s.len(), |i: int| s[i] as int)
}

/// Merge of the first `i` bucket boxes.
pub open spec fn prefix_box(boxes: Seq<Bbox>, i: int) -> Bbox
    decreases i,
{
    if i <= 0 {
        empty_box()
    } else {
        merge_box(prefix_box(boxes, i - 1), boxes[i - 1])
    }
}

/// Merge of the bucket boxes from `i` on.
pub open spec fn suffix_box(boxes: Seq<Bbox>, i: int) -> Bbox
    decreases boxes.len() - i,
{
    if i >= boxes.len() || i < 0 {
        empty_box()
    } else {
        merge_box(boxes[i], suffix_box(boxes, i + 1))
    }
}

/// Sum of the first `i` bucket counts.
pub open spec fn prefix_count(counts: Seq<int>, i: int) -> int
    decreases i,
{
    if i <= 0 {
        0
    } else {
        prefix_count(counts, i - 1) + counts[i - 1]
    }
}

/// Estimated cost of splitting between bucket `i - 1` and bucket `i`: the
/// metric of each side's box weighted by its number of primitives, where the
/// right side counts every primitive not on the left.
pub open spec fn split_cost(boxes: Seq<Bbox>, counts: Seq<int>, total: int, i: int) -> int {
    volume(prefix_box(boxes, i)) * prefix_count(counts, i) + volume(suffix_box(boxes, i)) * (total
        - prefix_count(counts, i))
}

/// Lowest cost and its boundary among the boundaries `1 .. i`, the first one
/// on ties; `(infinite_cost(), 0)` when there is none.
pub open spec fn best_split_upto(boxes: Seq<Bbox>, counts: Seq<int>, total: int, i: int) -> (
    int,
    int,
)
    decreases i,
{
    if i <= 1 {
        (infinite_cost(), 0)
    } else {
        let prev = best_split_upto(boxes, counts, total, i - 1);
        let c = split_cost(boxes, counts, total, i - 1);
        if c < prev.0 {
            (c, i - 1)
        } else {
            prev
        }
    }
}

pub open spec fn best_split(boxes: Seq<Bbox>, counts: Seq<int>, total: int) -> (int, int) {
    best_split_upto(boxes, counts, total, boxes.len() as int)
}

/// Cost and boundary that one axis offers for the primitives `prims` of a node
/// with box `n`: the best binned split, or `(infinite_cost(), b / 2)` on an axis
/// where the node has no extent.
pub open spec fn axis_split(prims: Seq<Triangle>, n: Bbox, axis: int, b: int) -> (int, int) {
    if extent(n, axis) > 0 {
        best_split(bucket_boxes(prims, n, axis, b), bucket_counts(prims, n, axis, b), prims.len() as int)
    } else {
        (infinite_cost(), b / 2)
    }
}

/// The axis and boundary chosen for a node: the axis of lowest cost, ties
/// going to x, then y, then z.
pub open spec fn split_plan(prims: Seq<Triangle>, n: Bbox, b: int) -> (int, int) {
    let x = axis_split(prims, n, 0, b);
    let y = axis_split(prims, n, 1, b);
    let z = axis_split(prims, n, 2, b);
    if x.0 <= y.0 && x.0 <= z.0 {
        (0, x.1)
    } else if y.0 <= x.0 && y.0 <= z.0 {
        (1, y.1)
    } else {
        (2, z.1)
    }
}

/// Number of primitives that the chosen split sends to the left child.
pub open spec fn plan_left_count(prims: Seq<Triangle>, n: Bbox, b: int) -> int {
    let plan = split_plan(prims, n, b);
    prefix_count(bucket_counts(prims, n, plan.0, b), plan.1)
}

pub proof fn lemma_bucket_count_bound(prims: Seq<Triangle>, n: Bbox, axis: int, b: int, j: int)
    ensures
        0 <= bucket_count(prims, n, axis, b, j) <= prims.len(),
    decreases prims.len(),
{
    if prims.len() > 0 {
        lemma_bucket_count_bound(prims.drop_last(), n, axis, b, j);
    }
}

proof fn lemma_prefix_count_update(c: Seq<int>, j: int, i: int)
    requires
        0 <= j < c.len(),
        i <= c.len(),
    ensures
        prefix_count(c.update(j, c[j] + 1), i) == prefix_count(c, i) + if j < i {
            1int
        } else {
            0int
        },
    decreases i,
{
    if i > 0 {
        lemma_prefix_count_update(c, j, i - 1);
    }
}

pub proof fn lemma_prefix_count_monotone(c: Seq<int>, i: int, k: int)
    requires
        0 <= i <= k <= c.len(),
        forall|m: int| 0 <= m < c.len() ==> c[m] >= 0,
    ensures
        0 <= prefix_count(c, i) <= prefix_count(c, k),
    decreases k,
{
    if i < k {
        lemma_prefix_count_monotone(c, i, k - 1);
    } else if i > 0 {
        lemma_prefix_count_monotone(c, i - 1, i - 1);
    }
}

/// The counts of `bucket_counts` add up to at most the number of primitives.
pub proof fn lemma_bucket_counts_total(prims: Seq<Triangle>, n: Bbox, axis: int, b: int)
    requires
        b >= 0,
    ensures
        prefix_count(bucket_counts(prims, n, axis, b), b) <= prims.len(),
        forall|j: int| 0 <= j < b ==> #[trigger] bucket_counts(prims, n, axis, b)[j] >= 0,
    decreases prims.len(),
{
    let c = bucket_counts(prims, n, axis, b);
    assert forall|j: int| 0 <= j < b implies #[trigger] c[j] >= 0 by {
        lemma_bucket_count_bound(prims, n, axis, b, j);
    }
    if prims.len() > 0 {
        let p = prims.drop_last();
        lemma_bucket_counts_total(p, n, axis, b);
        let bj = bucket_of(prims.last().bbox, n, axis, b);
        let cp = bucket_counts(p, n, axis, b);
        if 0 <= bj < b {
            lemma_prefix_count_update(cp, bj, b);
            assert(c =~= cp.update(bj, cp[bj] + 1));
        } else {
            assert(c =~= cp);
        }
    } else {
        lemma_prefix_count_zero(c, b);
    }
}

proof fn lemma_prefix_count_zero(c: Seq<int>, i: int)
    requires
        i <= c.len(),
        forall|m: int| 0 <= m < c.len() ==> c[m] == 0,
    ensures
        prefix_count(c, i) == 0,
    decreases i,
{
    if i > 0 {
        lemma_prefix_count_zero(c, i - 1);
    }
}

pub fn coord_of(p: Point3, axis: usize) -> (r: i32)
    requires
        axis < 3,
    ensures
        r as int == coord(p, axis as int),
{
    if axis == 0 {
        p.x
    } else if axis == 1 {
        p.y
    } else {
        p.z
    }
}

/// The bucket of `t` inside `n` along `axis` (see `bucket_of`).
pub fn bucket_index(t: Bbox, n: Bbox, axis: usize, b: usize) -> (r: Option<usize>)
    requires
        axis < 3,
        b > 0,
    ensures
        match r {
            Some(j) => j < b && j as int == bucket_of(t, n, axis as int, b as int),
            None => bucket_of(t, n, axis as int, b as int) == -1,
        },
{
    let lo = coord_of(n.p_min, axis) as i64;
    let e = coord_of(n.p_max, axis) as i64 - lo;
    let off = coord_of(t.p_min, axis) as i64 + coord_of(t.p_max, axis) as i64 - 2 * lo;
    if e > 0 && 0 <= off && off < 2 * e {
        let ghost offi = off as int;
        let ghost bi = b as int;
        let ghost di = 2 * e as int;
        proof {
            assert(offi * bi < di * bi) by (nonlinear_arith)
                requires
                    0 <= offi < di,
                    bi > 0,
            ;
            assert(0 <= offi * bi <= 0x2_0000_0000 * bi) by (nonlinear_arith)
                requires
                    0 <= offi <= 0x2_0000_0000,
                    bi > 0,
            ;
            assert(0x2_0000_0000 * bi < 0x2_0000_0000 * 0x1_0000_0000_0000_0000) by (
            nonlinear_arith)
                requires
                    0 < bi < 0x1_0000_0000_0000_0000,
            ;
            lemma_multiply_divide_lt(offi * bi, di, bi);
            lemma_div_pos_is_pos(offi * bi, di);
        }
        let q = (off as u128 * b as u128) / ((2 * e) as u128);
        Some(q as usize)
    } else {
        None
    }
}

/// Sorts the primitives `prims[s..e]` into `b` buckets of the node box `n`
/// along `axis`: the merged box and the number of primitives of each bucket.
pub fn bin_primitives(prims: &Vec<Triangle>, s: usize, e: usize, n: Bbox, axis: usize, b: usize) -> (r: (
    Vec<Bbox>,
    Vec<usize>,
))
    requires
        s <= e <= prims@.len(),
        axis < 3,
        b > 0,
    ensures
        r.0@.len() == b,
        r.1@.len() == b,
        r.0@ == bucket_boxes(prims@.subrange(s as int, e as int), n, axis as int, b as int),
        as_ints(r.1@) == bucket_counts(prims@.subrange(s as int, e as int), n, axis as int, b as int),
{
    let mut boxes: Vec<Bbox> = Vec::new();
    let mut counts: Vec<usize> = Vec::new();
    let mut j: usize = 0;
    while j < b
        invariant
            j <= b,
            boxes@.len() == j,
            counts@.len() == j,
            forall|m: int| 0 <= m < j ==> boxes@[m] == empty_box(),
            forall|m: int| 0 <= m < j ==> counts@[m] == 0,
        decreases b - j,
    {
        boxes.push(Bbox::empty());
        counts.push(0);
        j = j + 1;
    }
    let ghost base = prims@.subrange(s as int, s as int);
    proof {
        assert(base.len() == 0);
    }
    let mut k: usize = s;
    while k < e
        invariant
            s <= k <= e <= prims@.len(),
            axis < 3,
            b > 0,
            boxes@.len() == b,
            counts@.len() == b,
            forall|m: int|
                0 <= m < b ==> boxes@[m] == bucket_box(
                    #[trigger] prims@.subrange(s as int, k as int),
                    n,
                    axis as int,
                    b as int,
                    m,
                ),
            forall|m: int|
                0 <= m < b ==> counts@[m] == bucket_count(
                    #[trigger] prims@.subrange(s as int, k as int),
                    n,
                    axis as int,
                    b as int,
                    m,
                ),
        decreases e - k,
    {
        let ghost before = prims@.subrange(s as int, k as int);
        let ghost after = prims@.subrange(s as int, k as int + 1);
        proof {
            assert(after.drop_last() =~= before);
            assert(after.last() == prims@[k as int]);
        }
        let t = prims[k].bbox;
        match bucket_index(t, n, axis, b) {
            Some(j) => {
                proof {
                    lemma_bucket_count_bound(before, n, axis as int, b as int, j as int);
                    lemma_merge_empty(boxes@[j as int]);
                }
                let merged = boxes[j].merge(t);
                boxes.set(j, merged);
                let c = counts[j] + 1;
                counts.set(j, c);
                proof {
                    assert forall|m: int| 0 <= m < b implies boxes@[m] == bucket_box(
                        #[trigger] prims@.subrange(s as int, k as int + 1),
                        n,
                        axis as int,
                        b as int,
                        m,
                    ) by {
                        lemma_merge_empty(bucket_box(before, n, axis as int, b as int, m));
                    }
                }
            },
            None => {
                proof {
                    assert forall|m: int| 0 <= m < b implies boxes@[m] == bucket_box(
                        #[trigger] prims@.subrange(s as int, k as int + 1),
                        n,
                        axis as int,
                        b as int,
                        m,
                    ) by {
                        lemma_merge_empty(bucket_box(before, n, axis as int, b as int, m));
                    }
                }
            },
        }
        k = k + 1;
    }
    proof {
        let sub = prims@.subrange(s as int, e as int);
        assert(boxes@ =~= bucket_boxes(sub, n, axis as int, b as int));
        assert(as_ints(counts@) =~= bucket_counts(sub, n, axis as int, b as int));
    }
    (boxes, counts)
}

proof fn lemma_cost_bound(vl: int, vr: int, cl: int, total: int)
    requires
        0 <= vl < 0x1_0000_0000_0000_0000_0000_0000,
        0 <= vr < 0x1_0000_0000_0000_0000_0000_0000,
        0 <= cl <= total < 0x8000_0000,
    ensures
        0 <= vl * cl <= vl * total,
        0 <= vr * (total - cl),
        vl * cl + vr * (total - cl) < 0x8000_0000_0000_0000_0000_0000_0000_0000,
{
    assert(0 <= vl * cl <= 0x1_0000_0000_0000_0000_0000_0000 * cl) by (nonlinear_arith)
        requires
            0 <= vl < 0x1_0000_0000_0000_0000_0000_0000,
            0 <= cl,
    ;
    assert(0 <= vl * cl <= vl * total) by (nonlinear_arith)
        requires
            0 <= vl,
            0 <= cl <= total,
    ;
    assert(0 <= vr * (total - cl) <= 0x1_0000_0000_0000_0000_0000_0000 * (total - cl)) by (
    nonlinear_arith)
        requires
            0 <= vr < 0x1_0000_0000_0000_0000_0000_0000,
            0 <= total - cl,
    ;
    assert(0x1_0000_0000_0000_0000_0000_0000 * cl + 0x1_0000_0000_0000_0000_0000_0000 * (total
        - cl) == 0x1_0000_0000_0000_0000_0000_0000 * total);
}

/// The lowest-cost boundary among `boxes.len()` buckets whose merged boxes and
/// primitive counts are given, for a node of `prim_total_count` primitives.
pub fn find_best_split(
    boxes: &Vec<Bbox>,
    prim_counts: &Vec<usize>,
    prim_total_count: usize,
    bucket_number: usize,
) -> (r: (u128, usize))
    requires
        bucket_number >= 2,
        boxes@.len() == bucket_number,
        prim_counts@.len() == bucket_number,
        prim_total_count <= i32::MAX,
        prefix_count(as_ints(prim_counts@), bucket_number as int) <= prim_total_count,
    ensures
        (r.0 as int, r.1 as int) == best_split(boxes@, as_ints(prim_counts@), prim_total_count as int),
{
    let ghost counts = as_ints(prim_counts@);
    // suffix boxes, from the last bucket down: rev[m] is the suffix from bucket_number - 1 - m
    let mut rev: Vec<Bbox> = Vec::new();
    let mut acc = Bbox::empty();
    let mut m: usize = 0;
    while m < bucket_number
        invariant
            m <= bucket_number,
            boxes@.len() == bucket_number,
            rev@.len() == m,
            acc == suffix_box(boxes@, bucket_number - m),
            forall|q: int| 0 <= q < m ==> rev@[q] == suffix_box(boxes@, bucket_number - 1 - q),
        decreases bucket_number - m,
    {
        acc = boxes[bucket_number - 1 - m].merge(acc);
        rev.push(acc);
        m = m + 1;
    }
    let mut best_cost: u128 = u128::MAX;
    let mut best: usize = 0;
    let mut left = Bbox::empty();
    let mut left_count: usize = 0;
    let mut i: usize = 1;
    proof {
        assert forall|q: int| 0 <= q < bucket_number implies counts[q] >= 0 by {}
    }
    while i < bucket_number
        invariant
            1 <= i <= bucket_number,
            bucket_number >= 2,
            boxes@.len() == bucket_number,
            prim_counts@.len() == bucket_number,
            counts == as_ints(prim_counts@),
            rev@.len() == bucket_number,
            forall|q: int| 0 <= q < bucket_number ==> rev@[q] == suffix_box(boxes@, bucket_number - 1 - q),
            forall|q: int| 0 <= q < bucket_number ==> counts[q] >= 0,
            prefix_count(counts, bucket_number as int) <= prim_total_count <= i32::MAX,
            left == prefix_box(boxes@, i - 1),
            left_count as int == prefix_count(counts, i - 1),
            (best_cost as int, best as int) == best_split_upto(boxes@, counts, prim_total_count as int, i as int),
        decreases bucket_number - i,
    {
        left = left.merge(boxes[i - 1]);
        proof {
            lemma_prefix_count_monotone(counts, i as int, bucket_number as int);
        }
        left_count = left_count + prim_counts[i - 1];
        let right = rev[bucket_number - 1 - i];
        let vl = left.surface_area();
        let vr = right.surface_area();
        proof {
            lemma_cost_bound(vl as int, vr as int, left_count as int, prim_total_count as int);
        }
        let cost = vl * (left_count as u128) + vr * ((prim_total_count - left_count) as u128);
        if cost < best_cost {
            best_cost = cost;
            best = i;
        }
        i = i + 1;
    }
    (best_cost, best)
}

} // verus!

verus! {

pub proof fn lemma_best_split_range(boxes: Seq<Bbox>, counts: Seq<int>, total: int, i: int)
    ensures
        i >= 1 ==> 0 <= best_split_upto(boxes, counts, total, i).1 < i,
        best_split_upto(boxes, counts, total, i).0 <= infinite_cost(),
    decreases i,
{
    if i > 1 {
        lemma_best_split_range(boxes, counts, total, i - 1);
    }
}

/// The merged boxes of the buckets along one axis, their counts, and the
/// cost and boundary that the axis offers (see `axis_split`).
fn axis_best(prims: &Vec<Triangle>, s: usize, e: usize, n: Bbox, axis: usize, b: usize) -> (r: (
    u128,
    usize,
    Vec<usize>,
))
    requires
        s <= e <= prims@.len(),
        e - s <= i32::MAX,
        axis < 3,
        b >= 2,
    ensures
        (r.0 as int, r.1 as int) == axis_split(
            prims@.subrange(s as int, e as int),
            n,
            axis as int,
            b as int,
        ),
        r.1 < b,
        r.2@.len() == b,
        as_ints(r.2@) == bucket_counts(prims@.subrange(s as int, e as int), n, axis as int, b as int),
{
    let ghost sub = prims@.subrange(s as int, e as int);
    let (boxes, counts) = bin_primitives(prims, s, e, n, axis, b);
    proof {
        lemma_bucket_counts_total(sub, n, axis as int, b as int);
        lemma_best_split_range(boxes@, as_ints(counts@), (e - s) as int, b as int);
    }
    let lo = coord_of(n.p_min, axis) as i64;
    let hi = coord_of(n.p_max, axis) as i64;
    if hi - lo > 0 {
        let (cost, split) = find_best_split(&boxes, &counts, e - s, b);
        (cost, split, counts)
    } else {
        (u128::MAX, b / 2, counts)
    }
}

/// Chooses the split of the node `prims[s..e]` with box `n` among `b` buckets
/// per axis: the axis, the boundary, and the number of primitives that go to
/// the left child.
pub fn plan_split(prims: &Vec<Triangle>, s: usize, e: usize, n: Bbox, b: usize) -> (r: (
    usize,
    usize,
    usize,
))
    requires
        s <= e <= prims@.len(),
        e - s <= i32::MAX,
        b >= 2,
    ensures
        (r.0 as int, r.1 as int) == split_plan(prims@.subrange(s as int, e as int), n, b as int),
        r.2 as int == plan_left_count(prims@.subrange(s as int, e as int), n, b as int),
        r.0 < 3,
        r.1 < b,
        r.2 <= e - s,
{
    let ghost sub = prims@.subrange(s as int, e as int);
    let (cx, sx, nx) = axis_best(prims, s, e, n, 0, b);
    let (cy, sy, ny) = axis_best(prims, s, e, n, 1, b);
    let (cz, sz, nz) = axis_best(prims, s, e, n, 2, b);
    let (axis, split, counts) = if cx <= cy && cx <= cz {
        (0, sx, nx)
    } else if cy <= cx && cy <= cz {
        (1, sy, ny)
    } else {
        (2, sz, nz)
    };
    let ghost c = as_ints(counts@);
    proof {
        lemma_bucket_counts_total(sub, n, axis as int, b as int);
        lemma_prefix_count_monotone(c, split as int, b as int);
    }
    let mut left: usize = 0;
    let mut i: usize = 0;
    while i < split
        invariant
            i <= split < b,
            counts@.len() == b,
            c == as_ints(counts@),
            forall|q: int| 0 <= q < b ==> c[q] >= 0,
            prefix_count(c, split as int) <= e - s,
            left as int == prefix_count(c, i as int),
        decreases split - i,
    {
        proof {
            lemma_prefix_count_monotone(c, i as int + 1, split as int);
        }
        left = left + counts[i];
        i = i + 1;
    }
    (axis, split, left)
}

} // verus!

verus! {

/// The left side of the chosen split holds between none and all of the
/// primitives.
pub proof fn lemma_plan_left_count_range(prims: Seq<Triangle>, n: Bbox, b: int)
    requires
        b >= 2,
    ensures
        0 <= plan_left_count(prims, n, b) <= prims.len(),
        0 <= split_plan(prims, n, b).0 < 3,
        0 <= split_plan(prims, n, b).1 < b,
{
    let plan = split_plan(prims, n, b);
    assert forall|a: int| 0 <= a < 3 implies 0 <= #[trigger] axis_split(prims, n, a, b).1 < b by {
        lemma_best_split_range(
            bucket_boxes(prims, n, a, b),
            bucket_counts(prims, n, a, b),
            prims.len() as int,
            b,
        );
    }
    assert(0 <= axis_split(prims, n, plan.0, b).1 < b);
    lemma_bucket_counts_total(prims, n, plan.0, b);
    lemma_prefix_count_monotone(bucket_counts(prims, n, plan.0, b), plan.1, b);
}

} // verus!
