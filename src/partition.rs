//! In-place two-pointer partition of a range of primitives by precomputed
//! sides.
use vstd::prelude::*;
use crate::bbox::{contains, Bbox};
use crate::binning::{bucket_index, bucket_of};
use crate::triangle::Triangle;

verus! {

/// Side of a primitive for the split at bucket boundary `split`: 0 for a
/// bucket below the boundary (left), 1 for one at or above it (right), 2 for
/// no bucket.
pub open spec fn side_of(t: Bbox, n: Bbox, axis: int, b: int, split: int) -> u8 {
    let j = bucket_of(t, n, axis, b);
    if 0 <= j < split {
        0
    } else if j >= split {
        1
    } else {
        2
    }
}

pub open spec fn sides_of(prims: Seq<Triangle>, n: Bbox, axis: int, b: int, split: int) -> Seq<
    u8,
> {
    Seq::new(prims.len(), |i: int| side_of(prims[i].bbox, n, axis, b, split))
}

pub open spec fn swap_at<T>(ps: Seq<T>, i: int, j: int) -> Seq<T> {
    ps.update(i, ps[j]).update(j, ps[i])
}

/// Where the right cursor (one past the position it looks at) stops: it moves
/// down over positions on the right side, staying above the left cursor `lp`.
/// `sides[k]` is the side of position `s + k`.
pub open spec fn skip_right(sides: Seq<u8>, s: int, lp: int, r: int) -> int
    decreases r - lp,
{
    if r > lp + 1 && sides[r - 1 - s] == 1 {
        skip_right(sides, s, lp, r - 1)
    } else {
        r
    }
}

/// The two-pointer partition from left cursor `lp` (up to `mid`) and right
/// cursor `r`: each position of the prefix that is not on the left side is
/// swapped with the highest position below the right cursor that is not on
/// the right side.
pub open spec fn two_pointer(ps: Seq<Triangle>, sides: Seq<u8>, s: int, lp: int, mid: int, r: int) -> Seq<
    Triangle,
>
    decreases mid - lp,
{
    if lp >= mid {
        ps
    } else if sides[lp - s] == 0 {
        two_pointer(ps, sides, s, lp + 1, mid, r)
    } else {
        let r2 = skip_right(sides, s, lp, r);
        if r2 > lp {
            two_pointer(swap_at(ps, lp, r2 - 1), sides, s, lp + 1, mid, r2 - 1)
        } else {
            ps
        }
    }
}

pub proof fn lemma_skip_right_range(sides: Seq<u8>, s: int, lp: int, r: int)
    requires
        r > lp,
    ensures
        lp < skip_right(sides, s, lp, r) <= r,
    decreases r - lp,
{
    if r > lp + 1 && sides[r - 1 - s] == 1 {
        lemma_skip_right_range(sides, s, lp, r - 1);
    }
}

pub proof fn lemma_swap_multiset<T>(ps: Seq<T>, i: int, j: int)
    requires
        0 <= i < ps.len(),
        0 <= j < ps.len(),
    ensures
        swap_at(ps, i, j).to_multiset() == ps.to_multiset(),
{
    broadcast use vstd::seq_lib::to_multiset_update, vstd::multiset::group_multiset_axioms;

    let a = ps[i];
    let b = ps[j];
    let m = ps.to_multiset();
    let p1 = ps.update(i, b);
    assert(ps.contains(a));
    ps.to_multiset_ensures();
    assert(m.count(a) > 0);
    assert(p1.to_multiset() == m.insert(b).remove(a));
    assert(p1.update(j, a).to_multiset() == p1.to_multiset().insert(a).remove(p1[j]));
    assert(p1[j] == b);
    assert(m.insert(b).remove(a).insert(a).remove(b) =~= m);
}

/// The partition permutes the primitives: it keeps their multiset and leaves
/// everything outside `[s, e)` in place.
pub proof fn lemma_two_pointer_permutes(
    ps: Seq<Triangle>,
    sides: Seq<u8>,
    s: int,
    lp: int,
    mid: int,
    r: int,
    e: int,
)
    requires
        0 <= s <= lp,
        mid <= e,
        r <= e <= ps.len(),
        sides.len() == e - s,
    ensures
        two_pointer(ps, sides, s, lp, mid, r).len() == ps.len(),
        two_pointer(ps, sides, s, lp, mid, r).to_multiset() == ps.to_multiset(),
        forall|k: int|
            0 <= k < ps.len() && !(s <= k < e) ==> #[trigger] two_pointer(
                ps,
                sides,
                s,
                lp,
                mid,
                r,
            )[k] == ps[k],
    decreases mid - lp,
{
    if lp < mid && sides[lp - s] == 0 {
        lemma_two_pointer_permutes(ps, sides, s, lp + 1, mid, r, e);
    } else if lp < mid {
        let r2 = skip_right(sides, s, lp, r);
        if r2 > lp {
            lemma_skip_right_range(sides, s, lp, r);
            lemma_swap_multiset(ps, lp, r2 - 1);
            lemma_two_pointer_permutes(swap_at(ps, lp, r2 - 1), sides, s, lp + 1, mid, r2 - 1, e);
        }
    }
}

/// A box that contains every primitive of `ps` in `[s, e)` contains every
/// primitive in that range after the partition.
pub proof fn lemma_two_pointer_keeps_bound(
    ps: Seq<Triangle>,
    sides: Seq<u8>,
    s: int,
    lp: int,
    mid: int,
    r: int,
    e: int,
    bound: Bbox,
)
    requires
        0 <= s <= lp,
        mid <= e,
        r <= e <= ps.len(),
        sides.len() == e - s,
        forall|k: int| s <= k < e ==> contains(bound, #[trigger] ps[k].bbox),
    ensures
        forall|k: int|
            s <= k < e ==> contains(bound, #[trigger] two_pointer(ps, sides, s, lp, mid, r)[k].bbox),
    decreases mid - lp,
{
    if lp < mid && sides[lp - s] == 0 {
        lemma_two_pointer_keeps_bound(ps, sides, s, lp + 1, mid, r, e, bound);
        assert(two_pointer(ps, sides, s, lp, mid, r) == two_pointer(ps, sides, s, lp + 1, mid, r));
    } else if lp < mid {
        let r2 = skip_right(sides, s, lp, r);
        if r2 > lp {
            lemma_skip_right_range(sides, s, lp, r);
            let ps2 = swap_at(ps, lp, r2 - 1);
            assert forall|k: int| s <= k < e implies contains(bound, #[trigger] ps2[k].bbox) by {
                if k == lp {
                    assert(ps2[k] == ps[r2 - 1]);
                } else if k == r2 - 1 {
                    assert(ps2[k] == ps[lp]);
                } else {
                    assert(ps2[k] == ps[k]);
                }
            }
            lemma_two_pointer_keeps_bound(ps2, sides, s, lp + 1, mid, r2 - 1, e, bound);
            assert(two_pointer(ps, sides, s, lp, mid, r) == two_pointer(
                ps2,
                sides,
                s,
                lp + 1,
                mid,
                r2 - 1,
            ));
        } else {
            assert(two_pointer(ps, sides, s, lp, mid, r) == ps);
        }
    } else {
        assert(two_pointer(ps, sides, s, lp, mid, r) == ps);
    }
}

/// Sides of the primitives `prims[s..e]` for the split of node box `n` along
/// `axis` at boundary `split`, one per position.
pub fn compute_sides(
    prims: &Vec<Triangle>,
    s: usize,
    e: usize,
    n: Bbox,
    axis: usize,
    b: usize,
    split: usize,
) -> (r: Vec<u8>)
    requires
        s <= e <= prims@.len(),
        axis < 3,
        b > 0,
    ensures
        r@ == sides_of(prims@.subrange(s as int, e as int), n, axis as int, b as int, split as int),
{
    let ghost sub = prims@.subrange(s as int, e as int);
    let mut sides: Vec<u8> = Vec::new();
    let mut k: usize = s;
    while k < e
        invariant
            s <= k <= e <= prims@.len(),
            sub == prims@.subrange(s as int, e as int),
            axis < 3,
            b > 0,
            sides@.len() == k - s,
            forall|q: int|
                0 <= q < k - s ==> sides@[q] == side_of(sub[q].bbox, n, axis as int, b as int, split as int),
        decreases e - k,
    {
        let side: u8 = match bucket_index(prims[k].bbox, n, axis, b) {
            Some(j) => if j < split {
                0
            } else {
                1
            },
            None => 2,
        };
        sides.push(side);
        k = k + 1;
    }
    proof {
        assert(sides@ =~= sides_of(sub, n, axis as int, b as int, split as int));
    }
    sides
}

fn swap_prims(prims: &mut Vec<Triangle>, i: usize, j: usize)
    requires
        i < old(prims)@.len(),
        j < old(prims)@.len(),
    ensures
        final(prims)@ == swap_at(old(prims)@, i as int, j as int),
{
    let a = prims[i];
    let b = prims[j];
    prims.set(i, b);
    prims.set(j, a);
}

/// Partitions `prims[s..e]` in place with two cursors so that, position by
/// position, the prefix `[s, mid)` keeps what is on the left side (see
/// `two_pointer`). `sides[k]` is the side of the primitive at `s + k`.
pub fn partition_range(prims: &mut Vec<Triangle>, sides: &Vec<u8>, s: usize, mid: usize, e: usize)
    requires
        s <= mid <= e <= old(prims)@.len(),
        sides@.len() == e - s,
    ensures
        final(prims)@ == two_pointer(old(prims)@, sides@, s as int, s as int, mid as int, e as int),
        final(prims)@.len() == old(prims)@.len(),
        final(prims)@.to_multiset() == old(prims)@.to_multiset(),
        forall|k: int|
            0 <= k < old(prims)@.len() && !(s <= k < e) ==> #[trigger] final(prims)@[k] == old(
                prims,
            )@[k],
        forall|k: int|
            0 <= k < old(prims)@.len() ==> {
                let o = #[trigger] partition_origin(
                    old(prims)@.len(),
                    sides@,
                    s as int,
                    mid as int,
                    e as int,
                )[k];
                0 <= o < old(prims)@.len() && final(prims)@[k] == old(prims)@[o]
            },
        (forall|i: int| 0 <= i < sides@.len() ==> sides@[i] == 0 || sides@[i] == 1) && count_side(
            sides@,
            s as int,
            s as int,
            e as int,
            0,
        ) == mid - s ==> forall|k: int|
            s <= k < e ==> {
                let o = #[trigger] partition_origin(
                    old(prims)@.len(),
                    sides@,
                    s as int,
                    mid as int,
                    e as int,
                )[k];
                s <= o < e && sides@[o - s] == if k < mid {
                    0u8
                } else {
                    1u8
                }
            },
{
    let ghost target = two_pointer(prims@, sides@, s as int, s as int, mid as int, e as int);
    proof {
        let n = prims@.len();
        let q0 = Seq::new(n, |k: int| k);
        lemma_two_pointer_permutes(prims@, sides@, s as int, s as int, mid as int, e as int, e as int);
        lemma_two_pointer_origin(prims@, q0, prims@, sides@, s as int, s as int, mid as int, e as int, e as int);
        if (forall|i: int| 0 <= i < sides@.len() ==> sides@[i] == 0 || sides@[i] == 1)
            && count_side(sides@, s as int, s as int, e as int, 0) == mid - s {
            lemma_count_side_total(sides@, s as int, s as int, mid as int);
            lemma_count_side_split(sides@, s as int, s as int, mid as int, e as int, 0);
            lemma_two_pointer_sorts(q0, sides@, s as int, s as int, mid as int, e as int, e as int);
        }
    }
    let mut lp: usize = s;
    let mut r: usize = e;
    while lp < mid
        invariant
            s <= lp <= mid <= e,
            r <= e,
            e <= prims@.len(),
            sides@.len() == e - s,
            two_pointer(prims@, sides@, s as int, lp as int, mid as int, r as int) == target,
        decreases mid - lp,
    {
        if sides[lp - s] != 0 {
            let ghost r0 = r;
            while r > lp + 1 && sides[r - 1 - s] == 1
                invariant
                    s <= lp < mid <= e,
                    r <= e,
                    sides@.len() == e - s,
                    skip_right(sides@, s as int, lp as int, r as int) == skip_right(
                        sides@,
                        s as int,
                        lp as int,
                        r0 as int,
                    ),
                decreases r,
            {
                r = r - 1;
            }
            if r > lp {
                swap_prims(prims, lp, r - 1);
                r = r - 1;
                lp = lp + 1;
            } else {
                lp = mid;
            }
        } else {
            lp = lp + 1;
        }
    }
    proof {
        assert(two_pointer(prims@, sides@, s as int, lp as int, mid as int, r as int) == prims@);
    }
}

} // verus!

verus! {

/// The two-pointer partition applied to a sequence of positions: started on
/// the identity, it tells for each position where its element came from.
pub open spec fn two_pointer_origin(q: Seq<int>, sides: Seq<u8>, s: int, lp: int, mid: int, r: int) -> Seq<
    int,
>
    decreases mid - lp,
{
    if lp >= mid {
        q
    } else if sides[lp - s] == 0 {
        two_pointer_origin(q, sides, s, lp + 1, mid, r)
    } else {
        let r2 = skip_right(sides, s, lp, r);
        if r2 > lp {
            two_pointer_origin(swap_at(q, lp, r2 - 1), sides, s, lp + 1, mid, r2 - 1)
        } else {
            q
        }
    }
}

/// For each position after partitioning `[s, e)` of a sequence of length
/// `n`, the position its element held before.
pub open spec fn partition_origin(n: nat, sides: Seq<u8>, s: int, mid: int, e: int) -> Seq<int> {
    two_pointer_origin(Seq::new(n, |k: int| k), sides, s, s, mid, e)
}

/// Number of positions `k` in `[a, b)` whose side `sides[k - s]` is `v`.
pub open spec fn count_side(sides: Seq<u8>, s: int, a: int, b: int, v: u8) -> int
    decreases b - a,
{
    if b <= a {
        0
    } else {
        count_side(sides, s, a, b - 1, v) + if sides[b - 1 - s] == v {
            1int
        } else {
            0int
        }
    }
}

proof fn lemma_count_side_split(sides: Seq<u8>, s: int, a: int, m: int, b: int, v: u8)
    requires
        a <= m <= b,
    ensures
        count_side(sides, s, a, b, v) == count_side(sides, s, a, m, v) + count_side(sides, s, m, b, v),
    decreases b - m,
{
    if m < b {
        lemma_count_side_split(sides, s, a, m, b - 1, v);
    }
}

proof fn lemma_count_side_total(sides: Seq<u8>, s: int, a: int, b: int)
    requires
        s <= a <= b <= s + sides.len(),
        forall|k: int| 0 <= k < sides.len() ==> sides[k] == 0 || sides[k] == 1,
    ensures
        count_side(sides, s, a, b, 0) + count_side(sides, s, a, b, 1) == b - a,
    decreases b - a,
{
    if a < b {
        lemma_count_side_total(sides, s, a, b - 1);
    }
}

proof fn lemma_count_side_bounds(sides: Seq<u8>, s: int, a: int, b: int, v: u8)
    ensures
        0 <= count_side(sides, s, a, b, v),
        a <= b ==> count_side(sides, s, a, b, v) <= b - a,
    decreases b - a,
{
    if a < b {
        lemma_count_side_bounds(sides, s, a, b - 1, v);
    }
}

/// Where the right cursor stops, it passed only right-side positions, and if
/// a position of the left side lies in `[mid, r)`, it stops above it.
proof fn lemma_skip_right_stops(sides: Seq<u8>, s: int, lp: int, mid: int, r: int, e: int)
    requires
        s <= lp < mid <= r <= e,
        sides.len() == e - s,
        forall|k: int| 0 <= k < sides.len() ==> sides[k] == 0 || sides[k] == 1,
        count_side(sides, s, mid, r, 0) >= 1,
    ensures
        mid < skip_right(sides, s, lp, r) <= r,
        sides[skip_right(sides, s, lp, r) - 1 - s] == 0,
        forall|i: int| skip_right(sides, s, lp, r) - s <= i < r - s ==> #[trigger] sides[i] == 1,
        count_side(sides, s, mid, skip_right(sides, s, lp, r), 0) == count_side(sides, s, mid, r, 0),
    decreases r - lp,
{
    if sides[r - 1 - s] == 1 {
        assert(count_side(sides, s, mid, r, 0) == count_side(sides, s, mid, r - 1, 0));
        if r - 1 <= mid {
            assert(count_side(sides, s, mid, r - 1, 0) == 0);
        }
        lemma_skip_right_stops(sides, s, lp, mid, r - 1, e);
    }
}

/// The partition takes every primitive from its origin.
proof fn lemma_two_pointer_origin(
    ps: Seq<Triangle>,
    q: Seq<int>,
    base: Seq<Triangle>,
    sides: Seq<u8>,
    s: int,
    lp: int,
    mid: int,
    r: int,
    e: int,
)
    requires
        0 <= s <= lp,
        mid <= e,
        r <= e <= ps.len(),
        sides.len() == e - s,
        q.len() == ps.len(),
        forall|k: int| 0 <= k < q.len() ==> 0 <= #[trigger] q[k] < base.len() && ps[k] == base[q[k]],
    ensures
        two_pointer_origin(q, sides, s, lp, mid, r).len() == q.len(),
        forall|k: int|
            0 <= k < q.len() ==> 0 <= #[trigger] two_pointer_origin(q, sides, s, lp, mid, r)[k]
                < base.len() && two_pointer(ps, sides, s, lp, mid, r)[k] == base[two_pointer_origin(
                q,
                sides,
                s,
                lp,
                mid,
                r,
            )[k]],
    decreases mid - lp,
{
    if lp < mid && sides[lp - s] == 0 {
        lemma_two_pointer_origin(ps, q, base, sides, s, lp + 1, mid, r, e);
        assert(two_pointer_origin(q, sides, s, lp, mid, r) == two_pointer_origin(
            q,
            sides,
            s,
            lp + 1,
            mid,
            r,
        ));
        assert(two_pointer(ps, sides, s, lp, mid, r) == two_pointer(ps, sides, s, lp + 1, mid, r));
    } else if lp < mid {
        let r2 = skip_right(sides, s, lp, r);
        if r2 > lp {
            lemma_skip_right_range(sides, s, lp, r);
            let ps2 = swap_at(ps, lp, r2 - 1);
            let q2 = swap_at(q, lp, r2 - 1);
            assert forall|k: int| 0 <= k < q2.len() implies 0 <= #[trigger] q2[k] < base.len()
                && ps2[k] == base[q2[k]] by {
                if k == lp {
                    assert(q2[k] == q[r2 - 1]);
                } else if k == r2 - 1 {
                    assert(q2[k] == q[lp]);
                } else {
                    assert(q2[k] == q[k]);
                }
            }
            lemma_two_pointer_origin(ps2, q2, base, sides, s, lp + 1, mid, r2 - 1, e);
            assert(two_pointer_origin(q, sides, s, lp, mid, r) == two_pointer_origin(
                q2,
                sides,
                s,
                lp + 1,
                mid,
                r2 - 1,
            ));
            assert(two_pointer(ps, sides, s, lp, mid, r) == two_pointer(
                ps2,
                sides,
                s,
                lp + 1,
                mid,
                r2 - 1,
            ));
        } else {
            assert(two_pointer_origin(q, sides, s, lp, mid, r) == q);
            assert(two_pointer(ps, sides, s, lp, mid, r) == ps);
        }
    } else {
        assert(two_pointer_origin(q, sides, s, lp, mid, r) == q);
        assert(two_pointer(ps, sides, s, lp, mid, r) == ps);
    }
}

/// When every position has a side and `mid - s` is the number on the left
/// side, the partition moves the left side to `[s, mid)` and the right side
/// to `[mid, e)`.
#[verifier::rlimit(40)]
proof fn lemma_two_pointer_sorts(q: Seq<int>, sides: Seq<u8>, s: int, lp: int, mid: int, r: int, e: int)
    requires
        0 <= s <= lp <= mid <= r <= e <= q.len(),
        sides.len() == e - s,
        forall|k: int| 0 <= k < sides.len() ==> sides[k] == 0 || sides[k] == 1,
        forall|k: int| lp <= k < r ==> #[trigger] q[k] == k,
        forall|k: int| s <= k < lp ==> s <= #[trigger] q[k] < e && sides[q[k] - s] == 0,
        forall|k: int| r <= k < e ==> s <= #[trigger] q[k] < e && sides[q[k] - s] == 1,
        count_side(sides, s, lp, mid, 1) == count_side(sides, s, mid, r, 0),
    ensures
        forall|k: int|
            s <= k < e ==> s <= #[trigger] two_pointer_origin(q, sides, s, lp, mid, r)[k] < e && sides[
                two_pointer_origin(q, sides, s, lp, mid, r)[k] - s] == if k < mid {
                0u8
            } else {
                1u8
            },
    decreases mid - lp,
{
    let res = two_pointer_origin(q, sides, s, lp, mid, r);
    if lp >= mid {
        assert(res == q);
        assert(count_side(sides, s, mid, r, 0) == 0);
        assert forall|k: int| mid <= k < r implies #[trigger] q[k] == k && sides[k - s] == 1 by {
            lemma_count_side_split(sides, s, mid, k, r, 0);
            lemma_count_side_split(sides, s, k, k + 1, r, 0);
            lemma_count_side_bounds(sides, s, mid, k, 0);
            lemma_count_side_bounds(sides, s, k + 1, r, 0);
            assert(count_side(sides, s, k, k + 1, 0) == count_side(sides, s, k, k, 0) + if sides[k
                - s] == 0 {
                1int
            } else {
                0int
            });
        }
    } else if sides[lp - s] == 0 {
        assert(count_side(sides, s, lp, mid, 1) == count_side(sides, s, lp + 1, mid, 1)) by {
            assert(count_side(sides, s, lp, lp, 1) == 0);
            assert(count_side(sides, s, lp, lp + 1, 1) == count_side(sides, s, lp, lp, 1) + if sides[lp
                - s] == 1 {
                1int
            } else {
                0int
            });
            lemma_count_side_split(sides, s, lp, lp + 1, mid, 1);
        }
        lemma_two_pointer_sorts(q, sides, s, lp + 1, mid, r, e);
        assert(res == two_pointer_origin(q, sides, s, lp + 1, mid, r));
    } else {
        assert(count_side(sides, s, lp, mid, 1) == 1 + count_side(sides, s, lp + 1, mid, 1)) by {
            assert(count_side(sides, s, lp, lp, 1) == 0);
            assert(count_side(sides, s, lp, lp + 1, 1) == count_side(sides, s, lp, lp, 1) + if sides[lp
                - s] == 1 {
                1int
            } else {
                0int
            });
            lemma_count_side_split(sides, s, lp, lp + 1, mid, 1);
        }
        lemma_count_side_bounds(sides, s, lp + 1, mid, 1);
        lemma_skip_right_stops(sides, s, lp, mid, r, e);
        let r2 = skip_right(sides, s, lp, r);
        lemma_skip_right_range(sides, s, lp, r);
        let q2 = swap_at(q, lp, r2 - 1);
        assert(count_side(sides, s, mid, r2, 0) == count_side(sides, s, mid, r2 - 1, 0) + 1);
        assert forall|k: int| r2 - 1 <= k < e implies s <= #[trigger] q2[k] < e && sides[q2[k] - s]
            == 1 by {
            if k == r2 - 1 {
                assert(q2[k] == q[lp]);
            } else if k < r {
                assert(q2[k] == q[k]);
            } else {
                assert(q2[k] == q[k]);
            }
        }
        assert forall|k: int| s <= k < lp + 1 implies s <= #[trigger] q2[k] < e && sides[q2[k] - s]
            == 0 by {
            if k == lp {
                assert(q2[k] == q[r2 - 1]);
            } else {
                assert(q2[k] == q[k]);
            }
        }
        assert forall|k: int| lp + 1 <= k < r2 - 1 implies #[trigger] q2[k] == k by {
            assert(q2[k] == q[k]);
        }
        lemma_two_pointer_sorts(q2, sides, s, lp + 1, mid, r2 - 1, e);
        assert(res == two_pointer_origin(q2, sides, s, lp + 1, mid, r2 - 1));
    }
}

} // verus!
