use simple_path_tracer_gl::bbox::{Bbox, Point3};
use simple_path_tracer_gl::binning::{bin_primitives, bucket_index, find_best_split, plan_split};
use simple_path_tracer_gl::bvh::{split_at, BuildError, BvhAccel, BvhNode};
use simple_path_tracer_gl::partition::{compute_sides, partition_range};
use simple_path_tracer_gl::triangle::Triangle;
use simple_path_tracer_gl::uniforms;

fn bx(min: (i32, i32, i32), max: (i32, i32, i32)) -> Bbox {
    Bbox {
        p_min: Point3::new(min.0, min.1, min.2),
        p_max: Point3::new(max.0, max.1, max.2),
    }
}

fn tri(index: u32, min: (i32, i32, i32), max: (i32, i32, i32)) -> Triangle {
    let points = [
        Point3::new(min.0, min.1, min.2),
        Point3::new(max.0, max.1, max.2),
        Point3::new(min.0, max.1, min.2),
    ];
    Triangle::new(0, index, [0, 1, 2], 0, points, 0)
}

/// Primitives spread over a small grid in all three axes.
fn scattered(count: u32) -> Vec<Triangle> {
    let mut v = Vec::new();
    for i in 0..count {
        let x = ((i * 37) % 101) as i32;
        let y = ((i * 53) % 89) as i32;
        let z = ((i * 11) % 23) as i32;
        v.push(tri(i, (x, y, z), (x + 1 + (i % 3) as i32, y + 2, z + 1)));
    }
    v
}

fn order(prims: &[Triangle]) -> Vec<u32> {
    prims.iter().map(|t| t.index).collect()
}

fn contains(outer: &Bbox, inner: &Bbox) -> bool {
    outer.p_min.x <= inner.p_min.x
        && outer.p_min.y <= inner.p_min.y
        && outer.p_min.z <= inner.p_min.z
        && inner.p_max.x <= outer.p_max.x
        && inner.p_max.y <= outer.p_max.y
        && inner.p_max.z <= outer.p_max.z
}

fn check_tree(bvh: &BvhAccel, prims: &[Triangle], max_leaf: usize) {
    let nodes: &Vec<BvhNode> = &bvh.nodes;
    assert_eq!(nodes[0].start, 0);
    assert_eq!(nodes[0].end, prims.len());
    let mut parents = vec![0usize; nodes.len()];
    for (i, n) in nodes.iter().enumerate() {
        for k in n.start..n.end {
            assert!(contains(&n.bbox, &prims[k].bbox));
        }
        match (n.lc, n.rc) {
            (Some(l), Some(r)) => {
                assert_eq!(r, l + 1);
                assert!(i < l && r < nodes.len());
                assert_eq!(nodes[l].start, n.start);
                assert_eq!(nodes[l].end, nodes[r].start);
                assert_eq!(nodes[r].end, n.end);
                assert!(nodes[l].start < nodes[l].end && nodes[r].start < nodes[r].end);
                parents[l] += 1;
                parents[r] += 1;
            }
            (None, None) => {
                let size = n.end - n.start;
                assert!(size >= 1);
                let sub = prims.to_vec();
                let (_, _, count) = plan_split(&sub, n.start, n.end, n.bbox, 16);
                assert!(size <= max_leaf || count == 0 || count == size);
            }
            _ => panic!("a node with one child"),
        }
    }
    assert_eq!(parents[0], 0);
    for p in parents.iter().skip(1) {
        assert_eq!(*p, 1);
    }
}

#[test]
fn single_primitive_is_a_leaf_root() {
    let mut prims = vec![tri(0, (0, 0, 0), (1, 1, 1))];
    let bvh = BvhAccel::new(&mut prims, 4, 16).unwrap();
    assert_eq!(bvh.node_count(), 1);
    assert_eq!(bvh.nodes[0].start, 0);
    assert_eq!(bvh.nodes[0].end, 1);
    assert!(bvh.nodes[0].lc.is_none());
    assert!(bvh.nodes[0].rc.is_none());
    assert_eq!(bvh.nodes[0].bbox, bx((0, 0, 0), (1, 1, 1)));
}

#[test]
fn primitives_along_x_split_on_x() {
    let mut prims = Vec::new();
    for i in 0..5u32 {
        let x = 10 * i as i32;
        prims.push(tri(i, (x, 0, 0), (x + 1, 0, 0)));
    }
    let (axis, split, count) = plan_split(&prims, 0, 5, bx((0, 0, 0), (41, 0, 0)), 4);
    assert_eq!((axis, split, count), (0, 1, 1));
    let bvh = BvhAccel::new(&mut prims, 2, 4).unwrap();
    let nodes = &bvh.nodes;
    assert_eq!(nodes.len(), 7);
    assert_eq!((nodes[0].lc, nodes[0].rc), (Some(1), Some(2)));
    assert_eq!((nodes[1].start, nodes[1].end), (0, 1));
    assert_eq!((nodes[2].start, nodes[2].end), (1, 5));
    assert_eq!((nodes[2].lc, nodes[2].rc), (Some(3), Some(4)));
    assert_eq!((nodes[4].lc, nodes[4].rc), (Some(5), Some(6)));
    assert_eq!((nodes[6].start, nodes[6].end), (3, 5));
    for n in nodes.iter() {
        if n.lc.is_none() {
            assert!(n.end - n.start <= 2);
        }
    }
    assert_eq!(order(&prims), vec![0, 1, 2, 3, 4]);
}

#[test]
fn empty_input_yields_no_tree() {
    let mut prims: Vec<Triangle> = Vec::new();
    let bvh = BvhAccel::new(&mut prims, 4, 16).unwrap();
    assert_eq!(bvh.node_count(), 0);
    let marker = uniforms::BvhNode::new(7, 7, 7, 7, Bbox::empty());
    let mut table = vec![marker; 4];
    bvh.fill_in_uniform(&mut table);
    assert!(table.iter().all(|e| *e == marker));
}

#[test]
fn bucket_number_below_two_is_rejected() {
    let mut prims = scattered(10);
    let before = order(&prims);
    assert_eq!(BvhAccel::new(&mut prims, 4, 1).err(), Some(BuildError::BucketNumber));
    assert_eq!(BvhAccel::new(&mut prims, 4, 0).err(), Some(BuildError::BucketNumber));
    assert_eq!(order(&prims), before);
}

#[test]
fn zero_leaf_size_is_rejected() {
    let mut prims = scattered(10);
    assert_eq!(BvhAccel::new(&mut prims, 0, 16).err(), Some(BuildError::LeafSize));
}

#[test]
fn build_keeps_primitives_and_invariants() {
    let mut prims = scattered(200);
    let bvh = BvhAccel::new(&mut prims, 4, 16).unwrap();
    let mut ids = order(&prims);
    ids.sort();
    assert_eq!(ids, (0..200).collect::<Vec<u32>>());
    assert!(bvh.node_count() <= 2 * 200 - 1);
    assert!(bvh.node_count() > 1);
    check_tree(&bvh, &prims, 4);
}

#[test]
fn build_is_deterministic() {
    let mut a = scattered(150);
    let mut b = scattered(150);
    let ta = BvhAccel::new(&mut a, 3, 8).unwrap();
    let tb = BvhAccel::new(&mut b, 3, 8).unwrap();
    assert_eq!(order(&a), order(&b));
    assert_eq!(ta.node_count(), tb.node_count());
    for (x, y) in ta.nodes.iter().zip(tb.nodes.iter()) {
        assert_eq!((x.lc, x.rc, x.start, x.end, x.bbox), (y.lc, y.rc, y.start, y.end, y.bbox));
    }
    let blank = uniforms::BvhNode::new(0, 0, 0, 0, Bbox::empty());
    let mut fa = vec![blank; 512];
    let mut fb = vec![blank; 512];
    ta.fill_in_uniform(&mut fa);
    tb.fill_in_uniform(&mut fb);
    assert_eq!(fa, fb);
}

#[test]
fn identical_primitives_stay_in_one_leaf() {
    let mut prims = Vec::new();
    for i in 0..9u32 {
        prims.push(tri(i, (5, 5, 5), (6, 6, 6)));
    }
    let bvh = BvhAccel::new(&mut prims, 2, 16).unwrap();
    assert_eq!(bvh.node_count(), 1);
    assert_eq!((bvh.nodes[0].start, bvh.nodes[0].end), (0, 9));
}

#[test]
fn flatten_writes_entries_by_id() {
    let mut prims = scattered(40);
    let bvh = BvhAccel::new(&mut prims, 4, 16).unwrap();
    let marker = uniforms::BvhNode::new(9, 9, 9, 9, Bbox::empty());
    let mut table = vec![marker; bvh.node_count() + 3];
    bvh.fill_in_uniform(&mut table);
    for (i, n) in bvh.nodes.iter().enumerate() {
        let e = table[i];
        match n.lc {
            Some(l) => {
                assert_eq!(e.lc_ind, l as i32);
                assert_eq!(e.rc_ind, n.rc.unwrap() as i32);
            }
            None => {
                assert_eq!(e.lc_ind, -1);
                assert_eq!(e.rc_ind, -1);
            }
        }
        assert_eq!((e.prim_start, e.prim_end), (n.start as i32, n.end as i32));
        assert_eq!(e.bbox, n.bbox);
    }
    for e in table.iter().skip(bvh.node_count()) {
        assert_eq!(*e, marker);
    }
}

#[test]
fn bucket_of_centroid() {
    let node = bx((0, 0, 0), (10, 10, 10));
    assert_eq!(bucket_index(bx((0, 0, 0), (1, 1, 1)), node, 0, 4), Some(0));
    assert_eq!(bucket_index(bx((4, 0, 0), (6, 1, 1)), node, 0, 4), Some(2));
    assert_eq!(bucket_index(bx((9, 0, 0), (10, 1, 1)), node, 0, 4), Some(3));
    assert_eq!(bucket_index(bx((0, 0, 0), (1, 1, 1)), bx((0, 0, 0), (10, 0, 10)), 1, 4), None);
}

#[test]
fn centroid_on_upper_boundary_gets_no_bucket() {
    let node = bx((0, 0, 0), (10, 10, 10));
    assert_eq!(bucket_index(bx((10, 3, 3), (10, 4, 4)), node, 0, 4), None);
    let mut prims = vec![
        tri(0, (0, 0, 0), (1, 1, 1)),
        tri(1, (2, 0, 0), (3, 1, 1)),
        tri(2, (10, 0, 0), (10, 1, 1)),
    ];
    let (axis, split, count) = plan_split(&prims, 0, 3, bx((0, 0, 0), (10, 1, 1)), 2);
    assert_eq!(axis, 0);
    assert_eq!(split, 1);
    assert_eq!(count, 2);
    let bvh = BvhAccel::new(&mut prims, 1, 2).unwrap();
    assert_eq!((bvh.nodes[1].start, bvh.nodes[1].end), (0, 2));
    assert_eq!((bvh.nodes[2].start, bvh.nodes[2].end), (2, 3));
}

#[test]
fn best_split_exact_cost() {
    let boxes = vec![bx((0, 0, 0), (1, 1, 1)), bx((2, 0, 0), (3, 1, 1))];
    let counts = vec![1usize, 1];
    assert_eq!(find_best_split(&boxes, &counts, 2, 2), (2, 1));
    let boxes = vec![
        bx((0, 0, 0), (2, 2, 2)),
        Bbox::empty(),
        bx((6, 0, 0), (8, 2, 2)),
        bx((7, 0, 0), (8, 2, 2)),
    ];
    let counts = vec![2usize, 0, 1, 1];
    // boundaries 1 and 2: 8 * 2 + 8 * 2 = 32; boundary 3: 32 * 3 + 4 * 1 = 100
    assert_eq!(find_best_split(&boxes, &counts, 4, 4), (32, 1));
}

#[test]
fn best_split_ties_go_to_first_boundary() {
    let boxes = vec![Bbox::empty(), Bbox::empty(), Bbox::empty()];
    let counts = vec![0usize, 0, 0];
    assert_eq!(find_best_split(&boxes, &counts, 0, 3), (0, 1));
}

#[test]
fn two_pointer_partition_swaps() {
    let mut prims = vec![
        tri(0, (0, 0, 0), (1, 1, 1)),
        tri(1, (0, 0, 0), (1, 1, 1)),
        tri(2, (0, 0, 0), (1, 1, 1)),
        tri(3, (0, 0, 0), (1, 1, 1)),
    ];
    partition_range(&mut prims, &vec![1u8, 0, 1, 0], 0, 2, 4);
    assert_eq!(order(&prims), vec![3, 1, 2, 0]);
}

#[test]
fn triangle_box_from_points() {
    let t = Triangle::new(
        2,
        5,
        [3, 4, 5],
        1,
        [Point3::new(1, 9, 0), Point3::new(-2, 3, 4), Point3::new(0, 0, 8)],
        6,
    );
    assert_eq!(t.bbox(), bx((-2, 0, 0), (1, 9, 8)));
    assert_eq!((t.mesh_index, t.index, t.material, t.trans_index), (2, 5, 1, 6));
}

#[test]
fn flatten_twice_is_flatten_once() {
    let mut prims = scattered(60);
    let bvh = BvhAccel::new(&mut prims, 2, 8).unwrap();
    let blank = uniforms::BvhNode::new(0, 0, 0, 0, Bbox::empty());
    let mut once = vec![blank; 200];
    bvh.fill_in_uniform(&mut once);
    let mut twice = once.clone();
    bvh.fill_in_uniform(&mut twice);
    assert_eq!(once, twice);
}

#[test]
fn binning_counts_and_boxes() {
    let prims = vec![
        tri(0, (0, 0, 0), (2, 1, 1)),
        tri(1, (1, 0, 0), (3, 1, 1)),
        tri(2, (7, 0, 0), (8, 1, 1)),
        tri(3, (8, 2, 2), (8, 3, 3)),
    ];
    let node = bx((0, 0, 0), (8, 3, 3));
    let (boxes, counts) = bin_primitives(&prims, 0, 4, node, 0, 2);
    assert_eq!(counts, vec![2, 1]);
    assert_eq!(boxes[0], bx((0, 0, 0), (3, 1, 1)));
    assert_eq!(boxes[1], bx((7, 0, 0), (8, 1, 1)));
    let sides = compute_sides(&prims, 0, 4, node, 0, 2, 1);
    assert_eq!(sides, vec![0, 0, 1, 2]);
}

#[test]
fn split_at_partitions_and_merges() {
    let mut prims = vec![
        tri(0, (8, 0, 0), (9, 1, 1)),
        tri(1, (0, 0, 0), (1, 1, 1)),
        tri(2, (9, 0, 0), (10, 1, 1)),
        tri(3, (1, 0, 0), (2, 1, 1)),
    ];
    let node = bx((0, 0, 0), (10, 1, 1));
    let (left, right) = split_at(&mut prims, node, 0, 1, 2, 0, 2, 4);
    assert_eq!(order(&prims), vec![3, 1, 2, 0]);
    assert_eq!(left, bx((0, 0, 0), (2, 1, 1)));
    assert_eq!(right, bx((8, 0, 0), (10, 1, 1)));
}
