use fraud_api::index::{encode_index, Index};
use fraud_api::knn::FraudScore;
use fraud_api::vptree::{build_vp_tree, Point};
use fraud_api::{DIMS, NULL_NODE};

fn bits(vals: &[f32; DIMS]) -> [u32; DIMS] {
    let mut v = [0u32; DIMS];
    for k in 0..DIMS {
        v[k] = vals[k].to_bits();
    }
    v
}

fn sq_dist_key(a: &[u32; DIMS], b: &[u32; DIMS]) -> u32 {
    let mut s = 0.0f32;
    for i in 0..DIMS {
        let d = f32::from_bits(a[i]) - f32::from_bits(b[i]);
        s += d * d;
    }
    s.to_bits()
}

fn never_prune(_: u32, _: u32, _: u32) -> bool {
    true
}

fn triangle_prune(d: u32, t: u32, w: u32) -> bool {
    let gap = f32::from_bits(t).sqrt() - f32::from_bits(d).sqrt();
    gap * gap < f32::from_bits(w)
}

/// Deterministic pseudo-random points in the unit cube.
fn cloud(n: usize, seed: u64) -> Vec<([f32; DIMS], u8)> {
    let mut r = seed;
    let mut next = || {
        r = r.wrapping_mul(6364136223846793005).wrapping_add(1442695040888963407);
        ((r >> 40) as f32) / ((1u64 << 24) as f32)
    };
    (0..n)
        .map(|_| {
            let mut v = [0.0f32; DIMS];
            for x in v.iter_mut() {
                *x = next();
            }
            let label = if next() < 0.3 { 1 } else { 0 };
            (v, label)
        })
        .collect()
}

fn index_of(data: &[([f32; DIMS], u8)]) -> Index {
    let points: Vec<Point> =
        data.iter().map(|(v, l)| Point { v: bits(v), label: *l, _pad: [0; 3] }).collect();
    let tree = build_vp_tree(points, &sq_dist_key);
    let idx = Index::load(&encode_index(&tree));
    assert!(idx.is_in_search_order());
    idx
}

/// The fraud share among the five nearest by exhaustive search (ties by
/// position).
fn brute_force(data: &[([f32; DIMS], u8)], q: &[f32; DIMS]) -> FraudScore {
    let qb = bits(q);
    let mut d: Vec<(u32, u8)> = data.iter().map(|(v, l)| (sq_dist_key(&qb, &bits(v)), *l)).collect();
    d.sort_by_key(|e| e.0);
    let k = d.len().min(5);
    if k == 0 {
        return FraudScore { num: 1, den: 2 };
    }
    FraudScore { num: d[..k].iter().filter(|e| e.1 == 1).count(), den: k }
}

#[test]
fn search_without_pruning_is_exhaustive() {
    let data = cloud(200, 7);
    let idx = index_of(&data);
    for (q, _) in cloud(30, 99) {
        assert_eq!(idx.knn5_fraud_score(&bits(&q), &sq_dist_key, &never_prune), brute_force(&data, &q));
    }
}

#[test]
fn search_with_triangle_pruning_finds_the_nearest() {
    let data = cloud(300, 11);
    let idx = index_of(&data);
    for (q, _) in cloud(40, 5) {
        assert_eq!(
            idx.knn5_fraud_score(&bits(&q), &sq_dist_key, &triangle_prune),
            brute_force(&data, &q)
        );
    }
}

#[test]
fn empty_index_scores_one_half() {
    let idx = index_of(&[]);
    let q = [0.0f32; DIMS];
    assert_eq!(idx.knn5_fraud_score(&bits(&q), &sq_dist_key, &never_prune), FraudScore { num: 1, den: 2 });
}

#[test]
fn small_index_scores_by_its_size() {
    let data = cloud(3, 1);
    let idx = index_of(&data);
    let q = [0.5f32; DIMS];
    let fs = idx.knn5_fraud_score(&bits(&q), &sq_dist_key, &triangle_prune);
    assert_eq!(fs.den, 3);
    assert_eq!(fs, brute_force(&data, &q));
}

#[test]
fn malformed_index_is_detected() {
    let data = cloud(4, 3);
    let points: Vec<Point> =
        data.iter().map(|(v, l)| Point { v: bits(v), label: *l, _pad: [0; 3] }).collect();
    let tree = build_vp_tree(points, &sq_dist_key);
    let mut bytes = encode_index(&tree);
    // make node 0 point to itself as left child
    let node0 = 12 + 60 * 4;
    bytes[node0 + 8..node0 + 12].copy_from_slice(&0u32.to_le_bytes());
    assert!(!Index::load(&bytes).is_in_search_order());
    // a vantage point outside the points
    let mut bytes2 = encode_index(&tree);
    bytes2[node0..node0 + 4].copy_from_slice(&9u32.to_le_bytes());
    assert!(!Index::load(&bytes2).is_in_search_order());
    // a root outside the nodes
    let mut bytes3 = encode_index(&tree);
    bytes3[8..12].copy_from_slice(&7u32.to_le_bytes());
    assert!(!Index::load(&bytes3).is_in_search_order());
    let mut bytes4 = encode_index(&tree);
    bytes4[8..12].copy_from_slice(&NULL_NODE.to_le_bytes());
    assert!(Index::load(&bytes4).is_in_search_order());
}

fn points_below(nodes: &[fraud_api::vptree::VpNode], c: u32, out: &mut Vec<u32>) {
    if c != NULL_NODE {
        let nd = nodes[c as usize];
        out.push(nd.vp_idx);
        points_below(nodes, nd.left, out);
        points_below(nodes, nd.right, out);
    }
}

#[test]
fn built_index_splits_by_distance() {
    let data = cloud(120, 3);
    let idx = index_of(&data);
    let nodes = idx.nodes();
    let points = idx.points();
    assert_eq!(nodes.len(), 120);
    for nd in nodes.iter() {
        let vp = &points[nd.vp_idx as usize];
        let mut left = Vec::new();
        points_below(nodes, nd.left, &mut left);
        let mut right = Vec::new();
        points_below(nodes, nd.right, &mut right);
        for p in left {
            assert!(sq_dist_key(vp, &points[p as usize]) <= nd.thresh_sq);
        }
        for p in right {
            assert!(sq_dist_key(vp, &points[p as usize]) >= nd.thresh_sq);
        }
        // the threshold is the median: the key of the right child's point
        if nd.right != NULL_NODE {
            let first_far = nodes[nd.right as usize].vp_idx;
            assert_eq!(sq_dist_key(vp, &points[first_far as usize]), nd.thresh_sq);
        }
    }
}

#[test]
fn loaded_counts_match_the_header() {
    let data = cloud(9, 21);
    let idx = index_of(&data);
    assert_eq!(idx.n_points(), 9);
    assert_eq!(idx.n_nodes(), 9);
    assert_eq!(idx.n_points, idx.n_points());
    assert_eq!(idx.n_nodes, idx.n_nodes());
}
