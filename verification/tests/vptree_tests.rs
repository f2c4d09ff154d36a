use fraud_api::index::{encode_index, Index};
use fraud_api::vptree::{build_vp_tree, Point, VpNode, VpTree};
use fraud_api::{DIMS, NULL_NODE};

fn point(vals: [f32; DIMS], label: u8) -> Point {
    let mut v = [0u32; DIMS];
    for k in 0..DIMS {
        v[k] = vals[k].to_bits();
    }
    Point { v, label, _pad: [0; 3] }
}

fn sq_dist_key(a: &[u32; DIMS], b: &[u32; DIMS]) -> u32 {
    let mut s = 0.0f32;
    for i in 0..DIMS {
        let d = f32::from_bits(a[i]) - f32::from_bits(b[i]);
        s += d * d;
    }
    s.to_bits()
}

fn line_points(n: usize) -> Vec<Point> {
    (0..n)
        .map(|i| {
            let mut vals = [0.0f32; DIMS];
            vals[0] = i as f32;
            vals[1] = (i % 3) as f32 * 0.5;
            point(vals, (i % 2) as u8)
        })
        .collect()
}

fn subtree_points(nodes: &[VpNode], k: u32, out: &mut Vec<u32>) {
    if k == NULL_NODE {
        return;
    }
    let n = nodes[k as usize];
    out.push(n.vp_idx);
    subtree_points(nodes, n.left, out);
    subtree_points(nodes, n.right, out);
}

fn check_tree(tree: &VpTree) {
    let n = tree.points.len();
    assert_eq!(tree.nodes.len(), n);
    if n == 0 {
        assert_eq!(tree.root, NULL_NODE);
        return;
    }
    assert_eq!(tree.root, 0);
    let mut all = Vec::new();
    subtree_points(&tree.nodes, tree.root, &mut all);
    all.sort();
    assert_eq!(all, (0..n as u32).collect::<Vec<_>>());
    for (j, nd) in tree.nodes.iter().enumerate() {
        assert!(nd.left == NULL_NODE || (nd.left as usize > j && (nd.left as usize) < n));
        assert!(nd.right == NULL_NODE || (nd.right as usize > j && (nd.right as usize) < n));
        let vp = &tree.points[nd.vp_idx as usize].v;
        let mut l = Vec::new();
        let mut r = Vec::new();
        subtree_points(&tree.nodes, nd.left, &mut l);
        subtree_points(&tree.nodes, nd.right, &mut r);
        for p in &l {
            assert!(sq_dist_key(vp, &tree.points[*p as usize].v) <= nd.thresh_sq);
        }
        for p in &r {
            assert!(sq_dist_key(vp, &tree.points[*p as usize].v) >= nd.thresh_sq);
        }
        assert_eq!(l.len(), (l.len() + r.len()) / 2);
        if l.is_empty() && r.is_empty() {
            assert_eq!(nd.thresh_sq, 0);
        }
    }
}

#[test]
fn empty_tree_has_no_root() {
    let tree = build_vp_tree(Vec::new(), &sq_dist_key);
    assert_eq!(tree.root, NULL_NODE);
    assert!(tree.nodes.is_empty());
}

#[test]
fn single_point_is_a_leaf() {
    let tree = build_vp_tree(line_points(1), &sq_dist_key);
    assert_eq!(tree.root, 0);
    assert_eq!(
        tree.nodes,
        vec![VpNode { vp_idx: 0, thresh_sq: 0, left: NULL_NODE, right: NULL_NODE }]
    );
}

#[test]
fn two_points_put_the_other_right() {
    let tree = build_vp_tree(line_points(2), &sq_dist_key);
    check_tree(&tree);
    assert_eq!(tree.nodes[0].left, NULL_NODE);
    assert_eq!(tree.nodes[0].right, 1);
    // the threshold is the distance between the two points
    assert_eq!(tree.nodes[0].thresh_sq, sq_dist_key(&tree.points[0].v, &tree.points[1].v));
}

#[test]
fn trees_of_many_sizes_are_vantage_point_trees() {
    for n in 0..40 {
        check_tree(&build_vp_tree(line_points(n), &sq_dist_key));
    }
}

#[test]
fn build_is_deterministic() {
    let a = build_vp_tree(line_points(25), &sq_dist_key);
    let b = build_vp_tree(line_points(25), &sq_dist_key);
    assert_eq!(a.nodes, b.nodes);
    assert_eq!(a.root, b.root);
}

#[test]
fn index_round_trip() {
    let tree = build_vp_tree(line_points(9), &sq_dist_key);
    let bytes = encode_index(&tree);
    assert_eq!(bytes.len(), 12 + 60 * 9 + 16 * 9);
    assert!(Index::layout_complete(&bytes));
    let idx = Index::load(&bytes);
    assert_eq!(idx.n_points, 9);
    assert_eq!(idx.n_nodes, 9);
    assert_eq!(idx.root(), tree.root);
    assert_eq!(idx.nodes(), &tree.nodes);
    for i in 0..9 {
        assert_eq!(idx.points()[i], tree.points[i].v);
        assert_eq!(idx.labels()[i], tree.points[i].label);
    }
}

#[test]
fn index_header_is_little_endian() {
    let tree = build_vp_tree(line_points(3), &sq_dist_key);
    let bytes = encode_index(&tree);
    assert_eq!(&bytes[0..12], &[3, 0, 0, 0, 3, 0, 0, 0, 0, 0, 0, 0]);
    // the first feature of the first point is written little-endian
    let f = tree.points[0].v[0].to_le_bytes();
    assert_eq!(&bytes[12..16], &f);
    // label and padding
    assert_eq!(bytes[12 + 56], tree.points[0].label);
    assert_eq!(&bytes[12 + 57..12 + 60], &[0, 0, 0]);
}

#[test]
fn truncated_index_is_incomplete() {
    let tree = build_vp_tree(line_points(4), &sq_dist_key);
    let bytes = encode_index(&tree);
    assert!(!Index::layout_complete(&bytes[..bytes.len() - 1]));
    assert!(!Index::layout_complete(&bytes[..11]));
    // without nodes, the padding of the last point may be missing
    let mut no_nodes = bytes[..12 + 60 * 4].to_vec();
    no_nodes[4] = 0;
    assert!(Index::layout_complete(&no_nodes[..12 + 60 * 4 - 3]));
    assert!(!Index::layout_complete(&no_nodes[..12 + 60 * 4 - 4]));
}

#[test]
fn load_reads_hand_written_index() {
    let mut b: Vec<u8> = Vec::new();
    b.extend_from_slice(&1u32.to_le_bytes());
    b.extend_from_slice(&1u32.to_le_bytes());
    b.extend_from_slice(&0u32.to_le_bytes());
    for k in 0..14u32 {
        b.extend_from_slice(&(k as f32).to_le_bytes());
    }
    b.extend_from_slice(&[1, 0, 0, 0]);
    b.extend_from_slice(&0u32.to_le_bytes());
    b.extend_from_slice(&2.5f32.to_le_bytes());
    b.extend_from_slice(&u32::MAX.to_le_bytes());
    b.extend_from_slice(&u32::MAX.to_le_bytes());
    let idx = Index::load(&b);
    assert_eq!(idx.n_points, 1);
    assert_eq!(idx.labels()[0], 1);
    assert_eq!(f32::from_bits(idx.points()[0][13]), 13.0);
    assert_eq!(
        idx.nodes()[0],
        VpNode { vp_idx: 0, thresh_sq: 2.5f32.to_bits(), left: NULL_NODE, right: NULL_NODE }
    );
}
