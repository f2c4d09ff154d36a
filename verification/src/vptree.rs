//! Vantage-point tree over reference transactions.
//!
//! Every node names a vantage point and a threshold key. The points of the
//! left subtree lie within the threshold of the vantage point, those of the
//! right subtree at or beyond it. Distances are keys as in `knn`: the bit
//! patterns of non-negative squared distances, computed by the caller's
//! distance function. The median split orders them as unsigned integers,
//! which is their order as numbers; a NaN key orders above every other.
use vstd::prelude::*;
use vstd::multiset::Multiset;
use crate::{DIMS, NULL_NODE};
use crate::multiset_facts::{lemma_map_values_multiset, lemma_split_multiset};
use crate::vp_shape::{left_size, range_end, lemma_range_end_bounds, lemma_range_end_children, lemma_range_end_nested};

verus! {

/// A reference transaction: its feature vector (each feature as the bit
/// pattern of its value) and its label.
#[derive(Clone, Copy)]
pub struct Point {
    pub v: [u32; DIMS],
    pub label: u8,
    pub _pad: [u8; 3],
}

/// A tree node: the vantage point's index, the threshold key and the two
/// children (`NULL_NODE` where absent).
#[derive(Clone, Copy, Debug, PartialEq, Eq)]
pub struct VpNode {
    pub vp_idx: u32,
    pub thresh_sq: u32,
    pub left: u32,
    pub right: u32,
}

/// The points, the nodes, and the index of the root node (`NULL_NODE` for no
/// points).
pub struct VpTree {
    pub points: Vec<Point>,
    pub nodes: Vec<VpNode>,
    pub root: u32,
}

/// Child `c` of node `j` is absent, or a later node below `hi`.
pub open spec fn child_in(c: u32, j: int, hi: int) -> bool {
    c == NULL_NODE || (j < c < hi)
}

/// The nodes in `[lo, hi)` only point to later nodes below `hi`.
pub open spec fn closed(nodes: Seq<VpNode>, lo: int, hi: int) -> bool {
    forall|j: int|
        #![trigger nodes[j]]
        lo <= j < hi ==> child_in(nodes[j].left, j, hi) && child_in(nodes[j].right, j, hi)
}

/// Multiset of the vantage points of the subtree rooted at node `k`.
pub open spec fn subtree(nodes: Seq<VpNode>, k: int) -> Multiset<u32>
    decreases nodes.len() - k,
{
    if 0 <= k < nodes.len() {
        let n = nodes[k];
        let l = if n.left != NULL_NODE && k < n.left < nodes.len() {
            subtree(nodes, n.left as int)
        } else {
            Multiset::empty()
        };
        let r = if n.right != NULL_NODE && k < n.right < nodes.len() {
            subtree(nodes, n.right as int)
        } else {
            Multiset::empty()
        };
        Multiset::singleton(n.vp_idx).add(l).add(r)
    } else {
        Multiset::empty()
    }
}

/// Multiset of the points of the subtree under child `c` of node `k`.
pub open spec fn child_subtree(nodes: Seq<VpNode>, k: int, c: u32) -> Multiset<u32> {
    if c != NULL_NODE && k < c < nodes.len() {
        subtree(nodes, c as int)
    } else {
        Multiset::empty()
    }
}

/// For each point in `m` the distance function gave a key from `vp` within
/// `thresh`.
pub open spec fn near_side<F: Fn(&[u32; DIMS], &[u32; DIMS]) -> u32>(
    points: Seq<Point>,
    dist: F,
    vp: [u32; DIMS],
    m: Multiset<u32>,
    thresh: u32,
) -> bool {
    forall|p: u32|
        #![trigger m.count(p)]
        m.count(p) > 0 ==> exists|d: u32|
            call_ensures(dist, (&vp, &points[p as int].v), d) && d <= thresh
}

/// For each point in `m` the distance function gave a key from `vp` at or
/// beyond `thresh`.
pub open spec fn far_side<F: Fn(&[u32; DIMS], &[u32; DIMS]) -> u32>(
    points: Seq<Point>,
    dist: F,
    vp: [u32; DIMS],
    m: Multiset<u32>,
    thresh: u32,
) -> bool {
    forall|p: u32|
        #![trigger m.count(p)]
        m.count(p) > 0 ==> exists|d: u32|
            call_ensures(dist, (&vp, &points[p as int].v), d) && d >= thresh
}

/// Node `k` splits its points as a vantage-point node: for each point of the
/// left subtree the distance function gave a key within the threshold, for
/// each point of the right subtree a key at or beyond it; the left subtree
/// holds half of the points below the node, rounded down; a node with no
/// points below has threshold 0; children are numbered in depth-first order
/// (the left child right after the node, the right child after the left
/// subtree), and a child is absent exactly when its subtree is empty; the
/// threshold is the distance key the function gave for the right child's
/// vantage point, the median of the others.
pub open spec fn split_ok<F: Fn(&[u32; DIMS], &[u32; DIMS]) -> u32>(
    nodes: Seq<VpNode>,
    points: Seq<Point>,
    dist: F,
    k: int,
) -> bool {
    let n = nodes[k];
    let vp = points[n.vp_idx as int].v;
    let l = child_subtree(nodes, k, n.left);
    let r = child_subtree(nodes, k, n.right);
    &&& near_side(points, dist, vp, l, n.thresh_sq)
    &&& far_side(points, dist, vp, r, n.thresh_sq)
    &&& l.len() == (l.len() + r.len()) / 2
    &&& l.len() + r.len() == 0 ==> n.thresh_sq == 0
    &&& (n.left == NULL_NODE) == (l.len() == 0)
    &&& (n.right == NULL_NODE) == (r.len() == 0)
    &&& n.left != NULL_NODE ==> n.left == k + 1
    &&& n.right != NULL_NODE ==> n.right == k + 1 + l.len()
    &&& n.right != NULL_NODE ==> call_ensures(
        dist,
        (&vp, &points[nodes[n.right as int].vp_idx as int].v),
        n.thresh_sq,
    )
}

/// The nodes in `[lo, hi)` form vantage-point subtrees over points of
/// `points`.
pub open spec fn tree_ok<F: Fn(&[u32; DIMS], &[u32; DIMS]) -> u32>(
    nodes: Seq<VpNode>,
    points: Seq<Point>,
    dist: F,
    lo: int,
    hi: int,
) -> bool {
    &&& closed(nodes, lo, hi)
    &&& forall|j: int|
        lo <= j < hi ==> (#[trigger] nodes[j]).vp_idx < points.len() && split_ok(
            nodes,
            points,
            dist,
            j,
        )
}

/// The points of one side of a split: each came with a distance key within
/// (`below`) or at or beyond the threshold.
proof fn lemma_split_side<F: Fn(&[u32; DIMS], &[u32; DIMS]) -> u32>(
    points: Seq<Point>,
    dist: F,
    vp: [u32; DIMS],
    m: Multiset<u32>,
    part: Seq<(u32, u32)>,
    thresh: u32,
    below: bool,
)
    requires
        m == part.map_values(|e: (u32, u32)| e.1).to_multiset(),
        forall|i: int|
            0 <= i < part.len() ==> call_ensures(
                dist,
                (&vp, &points[(#[trigger] part[i]).1 as int].v),
                part[i].0,
            ),
        forall|i: int| 0 <= i < part.len() ==> below ==> (#[trigger] part[i]).0 <= thresh,
        forall|i: int| 0 <= i < part.len() ==> !below ==> (#[trigger] part[i]).0 >= thresh,
    ensures
        below ==> near_side(points, dist, vp, m, thresh),
        !below ==> far_side(points, dist, vp, m, thresh),
{
    broadcast use vstd::seq_lib::group_to_multiset_ensures;

    let s = part.map_values(|e: (u32, u32)| e.1);
    assert forall|p: u32| m.count(p) > 0 implies exists|d: u32|
        call_ensures(dist, (&vp, &points[p as int].v), d) && (if below {
            d <= thresh
        } else {
            d >= thresh
        }) by {
        assert(s.contains(p));
        let i = choose|i: int| 0 <= i < s.len() && s[i] == p;
        assert(part[i].1 == p);
        let d = part[i].0;
        assert(call_ensures(dist, (&vp, &points[part[i].1 as int].v), d));
    }
}

/// Reorders `v` so that the element at `index` is the one that would stand
/// there if `v` were sorted by key: the ones before it have keys at most its
/// key, the ones after it at least.
///
/// Trusted: calls `slice::select_nth_unstable_by_key` with the first field as
/// key. Its documentation states the reordering and the two bounds; which
/// elements of equal key land on which side is left unsaid there and here.
/// It panics when `index` is not below the length.
#[verifier::external_body]
fn select_nth_by_key(v: &mut Vec<(u32, u32)>, index: usize)
    requires
        index < old(v)@.len(),
    ensures
        final(v)@.len() == old(v)@.len(),
        final(v)@.to_multiset() == old(v)@.to_multiset(),
        forall|i: int| 0 <= i < index ==> #[trigger] final(v)@[i].0 <= final(v)@[index as int].0,
        forall|i: int|
            index < i < final(v)@.len() ==> #[trigger] final(v)@[i].0 >= final(v)@[index as int].0,
{
    v.select_nth_unstable_by_key(index, |e| e.0);
}

/// Makes `child` the left or right child of node `parent_slot`; nothing when
/// the parent is `NULL_NODE` (the root has no parent).
fn set_parent(nodes: &mut Vec<VpNode>, parent_slot: u32, is_left: bool, child: u32)
    requires
        parent_slot == NULL_NODE || parent_slot < old(nodes)@.len(),
    ensures
        parent_slot == NULL_NODE ==> final(nodes)@ == old(nodes)@,
        parent_slot != NULL_NODE ==> final(nodes)@ == old(nodes)@.update(
            parent_slot as int,
            if is_left {
                VpNode { left: child, ..old(nodes)@[parent_slot as int] }
            } else {
                VpNode { right: child, ..old(nodes)@[parent_slot as int] }
            },
        ),
{
    if parent_slot == NULL_NODE {
        return ;
    }
    let mut nd = nodes[parent_slot as usize];
    if is_left {
        nd.left = child;
    } else {
        nd.right = child;
    }
    nodes.set(parent_slot as usize, nd);
}

/// The distance function can be called on any two feature vectors.
pub open spec fn dist_callable<F: Fn(&[u32; DIMS], &[u32; DIMS]) -> u32>(dist: F) -> bool {
    forall|a: &[u32; DIMS], b: &[u32; DIMS]| #[trigger] dist.requires((a, b))
}

/// Distance keys from `vp` to the points named by `indices[start + 1..end]`,
/// each paired with the point's index, in range order.
fn rest_distances<F: Fn(&[u32; DIMS], &[u32; DIMS]) -> u32>(
    points: &Vec<Point>,
    indices: &Vec<u32>,
    start: usize,
    end: usize,
    vp: &[u32; DIMS],
    dist: &F,
) -> (r: Vec<(u32, u32)>)
    requires
        dist_callable(*dist),
        start < end <= indices@.len(),
        forall|q: int| start < q < end ==> #[trigger] indices@[q] < points@.len(),
    ensures
        r@.len() == end - (start + 1),
        r@.map_values(|e: (u32, u32)| e.1) == indices@.subrange(start + 1, end as int),
        forall|i: int|
            0 <= i < r@.len() ==> call_ensures(
                *dist,
                (vp, &points@[(#[trigger] r@[i]).1 as int].v),
                r@[i].0,
            ),
{
    let mut dist_idx: Vec<(u32, u32)> = Vec::new();
    let mut k = start + 1;
    while k < end
        invariant
            start + 1 <= k <= end,
            end <= indices@.len(),
            dist_callable(*dist),
            forall|q: int| start < q < end ==> #[trigger] indices@[q] < points@.len(),
            dist_idx@.len() == k - (start + 1),
            dist_idx@.map_values(|e: (u32, u32)| e.1) == indices@.subrange(start + 1, k as int),
            forall|i: int|
                0 <= i < dist_idx@.len() ==> call_ensures(
                    *dist,
                    (vp, &points@[(#[trigger] dist_idx@[i]).1 as int].v),
                    dist_idx@[i].0,
                ),
        decreases end - k,
    {
        let i = indices[k];
        let d = dist(vp, &points[i as usize].v);
        dist_idx.push((d, i));
        proof {
            assert(dist_idx@.map_values(|e: (u32, u32)| e.1) =~= indices@.subrange(
                start + 1,
                k + 1,
            ));
        }
        k = k + 1;
    }
    dist_idx
}

/// Writes the indices of `pairs` over `indices[at..at + pairs.len()]`.
fn write_indices(indices: &mut Vec<u32>, at: usize, pairs: &Vec<(u32, u32)>)
    requires
        at + pairs@.len() <= old(indices)@.len(),
    ensures
        final(indices)@.len() == old(indices)@.len(),
        forall|q: int|
            0 <= q < old(indices)@.len() && !(at <= q < at + pairs@.len())
                ==> #[trigger] final(indices)@[q] == old(indices)@[q],
        final(indices)@.subrange(at as int, at + pairs@.len()) == pairs@.map_values(
            |e: (u32, u32)| e.1,
        ),
{
    let len = pairs.len();
    let n = indices.len();
    let mut i: usize = 0;
    while i < len
        invariant
            len == pairs@.len(),
            n == indices@.len(),
            at + len <= indices@.len(),
            indices@.len() == old(indices)@.len(),
            i <= len,
            forall|q: int|
                0 <= q < old(indices)@.len() && !(at <= q < at + i) ==> #[trigger] indices@[q]
                    == old(indices)@[q],
            forall|q: int| at <= q < at + i ==> #[trigger] indices@[q] == pairs@[q - at].1,
        decreases len - i,
    {
        indices.set(at + i, pairs[i].1);
        i = i + 1;
    }
    proof {
        assert(indices@.subrange(at as int, at + len) =~= pairs@.map_values(|e: (u32, u32)| e.1));
    }
}

/// Seed of the shuffle that orders the points before the tree is built.
pub const SHUFFLE_SEED: u64 = 0xcafe_babe_dead_beef;

/// Multiplier and increment of the shuffle's linear congruential generator.
pub const LCG_MUL: u64 = 6_364_136_223_846_793_005;

pub const LCG_INC: u64 = 1_442_695_040_888_963_407;

/// Next state of the generator, modulo 2^64.
pub open spec fn lcg_next(r: u64) -> u64 {
    r.wrapping_mul(LCG_MUL).wrapping_add(LCG_INC)
}

/// The indices `0, 1, .., n - 1`.
pub open spec fn identity_indices(n: nat) -> Seq<u32> {
    Seq::new(n, |i: int| i as u32)
}

/// Indices and generator state after `t` steps of the Fisher-Yates shuffle of
/// `0..n`, which visits `i = n - 1, n - 2, ..` and exchanges slot `i` with
/// slot `(next state >> 33) mod (i + 1)`.
pub open spec fn shuffle_state(n: int, t: nat) -> (Seq<u32>, u64)
    decreases t,
{
    if t == 0 {
        (identity_indices(n as nat), SHUFFLE_SEED)
    } else {
        let p = shuffle_state(n, (t - 1) as nat);
        let i = n - t;
        let r = lcg_next(p.1);
        let j = ((r >> 33u64) as int) % (i + 1);
        (p.0.update(i, p.0[j]).update(j, p.0[i]), r)
    }
}

/// The order in which the points enter the tree.
pub open spec fn shuffled(n: nat) -> Seq<u32> {
    if n <= 1 {
        identity_indices(n)
    } else {
        shuffle_state(n as int, (n - 1) as nat).0
    }
}

/// Each step of the shuffle exchanges two slots, so the indices stay a
/// permutation of `0..n`.
proof fn lemma_shuffle_state_permutes(n: int, t: nat)
    requires
        0 <= t < n,
    ensures
        shuffle_state(n, t).0.len() == n,
        shuffle_state(n, t).0.to_multiset() == identity_indices(n as nat).to_multiset(),
    decreases t,
{
    if t > 0 {
        lemma_shuffle_state_permutes(n, (t - 1) as nat);
        let p = shuffle_state(n, (t - 1) as nat);
        let i = n - t;
        let r = lcg_next(p.1);
        let j = ((r >> 33u64) as int) % (i + 1);
        crate::multiset_facts::lemma_swap_multiset(p.0, n, i, j);
        assert(p.0.subrange(0, n) =~= p.0);
        assert(p.0.update(i, p.0[j]).update(j, p.0[i]).subrange(0, n) =~= p.0.update(
            i,
            p.0[j],
        ).update(j, p.0[i]));
    }
}

/// Law: the shuffle is a permutation of `0..n`; each point enters the tree
/// exactly once.
pub proof fn lemma_shuffled_is_permutation(n: nat)
    ensures
        shuffled(n).len() == n,
        shuffled(n).to_multiset() == identity_indices(n).to_multiset(),
{
    if n > 1 {
        lemma_shuffle_state_permutes(n as int, (n - 1) as nat);
    }
}

/// The indices of the points, shuffled (see `shuffled`).
fn shuffled_indices(n: usize) -> (r: Vec<u32>)
    requires
        n <= NULL_NODE,
    ensures
        r@ == shuffled(n as nat),
{
    let mut indices: Vec<u32> = Vec::new();
    let mut k: usize = 0;
    while k < n
        invariant
            k <= n <= NULL_NODE,
            indices@ == identity_indices(k as nat),
        decreases n - k,
    {
        indices.push(k as u32);
        k = k + 1;
        proof {
            assert(indices@ =~= identity_indices(k as nat));
        }
    }
    let mut rng: u64 = SHUFFLE_SEED;
    let mut i = n;
    while i > 1
        invariant
            i <= n,
            i >= 1 || n == 0,
            n >= 1 ==> (indices@, rng) == shuffle_state(n as int, (n - i) as nat),
            n == 0 ==> indices@ == identity_indices(0),
            indices@.len() == n,
        decreases i,
    {
        let ghost prev = indices@;
        let ghost prev_rng = rng;
        i = i - 1;
        rng = rng.wrapping_mul(LCG_MUL).wrapping_add(LCG_INC);
        let high = rng >> 33;
        proof {
            assert(high < 0x8000_0000u64) by (bit_vector)
                requires
                    high == rng >> 33u64,
            ;
        }
        let j = high as usize % (i + 1);
        let a = indices[i];
        let b = indices[j];
        indices.set(i, b);
        indices.set(j, a);
        proof {
            let t = (n - i) as nat;
            assert(n - t == i);
            assert((t - 1) as nat == (n - (i + 1)) as nat);
            assert(rng == lcg_next(prev_rng));
            assert(j as int == ((rng >> 33u64) as int) % (i + 1));
            assert(indices@ == prev.update(i as int, prev[j as int]).update(j as int, prev[i as int]));
            assert(shuffle_state(n as int, t) == (indices@, rng));
        }
    }
    proof {
        if n == 1 {
            assert(shuffle_state(1, 0).0 == identity_indices(1));
        }
    }
    indices
}

/// Builds a vantage-point tree over `points`, with `dist` giving the distance
/// key between two feature vectors. The points are first shuffled for
/// balance (see `shuffled`); every node then takes the first point of its
/// range as vantage point and sends the nearer half of the others (rounded
/// down) left, the rest right, around the median distance.
pub fn build_vp_tree<F: Fn(&[u32; DIMS], &[u32; DIMS]) -> u32>(
    points: Vec<Point>,
    dist: &F,
) -> (r: VpTree)
    requires
        dist_callable(*dist),
        points@.len() <= NULL_NODE,
    ensures
        r.points@ == points@,
        r.nodes@.len() == points@.len(),
        points@.len() == 0 ==> r.root == NULL_NODE,
        points@.len() > 0 ==> r.root == 0 && r.nodes@[0].vp_idx == shuffled(
            points@.len() as nat,
        )[0] && subtree(r.nodes@, 0) == identity_indices(points@.len() as nat).to_multiset(),
        tree_ok(r.nodes@, points@, *dist, 0, points@.len() as int),
{
    let n = points.len();
    let mut nodes: Vec<VpNode> = Vec::new();
    let mut indices = shuffled_indices(n);
    proof {
        broadcast use vstd::seq_lib::group_to_multiset_ensures;

        lemma_shuffled_is_permutation(n as nat);
        assert forall|k: int| 0 <= k < n implies #[trigger] indices@[k] < points@.len() by {
            assert(indices@.to_multiset().count(indices@[k]) > 0);
            assert(identity_indices(n as nat).contains(indices@[k]));
        }
        assert(indices@.subrange(0, n as int) =~= indices@);
    }
    let ghost shuffled_idx = indices@;
    let root = build_iterative(&points, &mut indices, &mut nodes, dist);
    proof {
        lemma_final_tree(nodes@, indices@, root, points@, *dist, n as int);
        assert(indices@.to_multiset() == shuffled_idx.to_multiset());
        assert(shuffled_idx.to_multiset() == identity_indices(n as nat).to_multiset());
    }
    VpTree { points, nodes, root }
}

/// A pending subtree: the range `[start, end)` of the index array, the node
/// whose child it becomes (`NULL_NODE` for the root) and on which side.
#[derive(Clone, Copy)]
struct Work {
    start: usize,
    end: usize,
    parent_slot: u32,
    is_left: bool,
}

/// Node `j`, built while `nodes_len` nodes exist, agrees with the shape of the
/// tree over `n` points: its vantage point is the index at its own position,
/// a child is linked once it exists, a leaf has threshold 0, the indices on
/// each side of its range lie within, or at or beyond, its threshold, and the
/// threshold is the distance key of the first index of the far side.
spec fn node_ok<F: Fn(&[u32; DIMS], &[u32; DIMS]) -> u32>(
    nodes: Seq<VpNode>,
    idx: Seq<u32>,
    points: Seq<Point>,
    dist: F,
    n: int,
    nodes_len: int,
    j: int,
) -> bool {
    let nd = nodes[j];
    let e = range_end(0, n, j);
    let m = left_size(j, e);
    let r = e - j - 1 - m;
    let vp = points[nd.vp_idx as int].v;
    &&& nd.vp_idx == idx[j]
    &&& nd.left == (if m > 0 && j + 1 < nodes_len { (j + 1) as u32 } else { NULL_NODE })
    &&& nd.right == (if r > 0 && j + 1 + m < nodes_len { (j + 1 + m) as u32 } else { NULL_NODE })
    &&& (e == j + 1 ==> nd.thresh_sq == 0)
    &&& near_side(points, dist, vp, idx.subrange(j + 1, j + 1 + m).to_multiset(), nd.thresh_sq)
    &&& far_side(points, dist, vp, idx.subrange(j + 1 + m, e).to_multiset(), nd.thresh_sq)
    &&& r > 0 ==> call_ensures(dist, (&vp, &points[idx[j + 1 + m] as int].v), nd.thresh_sq)
}

/// A pending range is one side of an existing node, or the whole range
/// before any node exists.
spec fn item_ok(w: Work, n: int, nodes_len: int, stack_len: int) -> bool {
    if w.parent_slot == NULL_NODE {
        w.start == 0 && w.end == n && nodes_len == 0 && stack_len == 1
    } else {
        let p = w.parent_slot as int;
        let e = range_end(0, n, p);
        let m = left_size(p, e);
        &&& p < nodes_len
        &&& w.is_left ==> w.start == p + 1 && w.end == p + 1 + m
        &&& !w.is_left ==> w.start == p + 1 + m && w.end == e
    }
}

/// The pending ranges tile `[nodes_len, n)`, the top one first.
spec fn stack_ok(stack: Seq<Work>, n: int, nodes_len: int) -> bool {
    &&& stack.len() == 0 ==> nodes_len == n
    &&& stack.len() > 0 ==> stack.last().start == nodes_len && stack[0].end == n
    &&& forall|t: int| 0 <= t < stack.len() - 1 ==> #[trigger] stack[t].start == stack[t + 1].end
    &&& forall|t: int|
        0 <= t < stack.len() ==> (#[trigger] stack[t]).start <= stack[t].end && item_ok(
            stack[t],
            n,
            nodes_len,
            stack.len() as int,
        )
}

/// The state of the iterative build between two steps.
#[verifier::opaque]
spec fn build_inv<F: Fn(&[u32; DIMS], &[u32; DIMS]) -> u32>(
    nodes: Seq<VpNode>,
    idx: Seq<u32>,
    stack: Seq<Work>,
    root: u32,
    points: Seq<Point>,
    dist: F,
    n: int,
) -> bool {
    let l = nodes.len() as int;
    &&& l <= n <= NULL_NODE
    &&& idx.len() == n
    &&& forall|q: int| 0 <= q < n ==> #[trigger] idx[q] < points.len()
    &&& stack_ok(stack, n, l)
    &&& forall|j: int| 0 <= j < l ==> #[trigger] node_ok(nodes, idx, points, dist, n, l, j)
    &&& l == 0 ==> root == NULL_NODE
    &&& l > 0 ==> root == 0
}

/// A node index that starts a non-empty side of two nodes belongs to one
/// node only.
proof fn lemma_unique_parent(n: int, p: int, j: int, s: int)
    requires
        0 <= p < s,
        0 <= j < s,
        s < n,
        ({
            let e = range_end(0, n, p);
            let m = left_size(p, e);
            (s == p + 1 && m > 0) || (s == p + 1 + m && e - p - 1 - m > 0)
        }),
        ({
            let e = range_end(0, n, j);
            let m = left_size(j, e);
            (s == j + 1 && m > 0) || (s == j + 1 + m && e - j - 1 - m > 0)
        }),
    ensures
        p == j,
    decreases 0int,
{
    lemma_range_end_bounds(0, n, p);
    lemma_range_end_bounds(0, n, j);
    if p < j {
        lemma_range_end_nested(0, n, p, j);
    } else if j < p {
        lemma_range_end_nested(0, n, j, p);
    }
}

/// The multiset of `[a, b)` stays when only `[c, d)` changed, keeping its
/// multiset, and `[c, d)` lies inside `[a, b)` or apart from it.
proof fn lemma_side_multiset_kept(idx: Seq<u32>, idx2: Seq<u32>, a: int, b: int, c: int, d: int)
    requires
        0 <= a <= b <= idx.len(),
        0 <= c <= d <= idx.len(),
        idx2.len() == idx.len(),
        forall|q: int| 0 <= q < idx.len() && !(c <= q < d) ==> #[trigger] idx2[q] == idx[q],
        idx2.subrange(c, d).to_multiset() == idx.subrange(c, d).to_multiset(),
        (a <= c && d <= b) || d <= a || b <= c,
    ensures
        idx2.subrange(a, b).to_multiset() == idx.subrange(a, b).to_multiset(),
{
    if a <= c && d <= b {
        lemma_split_multiset(idx, a, c, b);
        lemma_split_multiset(idx2, a, c, b);
        lemma_split_multiset(idx, c, d, b);
        lemma_split_multiset(idx2, c, d, b);
        assert(idx2.subrange(a, c) =~= idx.subrange(a, c));
        assert(idx2.subrange(d, b) =~= idx.subrange(d, b));
    } else {
        assert(idx2.subrange(a, b) =~= idx.subrange(a, b));
    }
}

/// Creating node `s` from the pending range `[s, e)` (a side of node `p`, or
/// the root range) keeps every earlier node in agreement with the shape.
#[verifier::rlimit(40)]
proof fn lemma_old_nodes_kept<F: Fn(&[u32; DIMS], &[u32; DIMS]) -> u32>(
    points: Seq<Point>,
    dist: F,
    n: int,
    nodes0: Seq<VpNode>,
    idx0: Seq<u32>,
    nodes1: Seq<VpNode>,
    idx1: Seq<u32>,
    w: Work,
    stack_len: int,
)
    requires
        0 <= w.start < w.end <= n <= NULL_NODE,
        nodes0.len() == w.start,
        item_ok(w, n, w.start as int, stack_len),
        w.end == range_end(0, n, w.start as int),
        forall|j: int|
            0 <= j < w.start ==> #[trigger] node_ok(nodes0, idx0, points, dist, n, w.start as int, j),
        nodes1.len() == w.start + 1,
        forall|j: int| 0 <= j < w.start && j != w.parent_slot ==> #[trigger] nodes1[j] == nodes0[j],
        w.parent_slot != NULL_NODE ==> nodes1[w.parent_slot as int] == (if w.is_left {
            VpNode { left: w.start as u32, ..nodes0[w.parent_slot as int] }
        } else {
            VpNode { right: w.start as u32, ..nodes0[w.parent_slot as int] }
        }),
        idx0.len() == n,
        idx1.len() == n,
        forall|q: int| 0 <= q < n && !(w.start + 1 <= q < w.end) ==> #[trigger] idx1[q] == idx0[q],
        idx1.subrange(w.start + 1, w.end as int).to_multiset() == idx0.subrange(
            w.start + 1,
            w.end as int,
        ).to_multiset(),
    ensures
        forall|j: int|
            0 <= j < w.start ==> #[trigger] node_ok(nodes1, idx1, points, dist, n, w.start + 1, j),
{
    let s = w.start as int;
    let e = w.end as int;
    assert forall|j: int| 0 <= j < s implies #[trigger] node_ok(
        nodes1,
        idx1,
        points,
        dist,
        n,
        s + 1,
        j,
    ) by {
        assert(node_ok(nodes0, idx0, points, dist, n, s, j));
        let ej = range_end(0, n, j);
        let mj = left_size(j, ej);
        let rj = ej - j - 1 - mj;
        lemma_range_end_bounds(0, n, j);
        // the sides of node j either hold [s, e) or lie apart from it
        if s < ej {
            lemma_range_end_nested(0, n, j, s);
        }
        lemma_side_multiset_kept(idx0, idx1, j + 1, j + 1 + mj, s + 1, e);
        lemma_side_multiset_kept(idx0, idx1, j + 1 + mj, ej, s + 1, e);
        // the first index of the far side stays
        if rj > 0 {
            assert(idx1[j + 1 + mj] == idx0[j + 1 + mj]);
        }
        // only the parent links the new node
        if w.parent_slot != NULL_NODE {
            let p = w.parent_slot as int;
            let ep = range_end(0, n, p);
            let mp = left_size(p, ep);
            lemma_range_end_bounds(0, n, p);
            if j != p {
                if mj > 0 && j + 1 == s {
                    lemma_unique_parent(n, p, j, s);
                }
                if rj > 0 && j + 1 + mj == s {
                    lemma_unique_parent(n, p, j, s);
                }
            }
        } else {
            assert(s == 0);
        }
    }
}

/// The end of a pending range is the end of the range of the node built
/// from it.
proof fn lemma_item_end(w: Work, n: int, nodes_len: int, stack_len: int)
    requires
        item_ok(w, n, nodes_len, stack_len),
        w.start < w.end,
        n <= NULL_NODE,
    ensures
        w.end == range_end(0, n, w.start as int),
        w.end <= n,
{
    if w.parent_slot == NULL_NODE {
        assert(range_end(0, n, 0) == n);
    } else {
        let p = w.parent_slot as int;
        assert(0 <= p);
        lemma_range_end_bounds(0, n, p);
        lemma_range_end_children(0, n, p);
    }
}

/// The pending ranges below the top one have parents (only a lone range
/// lacks one).
proof fn lemma_popped_stack_ok(stack0: Seq<Work>, n: int, l0: int, l1: int)
    requires
        stack0.len() > 0,
        stack_ok(stack0, n, l0),
        l0 <= l1,
        stack0.len() > 1 ==> stack0[stack0.len() - 2].start == l1,
        stack0.len() == 1 ==> l1 == n,
    ensures
        stack_ok(stack0.drop_last(), n, l1),
{
    let st = stack0.drop_last();
    assert forall|t: int| 0 <= t < st.len() implies (#[trigger] st[t]).start <= st[t].end
        && item_ok(st[t], n, l1, st.len() as int) by {
        assert(st[t] == stack0[t]);
        assert(item_ok(stack0[t], n, l0, stack0.len() as int));
    }
    assert forall|t: int| 0 <= t < st.len() - 1 implies #[trigger] st[t].start == st[t + 1].end by {
        assert(st[t] == stack0[t]);
        assert(st[t + 1] == stack0[t + 1]);
    }
}

/// Popping an empty pending range keeps the state.
proof fn lemma_empty_step<F: Fn(&[u32; DIMS], &[u32; DIMS]) -> u32>(
    points: Seq<Point>,
    dist: F,
    n: int,
    nodes: Seq<VpNode>,
    idx: Seq<u32>,
    stack0: Seq<Work>,
    root: u32,
)
    requires
        build_inv(nodes, idx, stack0, root, points, dist, n),
        stack0.len() > 0,
        stack0.last().start >= stack0.last().end,
    ensures
        build_inv(nodes, idx, stack0.drop_last(), root, points, dist, n),
{
    reveal(build_inv);
    let l = nodes.len() as int;
    if stack0.len() > 1 {
        assert(stack0[stack0.len() - 2].start == stack0[stack0.len() - 1].end);
    }
    lemma_popped_stack_ok(stack0, n, l, l);
}

/// Building a leaf from the top pending range keeps the state.
proof fn lemma_leaf_step<F: Fn(&[u32; DIMS], &[u32; DIMS]) -> u32>(
    points: Seq<Point>,
    dist: F,
    n: int,
    nodes0: Seq<VpNode>,
    idx: Seq<u32>,
    stack0: Seq<Work>,
    root0: u32,
    nodes1: Seq<VpNode>,
    root1: u32,
)
    requires
        build_inv(nodes0, idx, stack0, root0, points, dist, n),
        stack0.len() > 0,
        stack0.last().end == stack0.last().start + 1,
        nodes1.len() == nodes0.len() + 1,
        nodes1[nodes0.len() as int] == (VpNode {
            vp_idx: idx[stack0.last().start as int],
            thresh_sq: 0,
            left: NULL_NODE,
            right: NULL_NODE,
        }),
        forall|j: int|
            0 <= j < nodes0.len() && j != stack0.last().parent_slot ==> #[trigger] nodes1[j]
                == nodes0[j],
        stack0.last().parent_slot != NULL_NODE ==> nodes1[stack0.last().parent_slot as int] == (
        if stack0.last().is_left {
            VpNode { left: stack0.last().start as u32, ..nodes0[stack0.last().parent_slot as int] }
        } else {
            VpNode { right: stack0.last().start as u32, ..nodes0[stack0.last().parent_slot as int] }
        }),
        root1 == (if stack0.last().parent_slot == NULL_NODE {
            stack0.last().start as u32
        } else {
            root0
        }),
    ensures
        build_inv(nodes1, idx, stack0.drop_last(), root1, points, dist, n),
{
    reveal(build_inv);
    broadcast use vstd::seq_lib::group_to_multiset_ensures;

    let w = stack0.last();
    let s = w.start as int;
    let l0 = nodes0.len() as int;
    assert(item_ok(stack0[stack0.len() - 1], n, l0, stack0.len() as int));
    lemma_item_end(w, n, l0, stack0.len() as int);
    lemma_old_nodes_kept(points, dist, n, nodes0, idx, nodes1, idx, w, stack0.len() as int);
    assert(idx.subrange(s + 1, s + 1) =~= Seq::<u32>::empty());
    assert(idx.subrange(s + 1, s + 1).to_multiset() =~= Multiset::empty());
    assert(node_ok(nodes1, idx, points, dist, n, s + 1, s));
    if stack0.len() > 1 {
        assert(stack0[stack0.len() - 2].start == stack0[stack0.len() - 1].end);
    }
    lemma_popped_stack_ok(stack0, n, l0, s + 1);
    assert forall|j: int| 0 <= j < s + 1 implies #[trigger] node_ok(nodes1, idx, points, dist, n, s + 1, j) by {
    }
}

/// Building an inner node from the top pending range, with the rest of the
/// range reordered around the median (`pairs`), keeps the state.
#[verifier::rlimit(40)]
proof fn lemma_new_node_step<F: Fn(&[u32; DIMS], &[u32; DIMS]) -> u32>(
    points: Seq<Point>,
    dist: F,
    n: int,
    nodes0: Seq<VpNode>,
    idx0: Seq<u32>,
    stack0: Seq<Work>,
    root0: u32,
    nodes1: Seq<VpNode>,
    idx1: Seq<u32>,
    stack1: Seq<Work>,
    root1: u32,
    pairs: Seq<(u32, u32)>,
    before: Seq<(u32, u32)>,
    mid: int,
    thresh: u32,
)
    requires
        build_inv(nodes0, idx0, stack0, root0, points, dist, n),
        stack0.len() > 0,
        stack0.last().end >= stack0.last().start + 2,
        pairs.len() == stack0.last().end - stack0.last().start - 1,
        mid == pairs.len() / 2,
        pairs.to_multiset() == before.to_multiset(),
        before.map_values(|e: (u32, u32)| e.1) == idx0.subrange(
            stack0.last().start + 1,
            stack0.last().end as int,
        ),
        thresh == pairs[mid].0,
        forall|i: int| 0 <= i < mid ==> #[trigger] pairs[i].0 <= thresh,
        forall|i: int| mid < i < pairs.len() ==> #[trigger] pairs[i].0 >= thresh,
        forall|i: int|
            0 <= i < pairs.len() ==> call_ensures(
                dist,
                (
                    &points[idx0[stack0.last().start as int] as int].v,
                    &points[(#[trigger] pairs[i]).1 as int].v,
                ),
                pairs[i].0,
            ),
        idx1.len() == idx0.len(),
        forall|q: int|
            0 <= q < idx0.len() && !(stack0.last().start + 1 <= q < stack0.last().end)
                ==> #[trigger] idx1[q] == idx0[q],
        idx1.subrange(stack0.last().start + 1, stack0.last().end as int) == pairs.map_values(
            |e: (u32, u32)| e.1,
        ),
        nodes1.len() == nodes0.len() + 1,
        nodes1[nodes0.len() as int] == (VpNode {
            vp_idx: idx0[stack0.last().start as int],
            thresh_sq: thresh,
            left: NULL_NODE,
            right: NULL_NODE,
        }),
        forall|j: int|
            0 <= j < nodes0.len() && j != stack0.last().parent_slot ==> #[trigger] nodes1[j]
                == nodes0[j],
        stack0.last().parent_slot != NULL_NODE ==> nodes1[stack0.last().parent_slot as int] == (
        if stack0.last().is_left {
            VpNode { left: stack0.last().start as u32, ..nodes0[stack0.last().parent_slot as int] }
        } else {
            VpNode { right: stack0.last().start as u32, ..nodes0[stack0.last().parent_slot as int] }
        }),
        root1 == (if stack0.last().parent_slot == NULL_NODE {
            stack0.last().start as u32
        } else {
            root0
        }),
        stack1 == stack0.drop_last().push(
            Work {
                start: (stack0.last().start + 1 + mid) as usize,
                end: stack0.last().end,
                parent_slot: stack0.last().start as u32,
                is_left: false,
            },
        ).push(
            Work {
                start: (stack0.last().start + 1) as usize,
                end: (stack0.last().start + 1 + mid) as usize,
                parent_slot: stack0.last().start as u32,
                is_left: true,
            },
        ),
    ensures
        build_inv(nodes1, idx1, stack1, root1, points, dist, n),
{
    reveal(build_inv);
    broadcast use vstd::seq_lib::group_to_multiset_ensures;

    let w = stack0.last();
    let s = w.start as int;
    let e = w.end as int;
    let l0 = nodes0.len() as int;
    let f = |x: (u32, u32)| x.1;
    assert(item_ok(stack0[stack0.len() - 1], n, l0, stack0.len() as int));
    lemma_item_end(w, n, l0, stack0.len() as int);
    // the reordered rest keeps its multiset and its indices
    lemma_map_values_multiset(pairs, before, f);
    assert(idx1.subrange(s + 1, e).to_multiset() == idx0.subrange(s + 1, e).to_multiset());
    assert forall|q: int| 0 <= q < n implies #[trigger] idx1[q] < points.len() by {
        if s + 1 <= q < e {
            let t = q - (s + 1);
            assert(idx1.subrange(s + 1, e)[t] == idx1[q]);
            assert(idx1.subrange(s + 1, e).contains(idx1[q]));
            assert(idx0.subrange(s + 1, e).to_multiset().count(idx1[q]) > 0);
            assert(idx0.subrange(s + 1, e).contains(idx1[q]));
        }
    }
    lemma_old_nodes_kept(points, dist, n, nodes0, idx0, nodes1, idx1, w, stack0.len() as int);
    // the new node
    let m = left_size(s, e);
    assert(m == mid);
    let lpart = pairs.subrange(0, mid);
    let rpart = pairs.subrange(mid, pairs.len() as int);
    let whole = idx1.subrange(s + 1, e);
    assert(idx1.subrange(s + 1, s + 1 + mid) =~= lpart.map_values(f));
    assert forall|t: int| 0 <= t < e - (s + 1 + mid) implies #[trigger] idx1.subrange(
        s + 1 + mid,
        e,
    )[t] == rpart.map_values(f)[t] by {
        assert(idx1.subrange(s + 1 + mid, e)[t] == whole[mid + t]);
        assert(whole[mid + t] == pairs.map_values(f)[mid + t]);
    }
    assert(idx1.subrange(s + 1 + mid, e) =~= rpart.map_values(f));
    let vp = idx0[s];
    assert(idx1[s] == vp);
    lemma_split_side(points, dist, points[vp as int].v, idx1.subrange(s + 1, s + 1 + mid).to_multiset(), lpart, thresh, true);
    lemma_split_side(points, dist, points[vp as int].v, idx1.subrange(s + 1 + mid, e).to_multiset(), rpart, thresh, false);
    assert(idx1[s + 1 + mid] == whole[mid]);
    assert(whole[mid] == pairs[mid].1);
    assert(node_ok(nodes1, idx1, points, dist, n, s + 1, s));
    assert forall|j: int| 0 <= j < s + 1 implies #[trigger] node_ok(nodes1, idx1, points, dist, n, s + 1, j) by {
    }
    // the stack
    let st = stack0.drop_last();
    assert forall|t: int| 0 <= t < st.len() implies (#[trigger] st[t]).start <= st[t].end
        && item_ok(st[t], n, s + 1, stack1.len() as int) && st[t].parent_slot != NULL_NODE by {
        assert(st[t] == stack0[t]);
        assert(item_ok(stack0[t], n, l0, stack0.len() as int));
    }
    if stack0.len() > 1 {
        assert(stack0[stack0.len() - 2].start == stack0[stack0.len() - 1].end);
    }
    assert forall|t: int| 0 <= t < stack1.len() implies (#[trigger] stack1[t]).start <= stack1[t].end
        && item_ok(stack1[t], n, s + 1, stack1.len() as int) by {
        if t < st.len() {
            assert(stack1[t] == st[t]);
        }
    }
    assert forall|t: int| 0 <= t < stack1.len() - 1 implies #[trigger] stack1[t].start == stack1[t
        + 1].end by {
        if t < st.len() - 1 {
            assert(stack1[t] == stack0[t]);
            assert(stack1[t + 1] == stack0[t + 1]);
        } else if t == st.len() - 1 {
            assert(stack1[t] == stack0[t]);
        }
    }
    assert(stack_ok(stack1, n, s + 1));
}

/// What the build state says of its sizes.
proof fn lemma_inv_bounds<F: Fn(&[u32; DIMS], &[u32; DIMS]) -> u32>(
    nodes: Seq<VpNode>,
    idx: Seq<u32>,
    stack: Seq<Work>,
    root: u32,
    points: Seq<Point>,
    dist: F,
    n: int,
)
    requires
        build_inv(nodes, idx, stack, root, points, dist, n),
    ensures
        nodes.len() <= n <= NULL_NODE,
        idx.len() == n,
        forall|q: int| 0 <= q < n ==> #[trigger] idx[q] < points.len(),
{
    reveal(build_inv);
}

/// What the build state says of the top pending range.
proof fn lemma_top_facts<F: Fn(&[u32; DIMS], &[u32; DIMS]) -> u32>(
    nodes: Seq<VpNode>,
    idx: Seq<u32>,
    stack: Seq<Work>,
    root: u32,
    points: Seq<Point>,
    dist: F,
    n: int,
)
    requires
        build_inv(nodes, idx, stack, root, points, dist, n),
        stack.len() > 0,
    ensures
        ({
            let w = stack.last();
            &&& w.start == nodes.len()
            &&& w.start <= w.end <= n
            &&& w.parent_slot == NULL_NODE || w.parent_slot < nodes.len()
            &&& w.start >= w.end && w.parent_slot != NULL_NODE ==> (w.is_left ==> nodes[w.parent_slot as int].left == NULL_NODE) && (!w.is_left ==> nodes[w.parent_slot as int].right == NULL_NODE)
        }),
{
    reveal(build_inv);
    let w = stack.last();
    let l = nodes.len() as int;
    assert(item_ok(stack[stack.len() - 1], n, l, stack.len() as int));
    assert forall|t: int| 0 <= t < stack.len() implies stack[t].end <= n by {
        lemma_stack_ends(stack, n, l, t);
    }
    if w.parent_slot != NULL_NODE {
        let p = w.parent_slot as int;
        assert(node_ok(nodes, idx, points, dist, n, l, p));
        lemma_range_end_bounds(0, n, p);
    }
}

/// The pending ranges end within `n`.
proof fn lemma_stack_ends(stack: Seq<Work>, n: int, l: int, t: int)
    requires
        stack_ok(stack, n, l),
        0 <= t < stack.len(),
    ensures
        stack[t].end <= n,
    decreases t,
{
    if t > 0 {
        lemma_stack_ends(stack, n, l, t - 1);
        assert(stack[t - 1].start == stack[t].end);
    }
}

/// In a finished build, the subtree of node `j` holds the indices of its
/// range.
proof fn lemma_final_subtree<F: Fn(&[u32; DIMS], &[u32; DIMS]) -> u32>(
    nodes: Seq<VpNode>,
    idx: Seq<u32>,
    points: Seq<Point>,
    dist: F,
    n: int,
    j: int,
)
    requires
        nodes.len() == n <= NULL_NODE,
        idx.len() == n,
        forall|k: int| 0 <= k < n ==> #[trigger] node_ok(nodes, idx, points, dist, n, n, k),
        0 <= j < n,
    ensures
        subtree(nodes, j) == idx.subrange(j, range_end(0, n, j)).to_multiset(),
    decreases range_end(0, n, j) - j,
{
    broadcast use vstd::seq_lib::group_to_multiset_ensures;

    let e = range_end(0, n, j);
    let m = left_size(j, e);
    lemma_range_end_bounds(0, n, j);
    lemma_range_end_children(0, n, j);
    assert(node_ok(nodes, idx, points, dist, n, n, j));
    let nd = nodes[j];
    let lm = if m > 0 {
        lemma_range_end_bounds(0, n, j + 1);
        lemma_final_subtree(nodes, idx, points, dist, n, j + 1);
        subtree(nodes, j + 1)
    } else {
        Multiset::empty()
    };
    let rm = if e - j - 1 - m > 0 {
        lemma_range_end_bounds(0, n, j + 1 + m);
        lemma_final_subtree(nodes, idx, points, dist, n, j + 1 + m);
        subtree(nodes, j + 1 + m)
    } else {
        Multiset::empty()
    };
    assert(idx.subrange(j + 1, j + 1 + m).to_multiset() == lm) by {
        if m == 0 {
            assert(idx.subrange(j + 1, j + 1) =~= Seq::<u32>::empty());
        }
    }
    assert(idx.subrange(j + 1 + m, e).to_multiset() == rm) by {
        if e - j - 1 - m == 0 {
            assert(idx.subrange(j + 1 + m, e) =~= Seq::<u32>::empty());
        }
    }
    assert(subtree(nodes, j) =~= Multiset::singleton(nd.vp_idx).add(lm).add(rm));
    lemma_split_multiset(idx, j, j + 1, e);
    lemma_split_multiset(idx, j + 1, j + 1 + m, e);
    assert(idx.subrange(j, j + 1) =~= seq![nd.vp_idx]);
    assert(seq![nd.vp_idx].to_multiset() =~= Multiset::singleton(nd.vp_idx)) by {
        assert(seq![nd.vp_idx] =~= Seq::<u32>::empty().push(nd.vp_idx));
    }
}

/// A finished build is a vantage-point tree over all the indices.
#[verifier::rlimit(40)]
proof fn lemma_final_tree<F: Fn(&[u32; DIMS], &[u32; DIMS]) -> u32>(
    nodes: Seq<VpNode>,
    idx: Seq<u32>,
    root: u32,
    points: Seq<Point>,
    dist: F,
    n: int,
)
    requires
        build_inv(nodes, idx, Seq::empty(), root, points, dist, n),
    ensures
        nodes.len() == n,
        n == 0 ==> root == NULL_NODE,
        n > 0 ==> root == 0 && nodes[0].vp_idx == idx[0] && subtree(nodes, 0) == idx.to_multiset(),
        tree_ok(nodes, points, dist, 0, n),
{
    broadcast use vstd::seq_lib::group_to_multiset_ensures;

    reveal(build_inv);
    assert(nodes.len() == n);
    if n > 0 {
        lemma_final_subtree(nodes, idx, points, dist, n, 0);
        assert(range_end(0, n, 0) == n);
        assert(idx.subrange(0, n) =~= idx);
        assert(node_ok(nodes, idx, points, dist, n, n, 0));
    }
    assert forall|j: int| 0 <= j < n implies (#[trigger] nodes[j]).vp_idx < points.len()
        && split_ok(nodes, points, dist, j) && child_in(nodes[j].left, j, n) && child_in(
        nodes[j].right,
        j,
        n,
    ) by {
        assert(node_ok(nodes, idx, points, dist, n, n, j));
        let e = range_end(0, n, j);
        let m = left_size(j, e);
        lemma_range_end_bounds(0, n, j);
        lemma_range_end_children(0, n, j);
        let nd = nodes[j];
        if m > 0 {
            lemma_range_end_bounds(0, n, j + 1);
            lemma_final_subtree(nodes, idx, points, dist, n, j + 1);
        } else {
            assert(idx.subrange(j + 1, j + 1) =~= Seq::<u32>::empty());
        }
        if e - j - 1 - m > 0 {
            lemma_range_end_bounds(0, n, j + 1 + m);
            lemma_final_subtree(nodes, idx, points, dist, n, j + 1 + m);
            assert(node_ok(nodes, idx, points, dist, n, n, j + 1 + m));
        } else {
            assert(idx.subrange(j + 1 + m, e) =~= Seq::<u32>::empty());
        }
        let l = child_subtree(nodes, j, nd.left);
        let r = child_subtree(nodes, j, nd.right);
        assert(l == idx.subrange(j + 1, j + 1 + m).to_multiset());
        assert(r == idx.subrange(j + 1 + m, e).to_multiset());
        assert(l.len() == m);
        assert(r.len() == e - j - 1 - m);
    }
}

/// Builds the tree over `indices` with an explicit stack of pending ranges
/// (no recursion): each range's first index becomes a node, the rest is
/// reordered around the median distance to it, and the two halves are pushed
/// (right first, so that the left one is built next). Returns the root node,
/// `NULL_NODE` for no points.
#[verifier::rlimit(60)]
fn build_iterative<F: Fn(&[u32; DIMS], &[u32; DIMS]) -> u32>(
    points: &Vec<Point>,
    indices: &mut Vec<u32>,
    nodes: &mut Vec<VpNode>,
    dist: &F,
) -> (root: u32)
    requires
        dist_callable(*dist),
        old(nodes)@.len() == 0,
        old(indices)@.len() <= NULL_NODE,
        forall|q: int| 0 <= q < old(indices)@.len() ==> #[trigger] old(indices)@[q] < points@.len(),
    ensures
        final(indices)@.to_multiset() == old(indices)@.to_multiset(),
        old(indices)@.len() > 0 ==> final(indices)@[0] == old(indices)@[0],
        build_inv(final(nodes)@, final(indices)@, Seq::empty(), root, points@, *dist, old(indices)@.len() as int),
{
    let n = indices.len();
    let ghost idx_start = indices@;
    let mut stack: Vec<Work> = Vec::new();
    stack.push(Work { start: 0, end: n, parent_slot: NULL_NODE, is_left: true });
    let mut root = NULL_NODE;
    proof {
        assert(range_end(0, n as int, 0) == n);
        reveal(build_inv);
        assert(stack@.len() == 1);
        assert(stack_ok(stack@, n as int, 0));
    }
    loop
        invariant
            dist_callable(*dist),
            n == indices@.len(),
            nodes@.len() <= n,
            indices@.to_multiset() == idx_start.to_multiset(),
            n > 0 ==> indices@[0] == idx_start[0],
            build_inv(nodes@, indices@, stack@, root, points@, *dist, n as int),
        ensures
            indices@.to_multiset() == idx_start.to_multiset(),
            n > 0 ==> indices@[0] == idx_start[0],
            build_inv(nodes@, indices@, Seq::empty(), root, points@, *dist, n as int),
        decreases (n - nodes@.len()) * 2 + stack@.len(),
    {
        let ghost stack0 = stack@;
        let ghost nodes0 = nodes@;
        let ghost idx0 = indices@;
        let ghost root0 = root;
        proof {
            lemma_inv_bounds(nodes0, idx0, stack0, root0, points@, *dist, n as int);
            if stack0.len() > 0 {
                lemma_top_facts(nodes0, idx0, stack0, root0, points@, *dist, n as int);
            }
        }
        let w = match stack.pop() {
            Some(w) => w,
            None => {
                proof {
                    assert(stack@ =~= Seq::<Work>::empty());
                }
                break;
            },
        };
        let start = w.start;
        let end = w.end;
        let parent_slot = w.parent_slot;
        let is_left = w.is_left;
        proof {
            assert(stack0.last() == w);
            assert(stack@ =~= stack0.drop_last());
        }
        if start >= end {
            // an empty side: its parent keeps no child there
            if parent_slot != NULL_NODE {
                let mut nd = nodes[parent_slot as usize];
                if is_left {
                    nd.left = NULL_NODE;
                } else {
                    nd.right = NULL_NODE;
                }
                proof {
                    assert(nd == nodes0[parent_slot as int]);
                }
                nodes.set(parent_slot as usize, nd);
                proof {
                    assert(nodes@ =~= nodes0);
                }
            }
            proof {
                lemma_empty_step(points@, *dist, n as int, nodes0, idx0, stack0, root);
            }
            continue;
        }
        let slot = nodes.len() as u32;
        let vp_raw = indices[start];
        if end - start == 1 {
            nodes.push(VpNode { vp_idx: vp_raw, thresh_sq: 0, left: NULL_NODE, right: NULL_NODE });
            set_parent(nodes, parent_slot, is_left, slot);
            if parent_slot == NULL_NODE {
                root = slot;
            }
            proof {
                lemma_leaf_step(points@, *dist, n as int, nodes0, idx0, stack0, root0, nodes@, root);
            }
            continue;
        }
        let vp_vec = points[vp_raw as usize].v;
        let mut dist_idx = rest_distances(points, indices, start, end, &vp_vec, dist);
        let ghost before_select = dist_idx@;
        let mid = dist_idx.len() / 2;
        select_nth_by_key(&mut dist_idx, mid);
        let thresh_sq = dist_idx[mid].0;
        let ghost pairs = dist_idx@;
        proof {
            broadcast use vstd::seq_lib::group_to_multiset_ensures;

            assert forall|i: int| 0 <= i < pairs.len() implies call_ensures(
                *dist,
                (&vp_vec, &points@[(#[trigger] pairs[i]).1 as int].v),
                pairs[i].0,
            ) by {
                assert(pairs.to_multiset().count(pairs[i]) > 0);
                assert(before_select.contains(pairs[i]));
                let j = choose|j: int| 0 <= j < before_select.len() && before_select[j] == pairs[i];
                assert(call_ensures(
                    *dist,
                    (&vp_vec, &points@[before_select[j].1 as int].v),
                    before_select[j].0,
                ));
            }
        }
        write_indices(indices, start + 1, &dist_idx);
        nodes.push(VpNode { vp_idx: vp_raw, thresh_sq, left: NULL_NODE, right: NULL_NODE });
        set_parent(nodes, parent_slot, is_left, slot);
        if parent_slot == NULL_NODE {
            root = slot;
        }
        let left_start = start + 1;
        let left_end = start + 1 + mid;
        let right_start = left_end;
        let right_end = end;
        stack.push(Work { start: right_start, end: right_end, parent_slot: slot, is_left: false });
        stack.push(Work { start: left_start, end: left_end, parent_slot: slot, is_left: true });
        proof {
            lemma_new_node_step(points@, *dist, n as int, nodes0, idx0, stack0, root0, nodes@, indices@, stack@, root, pairs, before_select, mid as int, thresh_sq);
            lemma_inv_bounds(nodes@, indices@, stack@, root, points@, *dist, n as int);
            lemma_map_values_multiset(pairs, before_select, |e: (u32, u32)| e.1);
            lemma_side_multiset_kept(idx0, indices@, 0, n as int, start + 1, end as int);
            assert(idx0.subrange(0, n as int) =~= idx0);
            assert(indices@.subrange(0, n as int) =~= indices@);
        }
    }
    root
}

} // verus!
