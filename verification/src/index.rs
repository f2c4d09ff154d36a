//! The prebuilt tree index and its binary layout.
//!
//! Layout, all integers little-endian:
//! - `n_points: u32`, `n_nodes: u32`, `root: u32`;
//! - `n_points` points of 60 bytes: 14 features of 4 bytes each (the bit
//!   patterns of the values), a label byte and 3 bytes of padding;
//! - `n_nodes` nodes of 16 bytes: vantage point index, threshold key, left
//!   child, right child.
use vstd::prelude::*;
use crate::DIMS;
use crate::vptree::{Point, VpNode, VpTree, child_in, child_subtree, closed, subtree};
use vstd::multiset::Multiset;
use crate::NULL_NODE;

verus! {

/// Bytes of the header.
pub const HEADER_BYTES: usize = 12;

/// Bytes of a point record.
pub const POINT_BYTES: usize = 60;

/// Bytes of a node record.
pub const NODE_BYTES: usize = 16;

/// The little-endian 32-bit integer at `at`.
pub open spec fn le_u32(b: Seq<u8>, at: int) -> u32 {
    (b[at] + 256 * b[at + 1] + 65536 * b[at + 2] + 16777216 * b[at + 3]) as u32
}

pub open spec fn header_points(b: Seq<u8>) -> int {
    le_u32(b, 0) as int
}

pub open spec fn header_nodes(b: Seq<u8>) -> int {
    le_u32(b, 4) as int
}

pub open spec fn header_root(b: Seq<u8>) -> u32 {
    le_u32(b, 8)
}

/// Offset of point `i`.
pub open spec fn point_offset(i: int) -> int {
    12 + 60 * i
}

/// Offset of node `j`, after `np` points.
pub open spec fn node_offset(np: int, j: int) -> int {
    12 + 60 * np + 16 * j
}

/// Every field the loader reads lies within `b`: the header, the features
/// and label of each point (the padding of the last point may be cut off
/// when there are no nodes) and every node.
pub open spec fn layout_complete(b: Seq<u8>) -> bool {
    &&& b.len() >= 12
    &&& header_points(b) == 0 || b.len() >= 60 * header_points(b) + 9
    &&& header_nodes(b) == 0 || b.len() >= node_offset(header_points(b), header_nodes(b))
}

/// Feature `k` of point `i` as stored.
pub open spec fn stored_feature(b: Seq<u8>, i: int, k: int) -> u32 {
    le_u32(b, point_offset(i) + 4 * k)
}

/// Node `j` as stored.
pub open spec fn stored_node(b: Seq<u8>, j: int) -> VpNode {
    let at = node_offset(header_points(b), j);
    VpNode {
        vp_idx: le_u32(b, at),
        thresh_sq: le_u32(b, at + 4),
        left: le_u32(b, at + 8),
        right: le_u32(b, at + 12),
    }
}

/// The KNN index: points (features as bit patterns), their labels and the
/// tree nodes.
pub struct Index {
    pub n_points: usize,
    pub n_nodes: usize,
    root: u32,
    points: Vec<[u32; DIMS]>,
    labels: Vec<u8>,
    nodes: Vec<VpNode>,
}

/// The little-endian integer in `data[at..at + 4]`.
fn read_u32(data: &[u8], at: usize) -> (r: u32)
    requires
        at + 4 <= data@.len(),
    ensures
        r == le_u32(data@, at as int),
{
    data[at] as u32 + 256 * data[at + 1] as u32 + 65536 * data[at + 2] as u32 + 16777216
        * data[at + 3] as u32
}

/// The walk from node `c` ends within `depth` levels: every node it meets
/// exists (`NULL_NODE` ends a path).
pub open spec fn walk_ends(nodes: Seq<VpNode>, c: u32, depth: nat) -> bool
    decreases depth,
{
    c == NULL_NODE || (depth > 0 && c < nodes.len() && walk_ends(
        nodes,
        nodes[c as int].left,
        (depth - 1) as nat,
    ) && walk_ends(nodes, nodes[c as int].right, (depth - 1) as nat))
}

/// The vantage points met within `depth` levels of the walk from node `c`.
pub open spec fn points_within(nodes: Seq<VpNode>, c: u32, depth: nat) -> Multiset<u32>
    decreases depth,
{
    if c == NULL_NODE || depth == 0 || c >= nodes.len() {
        Multiset::empty()
    } else {
        let n = nodes[c as int];
        Multiset::singleton(n.vp_idx).add(points_within(nodes, n.left, (depth - 1) as nat)).add(
            points_within(nodes, n.right, (depth - 1) as nat),
        )
    }
}

/// The walk from node `c` ends.
pub open spec fn walk_finite(nodes: Seq<VpNode>, c: u32) -> bool {
    exists|d: nat| walk_ends(nodes, c, d)
}

/// The points of the subtree under node `c`: those its walk meets.
pub open spec fn points_under(nodes: Seq<VpNode>, c: u32) -> Multiset<u32> {
    points_within(nodes, c, choose|d: nat| walk_ends(nodes, c, d))
}

/// A walk that ends within `d1` levels ends within more, meeting the same
/// points.
proof fn lemma_within_stable(nodes: Seq<VpNode>, c: u32, d1: nat, d2: nat)
    requires
        walk_ends(nodes, c, d1),
        d1 <= d2,
    ensures
        walk_ends(nodes, c, d2),
        points_within(nodes, c, d1) == points_within(nodes, c, d2),
    decreases d1,
{
    if c != NULL_NODE {
        let n = nodes[c as int];
        lemma_within_stable(nodes, n.left, (d1 - 1) as nat, (d2 - 1) as nat);
        lemma_within_stable(nodes, n.right, (d1 - 1) as nat, (d2 - 1) as nat);
    }
}

/// The points under `c` are those met within any depth at which the walk
/// ends.
pub proof fn lemma_points_under(nodes: Seq<VpNode>, c: u32, d: nat)
    requires
        walk_ends(nodes, c, d),
    ensures
        walk_finite(nodes, c),
        points_under(nodes, c) == points_within(nodes, c, d),
{
    let d0 = choose|d: nat| walk_ends(nodes, c, d);
    if d0 <= d {
        lemma_within_stable(nodes, c, d0, d);
    } else {
        lemma_within_stable(nodes, c, d, d0);
    }
}

/// The points of a subtree are vantage points of nodes, so they are below
/// any bound on those.
pub proof fn lemma_subtree_below(nodes: Seq<VpNode>, k: int, bound: int)
    requires
        forall|j: int| 0 <= j < nodes.len() ==> (#[trigger] nodes[j]).vp_idx < bound,
    ensures
        forall|p: u32| #[trigger] subtree(nodes, k).count(p) > 0 ==> p < bound,
    decreases nodes.len() - k,
{
    if 0 <= k < nodes.len() {
        let n = nodes[k];
        let l = child_subtree(nodes, k, n.left);
        let r = child_subtree(nodes, k, n.right);
        if n.left != NULL_NODE && k < n.left < nodes.len() {
            lemma_subtree_below(nodes, n.left as int, bound);
        }
        if n.right != NULL_NODE && k < n.right < nodes.len() {
            lemma_subtree_below(nodes, n.right as int, bound);
        }
        assert(subtree(nodes, k) == Multiset::singleton(n.vp_idx).add(l).add(r));
        assert forall|p: u32| #[trigger] subtree(nodes, k).count(p) > 0 implies p < bound by {
            assert(subtree(nodes, k).count(p) == Multiset::singleton(n.vp_idx).count(p) + l.count(p)
                + r.count(p));
        }
    }
}

/// In nodes that link only to later nodes, the walk from node `k` ends within
/// the number of nodes from `k` on, and meets the points of its subtree.
pub proof fn lemma_ordered_walk(nodes: Seq<VpNode>, k: int)
    requires
        nodes.len() <= NULL_NODE,
        closed(nodes, 0, nodes.len() as int),
        0 <= k < nodes.len(),
    ensures
        walk_ends(nodes, k as u32, (nodes.len() - k) as nat),
        points_within(nodes, k as u32, (nodes.len() - k) as nat) == subtree(nodes, k),
        points_under(nodes, k as u32) == subtree(nodes, k),
    decreases nodes.len() - k,
{
    let len = nodes.len() as int;
    let n = nodes[k];
    let d = (len - k - 1) as nat;
    assert(child_in(n.left, k, len) && child_in(n.right, k, len));
    if n.left != NULL_NODE {
        lemma_ordered_walk(nodes, n.left as int);
        lemma_within_stable(nodes, n.left, (len - n.left) as nat, d);
    }
    if n.right != NULL_NODE {
        lemma_ordered_walk(nodes, n.right as int);
        lemma_within_stable(nodes, n.right, (len - n.right) as nat, d);
    }
    assert((k as u32) as int == k);
    let c = k as u32;
    assert(c != NULL_NODE);
    assert(nodes[c as int] == n);
    assert(walk_ends(nodes, n.left, d));
    assert(walk_ends(nodes, n.right, d));
    assert(points_within(nodes, n.left, d) == child_subtree(nodes, k, n.left));
    assert(points_within(nodes, n.right, d) == child_subtree(nodes, k, n.right));
    assert(subtree(nodes, k) == Multiset::singleton(n.vp_idx).add(
        child_subtree(nodes, k, n.left),
    ).add(child_subtree(nodes, k, n.right)));
    assert(((len - k) as nat - 1) as nat == d);
    assert(walk_ends(nodes, k as u32, (len - k) as nat));
    assert(points_within(nodes, k as u32, (len - k) as nat) =~= subtree(nodes, k));
    lemma_points_under(nodes, k as u32, (len - k) as nat);
}

/// Nodes that link only to later nodes, each naming a stored point, can be
/// walked from any root that is a node or absent, and meet only stored points.
pub proof fn lemma_search_order_well_formed(nodes: Seq<VpNode>, root: u32, n_points: int)
    requires
        nodes.len() <= NULL_NODE,
        closed(nodes, 0, nodes.len() as int),
        forall|j: int| 0 <= j < nodes.len() ==> (#[trigger] nodes[j]).vp_idx < n_points,
        root == NULL_NODE || root < nodes.len(),
    ensures
        walk_finite(nodes, root),
        forall|p: u32| #[trigger] points_under(nodes, root).count(p) > 0 ==> p < n_points,
{
    if root == NULL_NODE {
        lemma_points_under(nodes, root, 0);
    } else {
        lemma_ordered_walk(nodes, root as int);
        lemma_subtree_below(nodes, root as int, n_points);
    }
}

impl Index {
    pub closed spec fn spec_n_points(&self) -> usize {
        self.n_points
    }

    pub closed spec fn spec_n_nodes(&self) -> usize {
        self.n_nodes
    }

    pub closed spec fn spec_root(&self) -> u32 {
        self.root
    }

    pub closed spec fn spec_points(&self) -> Seq<[u32; DIMS]> {
        self.points@
    }

    pub closed spec fn spec_labels(&self) -> Seq<u8> {
        self.labels@
    }

    pub closed spec fn spec_nodes(&self) -> Seq<VpNode> {
        self.nodes@
    }

    /// Number of points (the public field `n_points`).
    pub fn n_points(&self) -> (r: usize)
        ensures
            r == self.spec_n_points(),
    {
        self.n_points
    }

    /// Number of nodes (the public field `n_nodes`).
    pub fn n_nodes(&self) -> (r: usize)
        ensures
            r == self.spec_n_nodes(),
    {
        self.n_nodes
    }

    /// The root node (`NULL_NODE` for an empty tree).
    pub fn root(&self) -> (r: u32)
        ensures
            r == self.spec_root(),
    {
        self.root
    }

    /// The points' features, as bit patterns.
    pub fn points(&self) -> (r: &Vec<[u32; DIMS]>)
        ensures
            r@ == self.spec_points(),
    {
        &self.points
    }

    /// The points' labels.
    pub fn labels(&self) -> (r: &Vec<u8>)
        ensures
            r@ == self.spec_labels(),
    {
        &self.labels
    }

    /// The tree nodes.
    pub fn nodes(&self) -> (r: &Vec<VpNode>)
        ensures
            r@ == self.spec_nodes(),
    {
        &self.nodes
    }

    /// The search can walk the index: each point has a label, the walk from
    /// the root ends (every node it meets exists, and no path loops), and every
    /// point it meets is stored.
    pub open spec fn well_formed(&self) -> bool {
        let nodes = self.spec_nodes();
        &&& self.spec_labels().len() == self.spec_points().len()
        &&& walk_finite(nodes, self.spec_root())
        &&& forall|p: u32|
            #[trigger] points_under(nodes, self.spec_root()).count(p) > 0 ==> p
                < self.spec_points().len()
    }

    /// The layout the index builder writes: every node names a stored point
    /// and links only to later nodes, the root is a node or absent, and each
    /// point has a label.
    pub open spec fn in_search_order(&self) -> bool {
        let nodes = self.spec_nodes();
        &&& self.spec_labels().len() == self.spec_points().len()
        &&& nodes.len() <= NULL_NODE
        &&& forall|j: int|
            0 <= j < nodes.len() ==> (#[trigger] nodes[j]).vp_idx < self.spec_points().len()
                && child_in(nodes[j].left, j, nodes.len() as int) && child_in(
                nodes[j].right,
                j,
                nodes.len() as int,
            )
        &&& self.spec_root() == NULL_NODE || self.spec_root() < nodes.len()
    }

    /// Whether the index is in the layout the index builder writes (see
    /// `in_search_order`); such an index is well formed.
    pub fn is_in_search_order(&self) -> (r: bool)
        ensures
            r == self.in_search_order(),
            r ==> self.well_formed(),
    {
        if self.labels.len() != self.points.len() {
            return false;
        }
        let len = self.nodes.len();
        if len > 0xffff_ffff {
            return false;
        }
        let mut j: usize = 0;
        while j < len
            invariant
                len == self.nodes@.len(),
                len <= NULL_NODE,
                j <= len,
                forall|k: int|
                    0 <= k < j ==> (#[trigger] self.nodes@[k]).vp_idx < self.points@.len()
                        && child_in(self.nodes@[k].left, k, len as int) && child_in(
                        self.nodes@[k].right,
                        k,
                        len as int,
                    ),
            decreases len - j,
        {
            let nd = self.nodes[j];
            if nd.vp_idx as usize >= self.points.len() {
                return false;
            }
            if nd.left != NULL_NODE && !(j < nd.left as usize && (nd.left as usize) < len) {
                return false;
            }
            if nd.right != NULL_NODE && !(j < nd.right as usize && (nd.right as usize) < len) {
                return false;
            }
            j = j + 1;
        }
        let r = self.root == NULL_NODE || (self.root as usize) < len;
        proof {
            if r {
                lemma_search_order_well_formed(self.nodes@, self.root, self.points@.len() as int);
            }
        }
        r
    }

    /// Whether `data` holds every field that `load` reads (`load` requires
    /// it).
    pub fn layout_complete(data: &[u8]) -> (r: bool)
        ensures
            r == layout_complete(data@),
    {
        if data.len() < 12 {
            return false;
        }
        let np = read_u32(data, 0) as u64;
        let nn = read_u32(data, 4) as u64;
        let len = data.len() as u64;
        if np != 0 && len < 60 * np + 9 {
            return false;
        }
        if nn != 0 && len < 12 + 60 * np + 16 * nn {
            return false;
        }
        true
    }

    /// The index holds what the binary layout `b` stores: the counts, the
    /// root, each feature and label, and each node.
    pub open spec fn reads(&self, b: Seq<u8>) -> bool {
        &&& self.spec_n_points() == header_points(b)
        &&& self.spec_n_nodes() == header_nodes(b)
        &&& self.spec_root() == header_root(b)
        &&& self.spec_points().len() == self.spec_n_points()
        &&& self.spec_labels().len() == self.spec_n_points()
        &&& self.spec_nodes().len() == self.spec_n_nodes()
        &&& forall|i: int, k: int|
            0 <= i < self.spec_n_points() && 0 <= k < DIMS ==> #[trigger] self.spec_points()[i][k]
                == stored_feature(b, i, k)
        &&& forall|i: int|
            0 <= i < self.spec_n_points() ==> #[trigger] self.spec_labels()[i] == b[point_offset(i)
                + 56]
        &&& forall|j: int|
            0 <= j < self.spec_n_nodes() ==> #[trigger] self.spec_nodes()[j] == stored_node(b, j)
    }

    /// Reads an index from its binary layout.
    pub fn load(data: &[u8]) -> (r: Index)
        requires
            layout_complete(data@),
        ensures
            r.reads(data@),
    {
        let n_points = read_u32(data, 0) as usize;
        let n_nodes = read_u32(data, 4) as usize;
        let root = read_u32(data, 8);
        let dlen = data.len();
        let mut cur: usize = 12;
        let mut points: Vec<[u32; DIMS]> = Vec::new();
        let mut labels: Vec<u8> = Vec::new();
        let mut p: usize = 0;
        while p < n_points
            invariant
                dlen == data@.len(),
                layout_complete(data@),
                n_points == header_points(data@),
                p <= n_points,
                cur == point_offset(p as int),
                points@.len() == p,
                labels@.len() == p,
                forall|i: int, k: int|
                    0 <= i < p && 0 <= k < DIMS ==> #[trigger] points@[i][k] == stored_feature(
                        data@,
                        i,
                        k,
                    ),
                forall|i: int| 0 <= i < p ==> #[trigger] labels@[i] == data@[point_offset(i) + 56],
            decreases n_points - p,
        {
            let mut v = [0u32; 14];
            let mut k: usize = 0;
            while k < DIMS
                invariant
                    dlen == data@.len(),
                    layout_complete(data@),
                    n_points == header_points(data@),
                    p < n_points,
                    k <= DIMS,
                    cur == point_offset(p as int) + 4 * k,
                    forall|q: int| 0 <= q < k ==> v@[q] == stored_feature(data@, p as int, q),
                decreases DIMS - k,
            {
                v[k] = read_u32(data, cur);
                cur = cur + 4;
                k = k + 1;
            }
            let label = data[cur];
            cur = cur + 4;
            points.push(v);
            labels.push(label);
            p = p + 1;
        }
        let mut nodes: Vec<VpNode> = Vec::new();
        let mut j: usize = 0;
        while j < n_nodes
            invariant
                dlen == data@.len(),
                layout_complete(data@),
                n_points == header_points(data@),
                n_nodes == header_nodes(data@),
                j <= n_nodes,
                cur == node_offset(n_points as int, j as int),
                nodes@.len() == j,
                forall|q: int| 0 <= q < j ==> #[trigger] nodes@[q] == stored_node(data@, q),
            decreases n_nodes - j,
        {
            let vp_idx = read_u32(data, cur);
            let thresh_sq = read_u32(data, cur + 4);
            let left = read_u32(data, cur + 8);
            let right = read_u32(data, cur + 12);
            nodes.push(VpNode { vp_idx, thresh_sq, left, right });
            cur = cur + 16;
            j = j + 1;
        }
        Index { n_points, n_nodes, root, points, labels, nodes }
    }
}

/// The four little-endian bytes of `x`.
pub open spec fn le_bytes(x: u32) -> Seq<u8> {
    seq![
        (x & 0xff) as u8,
        ((x >> 8u32) & 0xff) as u8,
        ((x >> 16u32) & 0xff) as u8,
        ((x >> 24u32) & 0xff) as u8,
    ]
}

/// The images of the elements of `s` under `f`, one after another.
pub open spec fn concat_map<A>(s: Seq<A>, f: spec_fn(A) -> Seq<u8>) -> Seq<u8>
    decreases s.len(),
{
    if s.len() == 0 {
        Seq::empty()
    } else {
        concat_map(s.drop_last(), f) + f(s.last())
    }
}

/// A point record: the 14 features, the label and 3 zero bytes.
pub open spec fn point_bytes(p: Point) -> Seq<u8> {
    concat_map(p.v@, |x: u32| le_bytes(x)) + seq![p.label, 0u8, 0u8, 0u8]
}

/// A node record.
pub open spec fn node_bytes(n: VpNode) -> Seq<u8> {
    le_bytes(n.vp_idx) + le_bytes(n.thresh_sq) + le_bytes(n.left) + le_bytes(n.right)
}

/// The binary index of a tree.
pub open spec fn index_bytes(points: Seq<Point>, nodes: Seq<VpNode>, root: u32) -> Seq<u8> {
    le_bytes(points.len() as u32) + le_bytes(nodes.len() as u32) + le_bytes(root) + concat_map(
        points,
        |p: Point| point_bytes(p),
    ) + concat_map(nodes, |n: VpNode| node_bytes(n))
}

/// Reading back the four bytes of `x` gives `x`.
proof fn lemma_le_read(b: Seq<u8>, at: int, x: u32)
    requires
        0 <= at,
        at + 4 <= b.len(),
        forall|k: int| 0 <= k < 4 ==> #[trigger] b[at + k] == le_bytes(x)[k],
    ensures
        le_u32(b, at) == x,
{
    let a0 = x & 0xff;
    let a1 = (x >> 8u32) & 0xff;
    let a2 = (x >> 16u32) & 0xff;
    let a3 = (x >> 24u32) & 0xff;
    assert(a0 < 256 && a1 < 256 && a2 < 256 && a3 < 256) by (bit_vector)
        requires
            a0 == x & 0xff,
            a1 == (x >> 8u32) & 0xff,
            a2 == (x >> 16u32) & 0xff,
            a3 == (x >> 24u32) & 0xff,
    ;
    assert(a0 + 256 * a1 + 65536 * a2 + 16777216 * a3 == x) by (bit_vector)
        requires
            a0 == x & 0xff,
            a1 == (x >> 8u32) & 0xff,
            a2 == (x >> 16u32) & 0xff,
            a3 == (x >> 24u32) & 0xff,
    ;
    assert(b[at + 0] == a0);
    assert(b[at + 1] == a1);
    assert(b[at + 2] == a2);
    assert(b[at + 3] == a3);
}

/// Element `t` of the image of element `i` sits at `c * i + t` when every
/// image has length `c`.
proof fn lemma_concat_map_index<A>(s: Seq<A>, f: spec_fn(A) -> Seq<u8>, c: int)
    requires
        0 <= c,
        forall|a: A| #[trigger] f(a).len() == c,
    ensures
        concat_map(s, f).len() == c * s.len(),
        forall|i: int, t: int|
            0 <= i < s.len() && 0 <= t < c ==> concat_map(s, f)[c * i + t] == #[trigger] f(
                s[i],
            )[t],
    decreases s.len(),
{
    if s.len() > 0 {
        let d = s.drop_last();
        let m = d.len();
        lemma_concat_map_index(d, f, c);
        assert(concat_map(s, f) == concat_map(d, f) + f(s.last()));
        assert(f(s.last()).len() == c);
        assert(c * s.len() == c * m + c) by (nonlinear_arith)
            requires
                s.len() == m + 1,
        ;
        assert forall|i: int, t: int| 0 <= i < s.len() && 0 <= t < c implies concat_map(s, f)[c
            * i + t] == #[trigger] f(s[i])[t] by {
            if i < m {
                assert(c * i + t < c * m) by (nonlinear_arith)
                    requires
                        0 <= i < m,
                        0 <= t < c,
                ;
                assert(0 <= c * i) by (nonlinear_arith)
                    requires
                        0 <= i,
                        0 <= c,
                ;
                assert(s[i] == d[i]);
            } else {
                assert(c * i == c * m);
            }
        }
    } else {
        assert(c * s.len() == 0) by (nonlinear_arith)
            requires
                s.len() == 0,
        ;
    }
}

/// Law: loading reads back what `encode_index` wrote. The binary index of
/// any points, nodes and root holds every field the loader reads, and the
/// loader finds there the numbers of points and nodes, the root, each
/// feature and label, and each node.
#[verifier::rlimit(40)]
pub proof fn lemma_load_reads_back(points: Seq<Point>, nodes: Seq<VpNode>, root: u32)
    requires
        points.len() <= 0xffff_ffff,
        nodes.len() <= 0xffff_ffff,
    ensures
        ({
            let b = index_bytes(points, nodes, root);
            &&& b.len() == 12 + 60 * points.len() + 16 * nodes.len()
            &&& layout_complete(b)
            &&& header_points(b) == points.len()
            &&& header_nodes(b) == nodes.len()
            &&& header_root(b) == root
            &&& forall|i: int, k: int|
                0 <= i < points.len() && 0 <= k < DIMS ==> #[trigger] stored_feature(b, i, k)
                    == points[i].v@[k]
            &&& forall|i: int| 0 <= i < points.len() ==> b[point_offset(i) + 56] == #[trigger] points[i].label
            &&& forall|j: int| 0 <= j < nodes.len() ==> #[trigger] stored_node(b, j) == nodes[j]
        }),
{
    let b = index_bytes(points, nodes, root);
    let np = points.len() as int;
    let nn = nodes.len() as int;
    let fp = |p: Point| point_bytes(p);
    let fn_ = |n: VpNode| node_bytes(n);
    let fl = |x: u32| le_bytes(x);
    let h = le_bytes(points.len() as u32) + le_bytes(nodes.len() as u32) + le_bytes(root);
    let pb = concat_map(points, fp);
    let nb = concat_map(nodes, fn_);
    assert forall|p: Point| #[trigger] fp(p).len() == 60 by {
        lemma_concat_map_index(p.v@, fl, 4);
    }
    assert forall|n: VpNode| #[trigger] fn_(n).len() == 16 by {
    }
    lemma_concat_map_index(points, fp, 60);
    lemma_concat_map_index(nodes, fn_, 16);
    assert(b =~= h + pb + nb);
    assert(h.len() == 12);
    assert(b.len() == 12 + 60 * np + 16 * nn);
    // header
    lemma_le_read(b, 0, points.len() as u32);
    lemma_le_read(b, 4, nodes.len() as u32);
    lemma_le_read(b, 8, root);
    // points
    assert forall|i: int, k: int| 0 <= i < np && 0 <= k < DIMS implies #[trigger] stored_feature(
        b,
        i,
        k,
    ) == points[i].v@[k] by {
        let p = points[i];
        lemma_concat_map_index(p.v@, fl, 4);
        assert forall|t: int| 0 <= t < 4 implies #[trigger] b[point_offset(i) + 4 * k + t]
            == le_bytes(p.v@[k])[t] by {
            assert(b[12 + (60 * i + (4 * k + t))] == pb[60 * i + (4 * k + t)]);
            assert(pb[60 * i + (4 * k + t)] == fp(points[i])[4 * k + t]);
            assert(fp(p)[4 * k + t] == concat_map(p.v@, fl)[4 * k + t]);
            assert(concat_map(p.v@, fl)[4 * k + t] == fl(p.v@[k])[t]);
        }
        lemma_le_read(b, point_offset(i) + 4 * k, p.v@[k]);
    }
    assert forall|i: int| 0 <= i < np implies b[point_offset(i) + 56] == #[trigger] points[i].label by {
        let p = points[i];
        lemma_concat_map_index(p.v@, fl, 4);
        assert(b[12 + (60 * i + 56)] == pb[60 * i + 56]);
        assert(fp(p)[56] == p.label);
    }
    // nodes
    assert forall|j: int| 0 <= j < nn implies #[trigger] stored_node(b, j) == nodes[j] by {
        let n = nodes[j];
        let at = node_offset(np, j);
        assert forall|f: int, t: int| 0 <= f < 4 && 0 <= t < 4 implies #[trigger] b[at + 4 * f + t]
            == nb[16 * j + (4 * f + t)] by {
            assert(at + 4 * f + t == 12 + 60 * np + (16 * j + (4 * f + t)));
        }
        let nbj = fn_(nodes[j]);
        assert(nbj =~= le_bytes(n.vp_idx) + le_bytes(n.thresh_sq) + le_bytes(n.left) + le_bytes(
            n.right,
        ));
        assert forall|f: int, t: int| 0 <= f < 4 && 0 <= t < 4 implies #[trigger] b[at + 4 * f + t]
            == nbj[4 * f + t] by {
            assert(b[at + 4 * f + t] == nb[16 * j + (4 * f + t)]);
            assert(nb[16 * j + (4 * f + t)] == fn_(nodes[j])[4 * f + t]);
        }
        assert forall|t: int| 0 <= t < 4 implies #[trigger] b[at + t] == le_bytes(n.vp_idx)[t] by {
            assert(b[at + 4 * 0 + t] == nbj[4 * 0 + t]);
        }
        assert forall|t: int| 0 <= t < 4 implies #[trigger] b[at + 4 + t] == le_bytes(n.thresh_sq)[t] by {
            assert(b[at + 4 * 1 + t] == nbj[4 * 1 + t]);
        }
        assert forall|t: int| 0 <= t < 4 implies #[trigger] b[at + 8 + t] == le_bytes(n.left)[t] by {
            assert(b[at + 4 * 2 + t] == nbj[4 * 2 + t]);
        }
        assert forall|t: int| 0 <= t < 4 implies #[trigger] b[at + 12 + t] == le_bytes(n.right)[t] by {
            assert(b[at + 4 * 3 + t] == nbj[4 * 3 + t]);
        }
        lemma_le_read(b, at, n.vp_idx);
        lemma_le_read(b, at + 4, n.thresh_sq);
        lemma_le_read(b, at + 8, n.left);
        lemma_le_read(b, at + 12, n.right);
    }
}

/// Law: numbers are written little-endian. The four bytes `le_bytes` gives
/// for `x` are its base-256 digits, least significant first, and `le_u32`
/// reads a number back from such digits.
pub proof fn lemma_little_endian(x: u32)
    ensures
        le_bytes(x).len() == 4,
        le_bytes(x)[0] == x % 256,
        le_bytes(x)[1] == (x / 256) % 256,
        le_bytes(x)[2] == (x / 65536) % 256,
        le_bytes(x)[3] == x / 16777216,
        le_u32(le_bytes(x), 0) == x,
{
    assert(x & 0xff == x % 256 && (x >> 8u32) & 0xff == (x / 256) % 256 && (x >> 16u32) & 0xff == (x
        / 65536) % 256 && (x >> 24u32) & 0xff == x / 16777216) by (bit_vector);
    let b = le_bytes(x);
    assert forall|k: int| 0 <= k < 4 implies #[trigger] b[0 + k] == le_bytes(x)[k] by {}
    lemma_le_read(b, 0, x);
}

/// Law: the byte layout that `encode_index` writes. The header holds the
/// number of points at byte 0, the number of nodes at byte 4 and the root at
/// byte 8; point `i` starts at byte `12 + 60 i` with its 14 features, 4 bytes
/// each, then its label at byte 56 of the record; node `j` starts after the
/// points, at `12 + 60 n + 16 j`, with its vantage point, threshold, left child
/// and right child, 4 bytes each, in that order; every number little-endian.
pub proof fn lemma_index_byte_layout(points: Seq<Point>, nodes: Seq<VpNode>, root: u32)
    requires
        points.len() <= 0xffff_ffff,
        nodes.len() <= 0xffff_ffff,
    ensures
        ({
            let b = index_bytes(points, nodes, root);
            let n = points.len() as int;
            &&& b.len() == 12 + 60 * n + 16 * nodes.len()
            &&& le_u32(b, 0) == points.len()
            &&& le_u32(b, 4) == nodes.len()
            &&& le_u32(b, 8) == root
            &&& forall|i: int, k: int|
                0 <= i < n && 0 <= k < 14 ==> #[trigger] le_u32(b, 12 + 60 * i + 4 * k)
                    == points[i].v@[k]
            &&& forall|i: int| 0 <= i < n ==> #[trigger] b[12 + 60 * i + 56] == points[i].label
            &&& forall|j: int|
                0 <= j < nodes.len() ==> {
                    &&& #[trigger] le_u32(b, 12 + 60 * n + 16 * j) == nodes[j].vp_idx
                    &&& le_u32(b, 12 + 60 * n + 16 * j + 4) == nodes[j].thresh_sq
                    &&& le_u32(b, 12 + 60 * n + 16 * j + 8) == nodes[j].left
                    &&& le_u32(b, 12 + 60 * n + 16 * j + 12) == nodes[j].right
                }
        }),
{
    lemma_load_reads_back(points, nodes, root);
    let b = index_bytes(points, nodes, root);
    let n = points.len() as int;
    assert forall|i: int, k: int| 0 <= i < n && 0 <= k < 14 implies #[trigger] le_u32(
        b,
        12 + 60 * i + 4 * k,
    ) == points[i].v@[k] by {
        assert(stored_feature(b, i, k) == points[i].v@[k]);
    }
    assert forall|i: int| 0 <= i < n implies #[trigger] b[12 + 60 * i + 56] == points[i].label by {
        assert(b[point_offset(i) + 56] == points[i].label);
    }
    assert forall|j: int| 0 <= j < nodes.len() implies {
        &&& #[trigger] le_u32(b, 12 + 60 * n + 16 * j) == nodes[j].vp_idx
        &&& le_u32(b, 12 + 60 * n + 16 * j + 4) == nodes[j].thresh_sq
        &&& le_u32(b, 12 + 60 * n + 16 * j + 8) == nodes[j].left
        &&& le_u32(b, 12 + 60 * n + 16 * j + 12) == nodes[j].right
    } by {
        assert(stored_node(b, j) == nodes[j]);
    }
}

/// Law: what `load` reads from where. The index loaded from bytes `b` has
/// the numbers of points and nodes of bytes 0 and 4 and the root of byte 8;
/// feature `k` of point `i` is the little-endian number at `12 + 60 i + 4 k`
/// and its label the byte at `12 + 60 i + 56`; node `j`, after the `n`
/// points, has its vantage point, threshold, left child and right child at
/// `12 + 60 n + 16 j` plus 0, 4, 8 and 12.
pub proof fn lemma_load_byte_layout(idx: Index, b: Seq<u8>)
    requires
        idx.reads(b),
    ensures
        idx.spec_n_points() == le_u32(b, 0),
        idx.spec_n_nodes() == le_u32(b, 4),
        idx.spec_root() == le_u32(b, 8),
        forall|i: int, k: int|
            0 <= i < idx.spec_n_points() && 0 <= k < 14 ==> #[trigger] idx.spec_points()[i][k]
                == le_u32(b, 12 + 60 * i + 4 * k),
        forall|i: int|
            0 <= i < idx.spec_n_points() ==> #[trigger] idx.spec_labels()[i] == b[12 + 60 * i + 56],
        forall|j: int|
            0 <= j < idx.spec_n_nodes() ==> {
                let n = idx.spec_n_points() as int;
                let nd = #[trigger] idx.spec_nodes()[j];
                &&& nd.vp_idx == le_u32(b, 12 + 60 * n + 16 * j)
                &&& nd.thresh_sq == le_u32(b, 12 + 60 * n + 16 * j + 4)
                &&& nd.left == le_u32(b, 12 + 60 * n + 16 * j + 8)
                &&& nd.right == le_u32(b, 12 + 60 * n + 16 * j + 12)
            },
{
}

/// Appends the little-endian bytes of `x`.
fn push_u32(out: &mut Vec<u8>, x: u32)
    ensures
        final(out)@ == old(out)@ + le_bytes(x),
{
    out.push((x & 0xff) as u8);
    out.push(((x >> 8) & 0xff) as u8);
    out.push(((x >> 16) & 0xff) as u8);
    out.push(((x >> 24) & 0xff) as u8);
    proof {
        assert(final(out)@ =~= old(out)@ + le_bytes(x));
    }
}

/// The binary index of a built tree, as the index builder writes it.
pub fn encode_index(tree: &VpTree) -> (r: Vec<u8>)
    requires
        tree.points@.len() <= 0xffff_ffff,
        tree.nodes@.len() <= 0xffff_ffff,
    ensures
        r@ == index_bytes(tree.points@, tree.nodes@, tree.root),
{
    let mut out: Vec<u8> = Vec::new();
    push_u32(&mut out, tree.points.len() as u32);
    push_u32(&mut out, tree.nodes.len() as u32);
    push_u32(&mut out, tree.root);
    let ghost header = out@;
    let mut i: usize = 0;
    while i < tree.points.len()
        invariant
            i <= tree.points@.len(),
            out@ == header + concat_map(tree.points@.take(i as int), |p: Point| point_bytes(p)),
        decreases tree.points@.len() - i,
    {
        let p = &tree.points[i];
        let ghost before = out@;
        let mut k: usize = 0;
        while k < 14
            invariant
                k <= 14,
                out@ == before + concat_map(p.v@.take(k as int), |x: u32| le_bytes(x)),
            decreases 14 - k,
        {
            push_u32(&mut out, p.v[k]);
            proof {
                assert(p.v@.take(k + 1).drop_last() =~= p.v@.take(k as int));
            }
            k = k + 1;
        }
        out.push(p.label);
        out.push(0);
        out.push(0);
        out.push(0);
        proof {
            assert(p.v@.take(14) =~= p.v@);
            assert(tree.points@.take(i + 1).drop_last() =~= tree.points@.take(i as int));
            assert(out@ =~= header + concat_map(tree.points@.take(i + 1), |p: Point| point_bytes(p)));
        }
        i = i + 1;
    }
    proof {
        assert(tree.points@.take(tree.points@.len() as int) =~= tree.points@);
    }
    let ghost middle = out@;
    let mut j: usize = 0;
    while j < tree.nodes.len()
        invariant
            j <= tree.nodes@.len(),
            out@ == middle + concat_map(tree.nodes@.take(j as int), |n: VpNode| node_bytes(n)),
        decreases tree.nodes@.len() - j,
    {
        let n = tree.nodes[j];
        push_u32(&mut out, n.vp_idx);
        push_u32(&mut out, n.thresh_sq);
        push_u32(&mut out, n.left);
        push_u32(&mut out, n.right);
        proof {
            assert(tree.nodes@.take(j + 1).drop_last() =~= tree.nodes@.take(j as int));
            assert(out@ =~= middle + concat_map(tree.nodes@.take(j + 1), |n: VpNode| node_bytes(n)));
        }
        j = j + 1;
    }
    proof {
        assert(tree.nodes@.take(tree.nodes@.len() as int) =~= tree.nodes@);
        assert(out@ =~= index_bytes(tree.points@, tree.nodes@, tree.root));
    }
    out
}

} // verus!
