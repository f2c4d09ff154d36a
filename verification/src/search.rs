//! Nearest-neighbour search in a loaded index.
use vstd::prelude::*;
use vstd::multiset::Multiset;
use crate::{DIMS, NULL_NODE};
use crate::index::{
    Index, index_bytes, lemma_load_reads_back, lemma_ordered_walk, lemma_points_under,
    lemma_search_order_well_formed, lemma_subtree_below, points_under, points_within, walk_ends,
};
use crate::knn::{
    INFINITY_KEY, K, KnnHeap, Neighbor, FraudScore, keeps_nearest, keeps_offered, key_less,
    key_less_than, keys_at_most_infinity, score_of, worst_key, lemma_keys_below_worst,
    lemma_push_keeps_nearest, lemma_push_keeps_offered, lemma_push_worst,
};
use crate::vptree::{
    Point, VpNode, child_in, child_subtree, subtree, dist_callable, identity_indices, tree_ok,
};

verus! {

/// A visit of the search: the vantage point and the neighbour it offered
/// (distance key and label).
pub type Visit = (u32, Neighbor);

/// Each visit offered the point's label with a distance key that the
/// distance function gave between the query and the point.
pub open spec fn visits_ok<F: Fn(&[u32; DIMS], &[u32; DIMS]) -> u32>(
    points: Seq<[u32; DIMS]>,
    labels: Seq<u8>,
    q: [u32; DIMS],
    dist: F,
    log: Seq<Visit>,
) -> bool {
    forall|i: int|
        0 <= i < log.len() ==> {
            let v = #[trigger] log[i];
            &&& v.0 < points.len()
            &&& v.1.1 == labels[v.0 as int]
            &&& call_ensures(dist, (&q, &points[v.0 as int]), v.1.0)
        }
}

/// The points visited.
pub open spec fn visited_points(log: Seq<Visit>) -> Multiset<u32> {
    log.map_values(|v: Visit| v.0).to_multiset()
}

/// The neighbours offered.
pub open spec fn offered(log: Seq<Visit>) -> Multiset<Neighbor> {
    log.map_values(|v: Visit| v.1).to_multiset()
}

/// The pruning test can be called on any keys.
pub open spec fn prune_callable<G: Fn(u32, u32, u32) -> bool>(far_ok: G) -> bool {
    forall|d: u32, t: u32, w: u32| #[trigger] far_ok.requires((d, t, w))
}

/// The pruning test never prunes.
pub open spec fn never_prunes<G: Fn(u32, u32, u32) -> bool>(far_ok: G) -> bool {
    forall|d: u32, t: u32, w: u32, r: bool| #[trigger] far_ok.ensures((d, t, w), r) ==> r
}

/// The distance function never gives a key above that of an infinite
/// distance.
pub open spec fn dist_at_most_infinity<F: Fn(&[u32; DIMS], &[u32; DIMS]) -> u32>(dist: F) -> bool {
    forall|a: &[u32; DIMS], b: &[u32; DIMS], d: u32| #[trigger] dist.ensures((a, b), d) ==> d
        <= INFINITY_KEY
}

/// The distance function gives only finite keys: below that of an infinite
/// distance.
pub open spec fn dist_below_infinity<F: Fn(&[u32; DIMS], &[u32; DIMS]) -> u32>(dist: F) -> bool {
    forall|a: &[u32; DIMS], b: &[u32; DIMS], d: u32| #[trigger] dist.ensures((a, b), d) ==> d
        < INFINITY_KEY
}

/// The distance function returns a key wherever it may be called.
pub open spec fn dist_total<F: Fn(&[u32; DIMS], &[u32; DIMS]) -> u32>(dist: F) -> bool {
    forall|a: &[u32; DIMS], b: &[u32; DIMS]| #[trigger] dist.requires((a, b)) ==> exists|d: u32|
        dist.ensures((a, b), d)
}

/// The pruning test searches the far side whenever the worst key is
/// infinite, that is while fewer than five neighbours are kept.
pub open spec fn accepts_at_infinity<G: Fn(u32, u32, u32) -> bool>(far_ok: G) -> bool {
    forall|d: u32, t: u32, r: bool| #[trigger] far_ok.ensures((d, t, INFINITY_KEY), r) ==> r
}

/// The pruning test is sound for the distance function: when the query lies
/// at `d` from a vantage point with threshold `t`, a point `p` lies on the
/// other side of the threshold (`dp`), and the test refuses the other side
/// for the worst key `w`, then `p` is no nearer to the query than `w`. (For a
/// metric this is the triangle inequality.)
pub open spec fn prune_sound<F: Fn(&[u32; DIMS], &[u32; DIMS]) -> u32, G: Fn(u32, u32, u32) -> bool>(
    dist: F,
    far_ok: G,
) -> bool {
    forall|q: [u32; DIMS], v: [u32; DIMS], p: [u32; DIMS], d: u32, t: u32, w: u32, dp: u32, dq: u32|
        #![trigger dist.ensures((&q, &v), d), dist.ensures((&v, &p), dp), far_ok.ensures((d, t, w), false), dist.ensures((&q, &p), dq)]
        dist.ensures((&q, &v), d) && dist.ensures((&v, &p), dp) && (if key_less(d, t) {
            dp >= t
        } else {
            dp <= t
        }) && far_ok.ensures((d, t, w), false) && dist.ensures((&q, &p), dq) ==> dq >= w
}

impl Index {
    /// Every node splits the points below it by the distance function: the
    /// points of the left subtree lie within the threshold of the vantage
    /// point, those of the right subtree at or beyond it.
    pub open spec fn splits_by<F: Fn(&[u32; DIMS], &[u32; DIMS]) -> u32>(&self, dist: F) -> bool {
        let nodes = self.spec_nodes();
        let points = self.spec_points();
        forall|k: int|
            0 <= k < nodes.len() ==> {
                let nd = #[trigger] nodes[k];
                let vp = points[nd.vp_idx as int];
                &&& forall|p: u32|
                    #![trigger points_under(nodes, nd.left).count(p)]
                    points_under(nodes, nd.left).count(p) > 0 ==> exists|dp: u32|
                        dist.ensures((&vp, &points[p as int]), dp) && dp <= nd.thresh_sq
                &&& forall|p: u32|
                    #![trigger points_under(nodes, nd.right).count(p)]
                    points_under(nodes, nd.right).count(p) > 0 ==> exists|dp: u32|
                        dist.ensures((&vp, &points[p as int]), dp) && dp >= nd.thresh_sq
            }
    }
}

/// Law: an index read from what `encode_index` wrote for a tree that
/// `build_vp_tree` built over any number of points up to `NULL_NODE` is in
/// the builder's layout (`is_in_search_order` accepts it), is well formed,
/// holds every reference point under its root once, and its nodes split
/// their points by the distance function the tree was built with, as the
/// search's pruning relies on.
pub proof fn lemma_built_index_splits<F: Fn(&[u32; DIMS], &[u32; DIMS]) -> u32>(
    points: Seq<Point>,
    nodes: Seq<VpNode>,
    root: u32,
    dist: F,
    idx: Index,
)
    requires
        points.len() <= NULL_NODE,
        nodes.len() == points.len(),
        points.len() == 0 ==> root == NULL_NODE,
        points.len() > 0 ==> root == 0 && subtree(nodes, 0) == identity_indices(
            points.len() as nat,
        ).to_multiset(),
        tree_ok(nodes, points, dist, 0, points.len() as int),
        idx.reads(index_bytes(points, nodes, root)),
    ensures
        idx.in_search_order(),
        idx.well_formed(),
        points_under(idx.spec_nodes(), idx.spec_root()) == identity_indices(
            points.len() as nat,
        ).to_multiset(),
        idx.splits_by(dist),
{
    lemma_load_reads_back(points, nodes, root);
    if points.len() == 0 {
        let e = identity_indices(0);
        e.to_multiset_ensures();
        vstd::multiset::lemma_multiset_empty_len(e.to_multiset());
        assert(e.to_multiset() =~= Multiset::empty());
    }
    let n = points.len() as int;
    let ip = idx.spec_points();
    let inodes = idx.spec_nodes();
    assert forall|i: int| 0 <= i < n implies #[trigger] ip[i] == points[i].v by {
        assert(ip[i] =~= points[i].v);
    }
    assert(inodes =~= nodes);
    assert forall|j: int| 0 <= j < n implies (#[trigger] nodes[j]).vp_idx < n by {
        assert(nodes[j] == nodes[j]);
    }
    lemma_search_order_well_formed(nodes, root, n);
    if n > 0 {
        lemma_ordered_walk(nodes, 0);
    } else {
        lemma_points_under(nodes, root, 0);
    }
    assert forall|k: int| 0 <= k < nodes.len() implies {
        let nd = #[trigger] nodes[k];
        let vp = ip[nd.vp_idx as int];
        &&& forall|p: u32|
            #![trigger points_under(nodes, nd.left).count(p)]
            points_under(nodes, nd.left).count(p) > 0 ==> exists|dp: u32|
                dist.ensures((&vp, &ip[p as int]), dp) && dp <= nd.thresh_sq
        &&& forall|p: u32|
            #![trigger points_under(nodes, nd.right).count(p)]
            points_under(nodes, nd.right).count(p) > 0 ==> exists|dp: u32|
                dist.ensures((&vp, &ip[p as int]), dp) && dp >= nd.thresh_sq
    } by {
        lemma_built_node_splits(points, nodes, dist, ip, k);
    }
}

/// Node `k` of a built tree splits the points under its children, read
/// through the stored feature vectors `ip`.
proof fn lemma_built_node_splits<F: Fn(&[u32; DIMS], &[u32; DIMS]) -> u32>(
    points: Seq<Point>,
    nodes: Seq<VpNode>,
    dist: F,
    ip: Seq<[u32; DIMS]>,
    k: int,
)
    requires
        points.len() <= NULL_NODE,
        nodes.len() == points.len(),
        tree_ok(nodes, points, dist, 0, points.len() as int),
        forall|i: int| 0 <= i < points.len() ==> #[trigger] ip[i] == points[i].v,
        0 <= k < nodes.len(),
    ensures
        ({
            let nd = nodes[k];
            let vp = ip[nd.vp_idx as int];
            &&& forall|p: u32|
                #![trigger points_under(nodes, nd.left).count(p)]
                points_under(nodes, nd.left).count(p) > 0 ==> exists|dp: u32|
                    dist.ensures((&vp, &ip[p as int]), dp) && dp <= nd.thresh_sq
            &&& forall|p: u32|
                #![trigger points_under(nodes, nd.right).count(p)]
                points_under(nodes, nd.right).count(p) > 0 ==> exists|dp: u32|
                    dist.ensures((&vp, &ip[p as int]), dp) && dp >= nd.thresh_sq
        }),
{
    let n = points.len() as int;
    let nd = nodes[k];
    assert forall|j: int| 0 <= j < n implies (#[trigger] nodes[j]).vp_idx < n by {
        assert(nodes[j] == nodes[j]);
    }
    assert(ip[nd.vp_idx as int] == points[nd.vp_idx as int].v);
    assert(child_in(nd.left, k, n) && child_in(nd.right, k, n));
    if nd.left != NULL_NODE {
        lemma_ordered_walk(nodes, nd.left as int);
        lemma_subtree_below(nodes, nd.left as int, n);
    } else {
        lemma_points_under(nodes, nd.left, 0);
    }
    if nd.right != NULL_NODE {
        lemma_ordered_walk(nodes, nd.right as int);
        lemma_subtree_below(nodes, nd.right as int, n);
    } else {
        lemma_points_under(nodes, nd.right, 0);
    }
    assert(points_under(nodes, nd.left) == child_subtree(nodes, k, nd.left));
    assert(points_under(nodes, nd.right) == child_subtree(nodes, k, nd.right));
    assert forall|p: u32| #[trigger] points_under(nodes, nd.left).count(p) > 0 implies exists|dp: u32|
        dist.ensures((&ip[nd.vp_idx as int], &ip[p as int]), dp) && dp <= nd.thresh_sq by {
        assert(ip[p as int] == points[p as int].v);
    }
    assert forall|p: u32| #[trigger] points_under(nodes, nd.right).count(p) > 0 implies exists|dp: u32|
        dist.ensures((&ip[nd.vp_idx as int], &ip[p as int]), dp) && dp >= nd.thresh_sq by {
        assert(ip[p as int] == points[p as int].v);
    }
}

impl Index {
    /// Offers the vantage point of node `node_idx` to `heap`, then searches
    /// the side of the threshold the query falls on, then the other side
    /// when `far_ok(distance, threshold, worst kept)` says it may hold a
    /// nearer point. Returns the visits made, as a ghost log.
    fn vp_search<F: Fn(&[u32; DIMS], &[u32; DIMS]) -> u32, G: Fn(u32, u32, u32) -> bool>(
        &self,
        q: &[u32; DIMS],
        node_idx: u32,
        heap: &mut KnnHeap,
        dist: &F,
        far_ok: &G,
        Ghost(depth): Ghost<nat>,
    ) -> (log: Ghost<Seq<Visit>>)
        requires
            self.spec_labels().len() == self.spec_points().len(),
            walk_ends(self.spec_nodes(), node_idx, depth),
            forall|p: u32|
                #[trigger] points_within(self.spec_nodes(), node_idx, depth).count(p) > 0 ==> p
                    < self.spec_points().len(),
            dist_callable(*dist),
            prune_callable(*far_ok),
        ensures
            visits_ok(self.spec_points(), self.spec_labels(), *q, *dist, log@),
            visited_points(log@).subset_of(points_within(self.spec_nodes(), node_idx, depth)),
            never_prunes(*far_ok) ==> visited_points(log@) == points_within(
                self.spec_nodes(),
                node_idx,
                depth,
            ),
            node_idx == NULL_NODE ==> log@ == Seq::<Visit>::empty() && final(heap)@ == old(heap)@,
            final(heap)@.len() >= old(heap)@.len(),
            accepts_at_infinity(*far_ok) && final(heap)@.len() < K ==> visited_points(log@)
                == points_within(self.spec_nodes(), node_idx, depth),
            forall|all: Multiset<Neighbor>|
                #[trigger] keeps_offered(old(heap)@, all) ==> keeps_offered(
                    final(heap)@,
                    all.add(offered(log@)),
                ),
            keys_at_most_infinity(old(heap)@) && dist_at_most_infinity(*dist) ==> forall|
                all: Multiset<Neighbor>,
            |
                #[trigger] keeps_nearest(old(heap)@, all) ==> keeps_nearest(
                    final(heap)@,
                    all.add(offered(log@)),
                ),
            keys_at_most_infinity(old(heap)@) && dist_at_most_infinity(*dist) ==> keys_at_most_infinity(final(heap)@)
                && worst_key(final(heap)@) <= worst_key(old(heap)@),
            keys_at_most_infinity(old(heap)@) && dist_at_most_infinity(*dist) && self.splits_by(*dist) && prune_sound(
                *dist,
                *far_ok,
            ) ==> forall|p: u32, dq: u32|
                #![trigger points_within(self.spec_nodes(), node_idx, depth).count(p), dist.ensures((q, &self.spec_points()[p as int]), dq)]
                points_within(self.spec_nodes(), node_idx, depth).count(p) > visited_points(log@).count(p)
                    && dist.ensures((q, &self.spec_points()[p as int]), dq) ==> dq >= worst_key(
                    final(heap)@,
                ),
        decreases depth,
    {
        broadcast use vstd::seq_lib::group_to_multiset_ensures;

        if node_idx == NULL_NODE {
            proof {
                assert(Seq::<Visit>::empty().map_values(|v: Visit| v.1) =~= Seq::empty());
                assert forall|all: Multiset<Neighbor>| #[trigger] keeps_offered(old(heap)@, all)
                    implies keeps_offered(heap@, all.add(offered(Seq::empty()))) by {
                    assert(all.add(offered(Seq::empty())) =~= all);
                }
                assert forall|all: Multiset<Neighbor>| #[trigger] keeps_nearest(old(heap)@, all)
                    implies keeps_nearest(heap@, all.add(offered(Seq::empty()))) by {
                    assert(all.add(offered(Seq::empty())) =~= all);
                }
                assert(Seq::<Visit>::empty().map_values(|v: Visit| v.0) =~= Seq::empty());
            }
            return Ghost(Seq::empty());
        }
        let ghost sub = (depth - 1) as nat;
        proof {
            let nodes = self.spec_nodes();
            let n = nodes[node_idx as int];
            assert(points_within(nodes, node_idx, depth) == Multiset::singleton(n.vp_idx).add(
                points_within(nodes, n.left, sub),
            ).add(points_within(nodes, n.right, sub)));
            assert(points_within(nodes, node_idx, depth).count(n.vp_idx) > 0);
            assert forall|p: u32| #[trigger] points_within(nodes, n.left, sub).count(p) > 0 implies p
                < self.spec_points().len() by {
                assert(points_within(nodes, node_idx, depth).count(p) > 0);
            }
            assert forall|p: u32| #[trigger] points_within(nodes, n.right, sub).count(p) > 0 implies p
                < self.spec_points().len() by {
                assert(points_within(nodes, node_idx, depth).count(p) > 0);
            }
        }
        let nd = self.nodes()[node_idx as usize];
        let vp = &self.points()[nd.vp_idx as usize];
        let lbl = self.labels()[nd.vp_idx as usize];
        let d_sq = dist(q, vp);
        let ghost heap0 = heap@;
        heap.push(d_sq, lbl);
        let ghost heap1 = heap@;
        let ghost me: Visit = (nd.vp_idx, (d_sq, lbl));
        let thresh_sq = nd.thresh_sq;
        let (near, far) = if key_less_than(d_sq, thresh_sq) {
            (nd.left, nd.right)
        } else {
            (nd.right, nd.left)
        };
        proof {
            assert(self.spec_nodes()[node_idx as int] == nd);
        }
        let near_log = self.vp_search(q, near, heap, dist, far_ok, Ghost(sub));
        let ghost heap2 = heap@;
        let worst = heap.worst();
        let go_far = far_ok(d_sq, thresh_sq, worst);
        let far_log = if go_far {
            self.vp_search(q, far, heap, dist, far_ok, Ghost(sub))
        } else {
            Ghost(Seq::empty())
        };
        let ghost log = seq![me] + near_log@ + far_log@;
        proof {
            let nodes = self.spec_nodes();
            let k = node_idx as int;
            let fv = |v: Visit| v.0;
            let fo = |v: Visit| v.1;
            assert(seq![me] =~= Seq::<Visit>::empty().push(me));
            // the log's parts
            assert(log.map_values(fv) =~= seq![me].map_values(fv) + near_log@.map_values(fv)
                + far_log@.map_values(fv));
            assert(log.map_values(fo) =~= seq![me].map_values(fo) + near_log@.map_values(fo)
                + far_log@.map_values(fo));
            vstd::seq_lib::lemma_multiset_commutative(seq![me].map_values(fv), near_log@.map_values(fv));
            vstd::seq_lib::lemma_multiset_commutative(seq![me].map_values(fv) + near_log@.map_values(fv), far_log@.map_values(fv));
            vstd::seq_lib::lemma_multiset_commutative(seq![me].map_values(fo), near_log@.map_values(fo));
            vstd::seq_lib::lemma_multiset_commutative(seq![me].map_values(fo) + near_log@.map_values(fo), far_log@.map_values(fo));
            assert(seq![me].map_values(fv) =~= seq![nd.vp_idx]);
            assert(seq![me].map_values(fo) =~= seq![(d_sq, lbl)]);
            assert(seq![nd.vp_idx].to_multiset() =~= Multiset::singleton(nd.vp_idx)) by {
                assert(seq![nd.vp_idx] =~= Seq::<u32>::empty().push(nd.vp_idx));
            }
            assert(seq![(d_sq, lbl)].to_multiset() =~= Multiset::singleton((d_sq, lbl))) by {
                assert(seq![(d_sq, lbl)] =~= Seq::<Neighbor>::empty().push((d_sq, lbl)));
            }
            if !go_far {
                assert(far_log@.map_values(fv) =~= Seq::<u32>::empty());
                assert(far_log@.map_values(fo) =~= Seq::<Neighbor>::empty());
            }
            // the subtree of the node
            assert(points_within(nodes, node_idx, depth) =~= Multiset::singleton(nd.vp_idx).add(
                points_within(nodes, nd.left, sub),
            ).add(points_within(nodes, nd.right, sub)
            ));
            // the visits
            assert forall|i: int| 0 <= i < log.len() implies {
                let v = #[trigger] log[i];
                &&& v.0 < self.spec_points().len()
                &&& v.1.1 == self.spec_labels()[v.0 as int]
                &&& call_ensures(*dist, (q, &self.spec_points()[v.0 as int]), v.1.0)
            } by {
                if i == 0 {
                } else if i < 1 + near_log@.len() {
                    assert(log[i] == near_log@[i - 1]);
                } else {
                    assert(log[i] == far_log@[i - 1 - near_log@.len()]);
                }
            }
            // the neighbours kept
            assert forall|all: Multiset<Neighbor>| #[trigger] keeps_offered(old(heap)@, all)
                implies keeps_offered(heap@, all.add(offered(log))) by {
                lemma_push_keeps_offered(heap0, heap1, d_sq, lbl, all);
                let all1 = all.insert((d_sq, lbl));
                assert(keeps_offered(heap1, all1));
                let all2 = all1.add(offered(near_log@));
                assert(keeps_offered(heap2, all2));
                if go_far {
                    assert(keeps_offered(heap@, all2.add(offered(far_log@))));
                    assert(all.add(offered(log)) =~= all2.add(offered(far_log@)));
                } else {
                    assert(all.add(offered(log)) =~= all2);
                }
            }
            if keys_at_most_infinity(heap0) && dist_at_most_infinity(*dist) {
                lemma_push_worst(heap0, heap1, d_sq, lbl);
            }
            assert forall|all: Multiset<Neighbor>|
                keys_at_most_infinity(heap0) && dist_at_most_infinity(*dist) && #[trigger] keeps_nearest(old(heap)@, all)
                implies keeps_nearest(heap@, all.add(offered(log))) by {
                lemma_push_keeps_nearest(heap0, heap1, d_sq, lbl, all);
                let all1 = all.insert((d_sq, lbl));
                assert(keeps_nearest(heap1, all1));
                let all2 = all1.add(offered(near_log@));
                assert(keeps_nearest(heap2, all2));
                if go_far {
                    assert(keeps_nearest(heap@, all2.add(offered(far_log@))));
                    assert(all.add(offered(log)) =~= all2.add(offered(far_log@)));
                } else {
                    assert(all.add(offered(log)) =~= all2);
                }
            }
            if never_prunes(*far_ok) {
                assert(go_far);
            }
            // while fewer than five are kept, nothing is pruned
            assert(visited_points(log) =~= Multiset::singleton(nd.vp_idx).add(
                visited_points(near_log@),
            ).add(visited_points(far_log@)));
            assert(heap1.len() >= heap0.len());
            if accepts_at_infinity(*far_ok) && heap@.len() < K {
                assert(heap2.len() < K);
                assert(worst == INFINITY_KEY);
                assert(go_far);
            }
            // the worst key never rises
            if keys_at_most_infinity(heap0) && dist_at_most_infinity(*dist) {
                lemma_push_worst(heap0, heap1, d_sq, lbl);
            }
            // no skipped point is nearer than the worst key
            if keys_at_most_infinity(heap0) && dist_at_most_infinity(*dist) && self.splits_by(*dist) && prune_sound(
                *dist,
                *far_ok,
            ) {
                let points = self.spec_points();
                let vis = visited_points(log);
                assert(vis =~= Multiset::singleton(nd.vp_idx).add(visited_points(near_log@)).add(
                    visited_points(far_log@),
                ));
                assert forall|p: u32, dq: u32|
                    points_within(nodes, node_idx, depth).count(p) > vis.count(p) && #[trigger] dist.ensures(
                        (q, &points[p as int]),
                        dq,
                    ) implies dq >= worst_key(heap@) by {
                    if points_within(nodes, near, sub).count(p) > visited_points(near_log@).count(p) {
                        assert(dq >= worst_key(heap2));
                    } else if !go_far {
                        assert(points_within(nodes, far, sub).count(p) > 0);
                        lemma_points_under(nodes, far, sub);
                        assert(nodes[k] == nd);
                        let v = points[nd.vp_idx as int];
                        let dp = choose|dp: u32|
                            dist.ensures((&v, &points[p as int]), dp) && (if key_less(d_sq, thresh_sq) {
                                dp >= thresh_sq
                            } else {
                                dp <= thresh_sq
                            });
                        assert(far_ok.ensures((d_sq, thresh_sq, worst), false));
                        assert(dist.ensures((q, &v), d_sq));
                        assert(dq >= worst);
                    }
                }
            }
        }
        Ghost(log)
    }

    /// Share of fraud labels among the five nearest neighbours that the
    /// search finds for `query` (see `vp_search`); one half for an empty
    /// index.
    pub fn knn5_fraud_score<F: Fn(&[u32; DIMS], &[u32; DIMS]) -> u32, G: Fn(u32, u32, u32) -> bool>(
        &self,
        query: &[u32; DIMS],
        dist: &F,
        far_ok: &G,
    ) -> (r: FraudScore)
        requires
            self.well_formed(),
            dist_callable(*dist),
            prune_callable(*far_ok),
        ensures
            exists|log: Seq<Visit>, kept: Seq<Neighbor>|
                {
                    &&& visits_ok(self.spec_points(), self.spec_labels(), *query, *dist, log)
                    &&& visited_points(log).subset_of(points_under(self.spec_nodes(), self.spec_root()))
                    &&& never_prunes(*far_ok) ==> visited_points(log) == points_under(
                        self.spec_nodes(),
                        self.spec_root(),
                    )
                    &&& keeps_offered(kept, offered(log))
                    &&& dist_at_most_infinity(*dist) ==> keeps_nearest(kept, offered(log))
                    &&& r == score_of(kept)
                    &&& dist_at_most_infinity(*dist) && self.splits_by(*dist) && prune_sound(
                        *dist,
                        *far_ok,
                    ) ==> forall|p: u32, dq: u32|
                        #![trigger points_under(self.spec_nodes(), self.spec_root()).count(p), dist.ensures((query, &self.spec_points()[p as int]), dq)]
                        points_under(self.spec_nodes(), self.spec_root()).count(p) > visited_points(
                            log,
                        ).count(p) && dist.ensures((query, &self.spec_points()[p as int]), dq)
                            ==> worst_key(kept) <= dq
                    &&& accepts_at_infinity(*far_ok) ==> kept.len() == if points_under(
                        self.spec_nodes(),
                        self.spec_root(),
                    ).len() < K {
                        points_under(self.spec_nodes(), self.spec_root()).len()
                    } else {
                        K as nat
                    }
                    &&& dist_below_infinity(*dist) && dist_total(*dist) && self.splits_by(*dist)
                        && prune_sound(*dist, *far_ok) ==> kept.len() == if points_under(
                        self.spec_nodes(),
                        self.spec_root(),
                    ).len() < K {
                        points_under(self.spec_nodes(), self.spec_root()).len()
                    } else {
                        K as nat
                    }
                },
    {
        let mut heap = KnnHeap::new();
        let ghost depth = choose|d: nat| walk_ends(self.spec_nodes(), self.spec_root(), d);
        proof {
            crate::knn::lemma_new_keeps_nearest();
            let nodes = self.spec_nodes();
            let root = self.spec_root();
            assert(points_under(nodes, root) == points_within(nodes, root, depth));
            assert forall|p: u32| #[trigger] points_within(nodes, root, depth).count(p) > 0 implies p
                < self.spec_points().len() by {
                assert(points_under(nodes, root).count(p) > 0);
            }
        }
        let log = self.vp_search(query, self.root(), &mut heap, dist, far_ok, Ghost(depth));
        let r = heap.fraud_score();
        proof {
            assert(keeps_offered(heap@, Multiset::empty().add(offered(log@))));
            assert(keys_at_most_infinity(Seq::<Neighbor>::empty()));
            if dist_at_most_infinity(*dist) {
                assert(keeps_nearest(heap@, Multiset::empty().add(offered(log@))));
            }
            assert(Multiset::<Neighbor>::empty().add(offered(log@)) =~= offered(log@));
            broadcast use vstd::seq_lib::group_to_multiset_ensures;

            let kept = heap@;
            let under = points_under(self.spec_nodes(), self.spec_root());
            let vis = visited_points(log@);
            assert(keys_at_most_infinity(Seq::<Neighbor>::empty()));
            assert(offered(log@).len() == vis.len());
            if accepts_at_infinity(*far_ok) {
                if kept.len() < K {
                    assert(vis == under);
                } else {
                    assert(under =~= vis.add(under.sub(vis)));
                }
            }
            if dist_below_infinity(*dist) && dist_total(*dist) && self.splits_by(*dist)
                && prune_sound(*dist, *far_ok) {
                assert(dist_at_most_infinity(*dist));
                assert(offered(log@).len() == vis.len());
                if vis.len() < K {
                    // fewer than five kept: the worst key is infinite, so no
                    // point was skipped
                    assert forall|p: u32| under.count(p) <= vis.count(p) by {
                        if under.count(p) > vis.count(p) {
                            let a = *query;
                            let b = self.spec_points()[p as int];
                            assert(dist.requires((&a, &b)));
                            assert(exists|d: u32| dist.ensures((&a, &b), d));
                            let dq = choose|d: u32| dist.ensures((&a, &b), d);
                            assert(dq < INFINITY_KEY);
                            assert(dq >= worst_key(kept));
                        }
                    }
                    assert(vis =~= under);
                } else {
                    assert(under =~= vis.add(under.sub(vis)));
                }
            }
        }
        r
    }
}

} // verus!
