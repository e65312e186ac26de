//! What a search that goes on past its first clusters is sure to find: the nearest of all
//! reference vectors, each of them once.
use vstd::prelude::*;

use crate::ieee::{Single, SINGLE_INFINITY};
use crate::ivf_index::{ExactIndex, K, MAX_NPROBE, NO_DISTANCE, TOP_C};
use crate::ranking::{
    at_least, farther, is_among, is_sorted, law_offered_from, law_offered_nearest,
    law_offered_sorted, lemma_slot, offered, slot, Distance,
};
use crate::search::{
    is_undecided, lemma_nearest_centroids, nearest_centroids, no_candidates, rules_out, Found,
    QuantizedQuery,
};
use crate::types::DIM;

verus! {

impl<'a> ExactIndex<'a> {
    pub open spec fn cluster_size(&self, cluster: int) -> int {
        self.boundary(cluster + 1) - self.boundary(cluster)
    }

    /// `place` names a vector: a cluster, and a place in it.
    pub open spec fn is_place(&self, place: (int, int)) -> bool {
        0 <= place.0 < self.n_clusters && 0 <= place.1 < self.cluster_size(place.0)
    }

    /// The vector at a place, with its coarse distance.
    pub open spec fn item(&self, q: Seq<int>, place: (int, int)) -> (u64, u32) {
        self.candidate(q, self.boundary(place.0), self.cluster_size(place.0), place.1)
    }

    /// The places in the probed clusters.
    pub open spec fn places_in(&self, probed: Set<int>) -> Set<(int, int)> {
        Set::new(|place: (int, int)| self.is_place(place) && probed.contains(place.0))
    }

    /// The first `limit` of `top` are, in order and each once, the nearest of the vectors at
    /// the places `seen`: one that is missing is no nearer than the last.
    #[verifier::opaque]
    pub open spec fn holds_nearest(
        &self,
        q: Seq<int>,
        top: Seq<(u64, u32)>,
        limit: int,
        seen: Set<(int, int)>,
    ) -> bool {
        &&& top.len() >= limit
        &&& is_sorted(top, limit)
        &&& forall|place: (int, int)| #[trigger]
            seen.contains(place) ==> self.is_place(place) && (is_among(
                top,
                limit,
                self.item(q, place),
            ) || self.item(q, place).0 >= top[limit - 1].0)
        &&& forall|k: int|
            0 <= k < limit && (#[trigger] top[k]).0 != NO_DISTANCE ==> exists|place: (int, int)|
             #[trigger]
                seen.contains(place) && top[k] == self.item(q, place)
        &&& forall|a: int, b: int|
            0 <= a < b < limit && (#[trigger] top[a]).0 != NO_DISTANCE && (#[trigger] top[b]).0
                != NO_DISTANCE ==> top[a].1 != top[b].1
    }

    /// Two places that name the same vector are the same.
    proof fn lemma_places_differ(&self, a: (int, int), b: (int, int))
        requires
            self.wf(),
            self.ordered(),
            self.is_place(a),
            self.is_place(b),
            a != b,
        ensures
            self.boundary(a.0) + a.1 != self.boundary(b.0) + b.1,
            0 <= self.boundary(a.0) + a.1 < self.n_vecs,
            0 <= self.boundary(b.0) + b.1 < self.n_vecs,
    {
        let n = self.n_clusters as int;
        assert(self.boundary(0) <= self.boundary(a.0));
        assert(self.boundary(0) <= self.boundary(b.0));
        assert(self.boundary(a.0 + 1) <= self.boundary(n));
        assert(self.boundary(b.0 + 1) <= self.boundary(n));
        if a.0 < b.0 {
            assert(self.boundary(a.0 + 1) <= self.boundary(b.0));
        } else if b.0 < a.0 {
            assert(self.boundary(b.0 + 1) <= self.boundary(a.0));
        }
    }

    proof fn lemma_step(
        &self,
        q: Seq<int>,
        top: Seq<(u64, u32)>,
        seen: Set<(int, int)>,
        place: (int, int),
    )
        requires
            self.wf(),
            self.ordered(),
            self.holds_nearest(q, top, TOP_C as int, seen),
            self.is_place(place),
            !seen.contains(place),
        ensures
            self.holds_nearest(
                q,
                offered(top, TOP_C as int, self.item(q, place)),
                TOP_C as int,
                seen.insert(place),
            ),
            offered(top, TOP_C as int, self.item(q, place))[TOP_C - 1].0 <= top[TOP_C - 1].0,
    {
        reveal(ExactIndex::holds_nearest);
        let limit = TOP_C as int;
        let item = self.item(q, place);
        let new = offered(top, limit, item);
        let seen2 = seen.insert(place);
        law_offered_sorted(top, limit, item);
        law_offered_nearest(top, limit, item, item);
        assert forall|other: (int, int)| #[trigger] seen2.contains(other) implies self.is_place(
            other,
        ) && (is_among(new, limit, self.item(q, other)) || self.item(q, other).0 >= new[limit
            - 1].0) by {
            if other != place {
                assert(seen.contains(other));
                if is_among(top, limit, self.item(q, other)) {
                    law_offered_nearest(top, limit, item, self.item(q, other));
                }
            }
        }
        assert forall|k: int| 0 <= k < limit && (#[trigger] new[k]).0 != NO_DISTANCE implies exists|
            other: (int, int),
        | #[trigger] seen2.contains(other) && new[k] == self.item(q, other) by {
            assert(is_among(new, limit, new[k]));
            law_offered_from(top, limit, item, new[k]);
            if new[k] == item {
                assert(seen2.contains(place));
            } else {
                let i = choose|i: int| 0 <= i < limit && #[trigger] top[i] == new[k];
                let other = choose|other: (int, int)| #[trigger]
                    seen.contains(other) && top[i] == self.item(q, other);
                assert(seen2.contains(other));
            }
        }
        lemma_slot(top, limit - 1, item.0);
        let pos = slot(top, limit - 1, item.0);
        if !at_least(item.0, top[limit - 1].0) {
            assert forall|k: int| 0 <= k < limit && (#[trigger] top[k]).0 != NO_DISTANCE implies
                top[k].1 != item.1 by {
                let other = choose|other: (int, int)| #[trigger]
                    seen.contains(other) && top[k] == self.item(q, other);
                self.lemma_places_differ(other, place);
            }
            assert forall|a: int, b: int|
                0 <= a < b < limit && (#[trigger] new[a]).0 != NO_DISTANCE && (#[trigger] new[b]).0
                    != NO_DISTANCE implies new[a].1 != new[b].1 by {
                let a2 = if a > pos {
                    a - 1
                } else {
                    a
                };
                let b2 = if b > pos {
                    b - 1
                } else {
                    b
                };
                if a != pos {
                    assert(new[a] == top[a2]);
                }
                if b != pos {
                    assert(new[b] == top[b2]);
                }
            }
        }
    }

    /// The places in the probed clusters, and the first `i` of another one.
    spec fn places_before(&self, probed: Set<int>, cluster: int, i: nat) -> Set<(int, int)> {
        self.places_in(probed).union(Set::new(|p: (int, int)| p.0 == cluster && 0 <= p.1 < i))
    }

    proof fn lemma_scan(&self, q: Seq<int>, found: Found, cluster: int, i: nat)
        requires
            self.wf(),
            self.ordered(),
            self.holds_nearest(q, found.top, TOP_C as int, self.places_in(found.probed)),
            0 <= cluster < self.n_clusters,
            !found.probed.contains(cluster),
            i <= self.cluster_size(cluster),
        ensures
            ({
                let top = self.after_scan(
                    q,
                    self.boundary(cluster),
                    self.cluster_size(cluster),
                    i,
                    found.top,
                );
                &&& self.holds_nearest(
                    q,
                    top,
                    TOP_C as int,
                    self.places_before(found.probed, cluster, i),
                )
                &&& top[TOP_C - 1].0 <= found.top[TOP_C - 1].0
            }),
        decreases i,
    {
        if i == 0 {
            assert(self.places_before(found.probed, cluster, i) =~= self.places_in(found.probed));
        } else {
            let before = (i - 1) as nat;
            let start = self.boundary(cluster);
            let n = self.cluster_size(cluster);
            let seen = self.places_before(found.probed, cluster, before);
            let place = (cluster, i - 1);
            self.lemma_scan(q, found, cluster, before);
            assert(!seen.contains(place));
            self.lemma_step(q, self.after_scan(q, start, n, before, found.top), seen, place);
            assert(seen.insert(place) =~= self.places_before(found.probed, cluster, i));
        }
    }

    /// Probing a cluster that was not probed yet keeps the nearest of what has been seen.
    proof fn lemma_cluster(&self, q: Seq<int>, found: Found, cluster: int)
        requires
            self.wf(),
            self.ordered(),
            self.holds_nearest(q, found.top, TOP_C as int, self.places_in(found.probed)),
            0 <= cluster < self.n_clusters,
            !found.probed.contains(cluster),
        ensures
            self.holds_nearest(
                q,
                self.after_cluster(q, cluster, found).top,
                TOP_C as int,
                self.places_in(self.after_cluster(q, cluster, found).probed),
            ),
            self.after_cluster(q, cluster, found).top[TOP_C - 1].0 <= found.top[TOP_C - 1].0,
    {
        assert(self.boundary(cluster) <= self.boundary(cluster + 1));
        let n = self.cluster_size(cluster);
        self.lemma_scan(q, found, cluster, n as nat);
        assert(self.places_in(found.probed.insert(cluster)) =~= self.places_before(
            found.probed,
            cluster,
            n as nat,
        ));
    }

    /// The clusters probed first, if they are different ones, yield the nearest of their vectors,
    /// each once.
    pub proof fn law_seeded_nearest(&self, q: Seq<int>, probes: Seq<(Single, u32)>, n: nat)
        requires
            self.wf(),
            self.ordered(),
            n <= self.nprobe <= probes.len(),
            forall|k: int| 0 <= k < self.nprobe ==> (#[trigger] probes[k]).1 < self.n_clusters,
            are_different(probes, self.nprobe as int),
        ensures
            self.holds_nearest(
                q,
                self.seeded(q, probes, n).top,
                TOP_C as int,
                self.places_in(self.seeded(q, probes, n).probed),
            ),
            forall|c: int| #[trigger]
                self.seeded(q, probes, n).probed.contains(c) ==> exists|k: int|
                    0 <= k < n && (#[trigger] probes[k]).1 == c,
        decreases n,
    {
        if n == 0 {
            reveal(ExactIndex::holds_nearest);
            let top = no_candidates();
            assert(self.places_in(Set::empty()) =~= Set::empty());
            assert(is_sorted(top, TOP_C as int));
        } else {
            self.law_seeded_nearest(q, probes, (n - 1) as nat);
            let before = self.seeded(q, probes, (n - 1) as nat);
            let cluster = probes[n - 1].1 as int;
            if before.probed.contains(cluster) {
                let k = choose|k: int| 0 <= k < n - 1 && (#[trigger] probes[k]).1 == cluster;
                assert(probes[k].1 != probes[n - 1].1);
            }
            self.lemma_cluster(q, before, cluster);
            assert forall|c: int| #[trigger]
                self.seeded(q, probes, n).probed.contains(c) implies exists|k: int|
                0 <= k < n && (#[trigger] probes[k]).1 == c by {
                if c == cluster {
                    assert(probes[n - 1].1 == c);
                } else {
                    let k = choose|k: int| 0 <= k < n - 1 && (#[trigger] probes[k]).1 == c;
                    assert(probes[k].1 == c);
                }
            }
        }
    }

    /// Going on to clusters that were not probed yet keeps the nearest of what has been seen.
    pub proof fn law_expanded_nearest(
        &self,
        q: Seq<int>,
        bounds: Seq<Single>,
        tau: u64,
        found: Found,
        n: nat,
    )
        requires
            self.wf(),
            self.ordered(),
            self.holds_nearest(q, found.top, TOP_C as int, self.places_in(found.probed)),
            n <= self.n_clusters,
        ensures
            ({
                let after = self.expanded(q, bounds, tau, found, n);
                &&& self.holds_nearest(q, after.top, TOP_C as int, self.places_in(after.probed))
                &&& after.top[TOP_C - 1].0 <= found.top[TOP_C - 1].0
                &&& forall|c: int|
                    0 <= c < n ==> #[trigger] after.probed.contains(c) || rules_out(bounds[c], tau)
            }),
        decreases n,
    {
        if n > 0 {
            self.law_expanded_nearest(q, bounds, tau, found, (n - 1) as nat);
            let before = self.expanded(q, bounds, tau, found, (n - 1) as nat);
            if !before.probed.contains(n - 1) && !rules_out(bounds[n - 1], tau) {
                self.lemma_cluster(q, before, n - 1);
            }
        }
    }

    /// `bounds` are lower bounds of the distances in their clusters.
    pub open spec fn are_bounds(&self, q: Seq<int>, bounds: Seq<Single>) -> bool {
        forall|place: (int, int)|
            self.is_place(place) ==> is_bound(bounds[place.0], (#[trigger] self.item(q, place)).0)
    }

    /// A search that did not stop at its first clusters has found the nearest of all vectors,
    /// each once, provided that the bounds are bounds and that the first clusters are different
    /// ones ([`law_finite_centroids_differ`] says when they are).
    pub proof fn law_expanded_search_is_exact(
        &self,
        q: &QuantizedQuery,
        centroid_dist: Seq<Single>,
        bounds: Seq<Single>,
    )
        requires
            self.wf(),
            self.ordered(),
            are_different(
                nearest_centroids(centroid_dist, self.nprobe as int, self.n_clusters as nat),
                self.nprobe as int,
            ),
            self.are_bounds(q.coarse_vector(), bounds),
            is_undecided(
                self.labels@,
                self.seeded(
                    q.coarse_vector(),
                    nearest_centroids(
                        centroid_dist,
                        self.nprobe as int,
                        self.n_clusters as nat,
                    ),
                    self.nprobe as nat,
                ).top,
            ),
        ensures
            self.holds_nearest(
                q.coarse_vector(),
                self.searched(q.coarse_vector(), centroid_dist, bounds).top,
                TOP_C as int,
                Set::new(|place: (int, int)| self.is_place(place)),
            ),
            self.holds_nearest(
                q.coarse_vector(),
                self.searched(q.coarse_vector(), centroid_dist, bounds).top,
                K as int,
                Set::new(|place: (int, int)| self.is_place(place)),
            ),
    {
        let qv = q.coarse_vector();
        let n = self.n_clusters as nat;
        let probes = nearest_centroids(centroid_dist, self.nprobe as int, n);
        lemma_nearest_centroids(centroid_dist, self.nprobe as int, n, n as int);
        let seed = self.seeded(qv, probes, self.nprobe as nat);
        self.law_seeded_nearest(qv, probes, self.nprobe as nat);
        let tau = seed.top[TOP_C - 1].0;
        self.law_expanded_nearest(qv, bounds, tau, seed, n);
        let found = self.expanded(qv, bounds, tau, seed, n);
        reveal(ExactIndex::holds_nearest);
        let all = Set::new(|place: (int, int)| self.is_place(place));
        assert forall|place: (int, int)| #[trigger] all.contains(place) implies is_among(
            found.top,
            TOP_C as int,
            self.item(qv, place),
        ) || self.item(qv, place).0 >= found.top[TOP_C - 1].0 by {
            if found.probed.contains(place.0) {
                assert(self.places_in(found.probed).contains(place));
            } else {
                assert(rules_out(bounds[place.0], tau));
                assert(is_bound(bounds[place.0], self.item(qv, place).0));
            }
        }
        assert forall|k: int|
            0 <= k < TOP_C && (#[trigger] found.top[k]).0 != NO_DISTANCE implies exists|
            place: (int, int),
        | #[trigger] all.contains(place) && found.top[k] == self.item(qv, place) by {
            let place = choose|place: (int, int)| #[trigger]
                self.places_in(found.probed).contains(place) && found.top[k] == self.item(
                    qv,
                    place,
                );
            assert(all.contains(place));
        }
        self.law_nearest_prefix(qv, found.top, TOP_C as int, K as int, all);
    }

    proof fn lemma_scan_sorted(&self, q: Seq<int>, start: int, n: int, i: nat, top: Seq<(u64, u32)>)
        requires
            top.len() == TOP_C,
            is_sorted(top, TOP_C as int),
        ensures
            self.after_scan(q, start, n, i, top).len() == TOP_C,
            is_sorted(self.after_scan(q, start, n, i, top), TOP_C as int),
            self.after_scan(q, start, n, i, top)[TOP_C - 1].0 <= top[TOP_C - 1].0,
        decreases i,
    {
        if i > 0 {
            self.lemma_scan_sorted(q, start, n, (i - 1) as nat, top);
            let before = self.after_scan(q, start, n, (i - 1) as nat, top);
            let item = self.candidate(q, start, n, i - 1);
            law_offered_sorted(before, TOP_C as int, item);
            law_offered_nearest(before, TOP_C as int, item, item);
        }
    }

    /// The clusters probed first leave a list in order.
    pub proof fn law_seeded_sorted(&self, q: Seq<int>, probes: Seq<(Single, u32)>, n: nat)
        ensures
            self.seeded(q, probes, n).top.len() == TOP_C,
            is_sorted(self.seeded(q, probes, n).top, TOP_C as int),
        decreases n,
    {
        if n > 0 {
            self.law_seeded_sorted(q, probes, (n - 1) as nat);
            let cluster = probes[n - 1].1 as int;
            let start = self.boundary(cluster);
            let len = self.boundary(cluster + 1) - start;
            self.lemma_scan_sorted(
                q,
                start,
                len,
                len as nat,
                self.seeded(q, probes, (n - 1) as nat).top,
            );
        }
    }

    /// Going on to other clusters keeps the list in order and brings its last place no farther
    /// away; of the clusters gone through, what is not probed is ruled out.
    pub proof fn law_expanded_sorted(
        &self,
        q: Seq<int>,
        bounds: Seq<Single>,
        tau: u64,
        found: Found,
        n: nat,
    )
        requires
            found.top.len() == TOP_C,
            is_sorted(found.top, TOP_C as int),
        ensures
            ({
                let after = self.expanded(q, bounds, tau, found, n);
                &&& after.top.len() == TOP_C
                &&& is_sorted(after.top, TOP_C as int)
                &&& after.top[TOP_C - 1].0 <= found.top[TOP_C - 1].0
                &&& forall|c: int|
                    0 <= c < n ==> #[trigger] after.probed.contains(c) || rules_out(bounds[c], tau)
            }),
        decreases n,
    {
        if n > 0 {
            self.law_expanded_sorted(q, bounds, tau, found, (n - 1) as nat);
            let before = self.expanded(q, bounds, tau, found, (n - 1) as nat);
            let start = self.boundary(n - 1);
            let len = self.boundary(n as int) - start;
            self.lemma_scan_sorted(q, start, len, len as nat, before.top);
        }
    }

    /// Once every cluster that its bound does not rule out has been probed, another round
    /// finds no cluster to probe.
    pub proof fn law_one_round_suffices(&self, q: Seq<int>, bounds: Seq<Single>, found: Found)
        requires
            found.top.len() == TOP_C,
            is_sorted(found.top, TOP_C as int),
        ensures
            ({
                let n = self.n_clusters as nat;
                let once = self.expanded(q, bounds, found.top[TOP_C - 1].0, found, n);
                self.expanded(q, bounds, once.top[TOP_C - 1].0, once, n) == once
            }),
    {
        let n = self.n_clusters as nat;
        let tau = found.top[TOP_C - 1].0;
        self.law_expanded_sorted(q, bounds, tau, found, n);
        let once = self.expanded(q, bounds, tau, found, n);
        self.lemma_nothing_left(q, bounds, tau, once.top[TOP_C - 1].0, once, n);
    }

    proof fn lemma_nothing_left(
        &self,
        q: Seq<int>,
        bounds: Seq<Single>,
        tau: u64,
        nearer: u64,
        found: Found,
        n: nat,
    )
        requires
            nearer <= tau,
            forall|c: int|
                0 <= c < n ==> #[trigger] found.probed.contains(c) || rules_out(bounds[c], tau),
        ensures
            self.expanded(q, bounds, nearer, found, n) == found,
        decreases n,
    {
        if n > 0 {
            self.lemma_nothing_left(q, bounds, tau, nearer, found, (n - 1) as nat);
            if !found.probed.contains(n - 1) {
                lemma_rules_out_nearer(bounds[n - 1], tau, nearer);
            }
        }
    }

    /// What heads a list of the nearest is a shorter list of the nearest.
    pub proof fn law_nearest_prefix(
        &self,
        q: Seq<int>,
        top: Seq<(u64, u32)>,
        limit: int,
        fewer: int,
        seen: Set<(int, int)>,
    )
        requires
            self.holds_nearest(q, top, limit, seen),
            0 < fewer <= limit,
        ensures
            self.holds_nearest(q, top, fewer, seen),
    {
        reveal(ExactIndex::holds_nearest);
        assert forall|place: (int, int)| #[trigger] seen.contains(place) implies is_among(
            top,
            fewer,
            self.item(q, place),
        ) || self.item(q, place).0 >= top[fewer - 1].0 by {
            if is_among(top, limit, self.item(q, place)) {
                let i = choose|i: int| 0 <= i < limit && #[trigger] top[i] == self.item(q, place);
                assert(top[fewer - 1].0.key() <= top[limit - 1].0.key());
                if i >= fewer {
                    assert(top[fewer - 1].0.key() <= top[i].0.key());
                }
            } else {
                assert(top[fewer - 1].0.key() <= top[limit - 1].0.key());
            }
        }
    }

    /// A vector with its refined distance.
    pub open spec fn refined_item(&self, q: Seq<int>, j: u32) -> (i64, u32) {
        (self.refined_distance(q, j as int, DIM as nat) as i64, j)
    }

    /// The vectors that vote by refined distance stand in order, come from the candidates,
    /// and are the nearest of them.
    pub proof fn law_refined_nearest(&self, q: Seq<int>, top: Seq<(u64, u32)>, n: nat)
        ensures
            ({
                let nearest = self.refined(q, top, n);
                &&& nearest.len() == K
                &&& is_sorted(nearest, K as int)
                &&& forall|i: int|
                    0 <= i < n ==> is_among(
                        nearest,
                        K as int,
                        self.refined_item(q, (#[trigger] top[i]).1),
                    ) || self.refined_item(q, top[i].1).0 >= nearest[K - 1].0
                &&& forall|k: int|
                    0 <= k < K && (#[trigger] nearest[k]).0 != i64::MAX ==> exists|i: int|
                        0 <= i < n && nearest[k] == self.refined_item(q, (#[trigger] top[i]).1)
            }),
        decreases n,
    {
        if n > 0 {
            self.law_refined_nearest(q, top, (n - 1) as nat);
            let limit = K as int;
            let before = self.refined(q, top, (n - 1) as nat);
            let item = self.refined_item(q, top[n - 1].1);
            let nearest = self.refined(q, top, n);
            law_offered_sorted(before, limit, item);
            law_offered_nearest(before, limit, item, item);
            assert forall|i: int| 0 <= i < n implies is_among(
                nearest,
                limit,
                self.refined_item(q, (#[trigger] top[i]).1),
            ) || self.refined_item(q, top[i].1).0 >= nearest[limit - 1].0 by {
                let other = self.refined_item(q, top[i].1);
                if i < n - 1 && is_among(before, limit, other) {
                    law_offered_nearest(before, limit, item, other);
                }
            }
            assert forall|k: int| 0 <= k < limit && (#[trigger] nearest[k]).0
                != i64::MAX implies exists|i: int|
                0 <= i < n && nearest[k] == self.refined_item(q, (#[trigger] top[i]).1) by {
                assert(is_among(nearest, limit, nearest[k]));
                law_offered_from(before, limit, item, nearest[k]);
                if nearest[k] == item {
                    assert(nearest[k] == self.refined_item(q, top[n - 1].1));
                } else {
                    let b = choose|b: int| 0 <= b < limit && #[trigger] before[b] == nearest[k];
                    let i = choose|i: int|
                        0 <= i < n - 1 && before[b] == self.refined_item(q, (#[trigger] top[i]).1);
                    assert(nearest[k] == self.refined_item(q, top[i].1));
                }
            }
        }
    }
}

/// `bound` rules out no threshold above `dist`.
pub open spec fn is_bound(bound: Single, dist: u64) -> bool {
    forall|tau: u64| #[trigger] rules_out(bound, tau) ==> dist >= tau
}

proof fn lemma_rules_out_nearer(bound: Single, tau: u64, nearer: u64)
    requires
        rules_out(bound, tau),
        nearer <= tau,
    ensures
        rules_out(bound, nearer),
{
    if tau != NO_DISTANCE {
        bound.law_reaches_below(tau as nat, nearer as nat);
    }
}

/// The first `n` of the list are different clusters, or different vectors.
pub open spec fn are_different<D>(list: Seq<(D, u32)>, n: int) -> bool {
    forall|a: int, b: int|
        0 <= a < b < n ==> (#[trigger] list[a]).1 != (#[trigger] list[b]).1
}

/// Where every centroid is at a finite distance, the clusters to probe are different ones.
pub proof fn law_finite_centroids_differ(centroid_dist: Seq<Single>, limit: int, clusters: nat)
    requires
        0 < limit <= MAX_NPROBE,
        limit <= clusters <= u32::MAX,
        are_finite(centroid_dist, clusters as int),
    ensures
        are_different(nearest_centroids(centroid_dist, limit, clusters), limit),
{
    lemma_probes(centroid_dist, limit, clusters, clusters as int);
}

/// The first `n` distances are finite numbers.
pub open spec fn are_finite(dist: Seq<Single>, n: int) -> bool {
    forall|c: int|
        0 <= c < n ==> !(#[trigger] dist[c]).nan() && dist[c].rank() < SINGLE_INFINITY
}

proof fn lemma_probes(centroid_dist: Seq<Single>, limit: int, n: nat, clusters: int)
    requires
        n <= clusters <= u32::MAX,
        are_finite(centroid_dist, clusters),
        0 < limit <= MAX_NPROBE,
    ensures
        ({
            let probes = nearest_centroids(centroid_dist, limit, n);
            &&& probes.len() == MAX_NPROBE
            &&& is_sorted(probes, limit)
            &&& forall|k: int|
                0 <= k < limit && k < n ==> (#[trigger] probes[k]).1 < n && probes[k].0.rank()
                    < SINGLE_INFINITY
            &&& forall|k: int|
                n <= k < limit ==> (#[trigger] probes[k]).0 == (Single { bits: SINGLE_INFINITY })
            &&& forall|a: int, b: int|
                0 <= a < b < limit && b < n ==> (#[trigger] probes[a]).1 != (#[trigger] probes[b]).1
        }),
    decreases n,
{
    if n > 0 {
        lemma_probes(centroid_dist, limit, (n - 1) as nat, clusters);
        let before = nearest_centroids(centroid_dist, limit, (n - 1) as nat);
        let item = (centroid_dist[n - 1], (n - 1) as u32);
        let probes = nearest_centroids(centroid_dist, limit, n);
        law_offered_sorted(before, limit, item);
        lemma_slot(before, limit - 1, item.0);
        let pos = slot(before, limit - 1, item.0);
        if !at_least(item.0, before[limit - 1].0) {
            if pos >= n {
                assert(farther(before[pos - 1].0, item.0));
            }
            assert(pos < n);
            assert forall|k: int| 0 <= k < limit && k < n implies (#[trigger] probes[k]).1 < n
                && probes[k].0.rank() < SINGLE_INFINITY by {
                if k < pos {
                    assert(probes[k] == before[k]);
                } else if k > pos {
                    assert(probes[k] == before[k - 1]);
                }
            }
            assert forall|k: int| n <= k < limit implies (#[trigger] probes[k]).0 == (Single {
                bits: SINGLE_INFINITY,
            }) by {
                assert(probes[k] == before[k - 1]);
            }
            assert forall|a: int, b: int| 0 <= a < b < limit && b < n implies (
            #[trigger] probes[a]).1 != (#[trigger] probes[b]).1 by {
                if a != pos {
                    assert(probes[a] == before[if a > pos {
                        a - 1
                    } else {
                        a
                    }]);
                }
                if b != pos {
                    assert(probes[b] == before[if b > pos {
                        b - 1
                    } else {
                        b
                    }]);
                }
            }
        } else {
            assert(limit - 1 < n - 1);
        }
    }
}

} // verus!
