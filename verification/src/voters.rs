//! Who votes on a query: five vectors, and five different ones once the list of candidates is
//! full.
use vstd::arithmetic::power2::{lemma2_to64, lemma_pow2_unfold, pow2};
use vstd::prelude::*;
use vstd::seq_lib::seq_to_set_is_finite;
use vstd::set_lib::{lemma_int_range, lemma_len_subset, set_int_range};

use crate::coarse::{lemma_rounded_bound, rounded, squared_distance};
use crate::exactness::are_different;
use crate::ieee::Single;
use crate::ivf_index::{ExactIndex, K, NO_DISTANCE, REFINE_MAX, TOP_C};
use crate::ranking::{at_least, is_sorted, lemma_slot, slot};
use crate::search::{
    is_near_tie, is_undecided, lemma_nearest_centroids, nearest_centroids, refined_votes, votes,
    QuantizedQuery,
};
use crate::types::DIM;

verus! {

/// How many of the first `n` voters are labelled fraudulent.
pub open spec fn frauds_among(labels: Seq<u8>, voters: Seq<u32>, n: nat) -> int
    decreases n,
{
    if n == 0 {
        0
    } else {
        frauds_among(labels, voters, (n - 1) as nat) + if labels[voters[n - 1] as int] != 0 {
            1int
        } else {
            0
        }
    }
}

impl<'a> ExactIndex<'a> {
    /// The vectors that vote: the nearest candidates where they nearly tie, or else the nearest
    /// by refined distance.
    pub open spec fn voters(&self, refined: Seq<int>, top: Seq<(u64, u32)>) -> Seq<u32> {
        Seq::new(
            K as nat,
            |k: int|
                if is_near_tie(top) {
                    top[k].1
                } else {
                    self.refined(refined, top, TOP_C as nat)[k].1
                },
        )
    }

    /// A refined distance is far from the largest machine integer.
    proof fn lemma_refined_distance(&self, q: Seq<int>, j: int, dims: nat)
        requires
            forall|d: int| 0 <= d < dims ==> -REFINE_MAX <= #[trigger] q[d] <= REFINE_MAX,
        ensures
            0 <= self.refined_distance(q, j, dims) <= dims * 0x4000_0000_0000,
        decreases dims,
    {
        if dims > 0 {
            self.lemma_refined_distance(q, j, (dims - 1) as nat);
            let diff = q[dims - 1] - self.refined_coordinate(j, dims - 1);
            assert(0 <= diff * diff <= 0x4000_0000_0000) by (nonlinear_arith)
                requires
                    -0x80_0000 <= diff <= 0x80_0000,
            ;
        }
    }

    /// Different candidates make different voters: of `n` different ones the nearest fill the
    /// list of those that vote by refined distance, each once.
    pub proof fn law_refined_differ(&self, q: &QuantizedQuery, top: Seq<(u64, u32)>, n: nat)
        requires
            q.wf(),
            are_different(top, n as int),
        ensures
            ({
                let list = self.refined(q.refined_vector(), top, n);
                &&& n >= K ==> are_different(list, K as int)
                &&& are_different(
                    list,
                    if n < K {
                        n as int
                    } else {
                        K as int
                    },
                )
                &&& forall|k: int|
                    0 <= k < K && k < n ==> (#[trigger] list[k]).0 < i64::MAX && exists|i: int|
                        0 <= i < n && (#[trigger] top[i]).1 == list[k].1
                &&& forall|k: int| n <= k < K ==> (#[trigger] list[k]).0 == i64::MAX
            }),
        decreases n,
    {
        let qv = q.refined_vector();
        if n > 0 {
            self.law_refined_differ(q, top, (n - 1) as nat);
            self.law_refined_nearest(qv, top, (n - 1) as nat);
            let limit = K as int;
            let before = self.refined(qv, top, (n - 1) as nat);
            let list = self.refined(qv, top, n);
            let item = self.refined_item(qv, top[n - 1].1);
            self.lemma_refined_distance(qv, top[n - 1].1 as int, DIM as nat);
            assert(item.0 < i64::MAX);
            lemma_slot(before, limit - 1, item.0);
            let pos = slot(before, limit - 1, item.0);
            if !at_least(item.0, before[limit - 1].0) {
                assert(pos < n) by {
                    if pos >= n {
                        assert(before[pos - 1].0 == i64::MAX);
                    }
                }
                assert forall|k: int| 0 <= k < limit && k < n implies (#[trigger] list[k]).0
                    < i64::MAX && exists|i: int|
                    0 <= i < n && (#[trigger] top[i]).1 == list[k].1 by {
                    if k == pos {
                        assert(top[n - 1].1 == list[k].1);
                    } else {
                        let b = if k > pos {
                            k - 1
                        } else {
                            k
                        };
                        assert(list[k] == before[b]);
                        let i = choose|i: int|
                            0 <= i < n - 1 && (#[trigger] top[i]).1 == before[b].1;
                        assert(top[i].1 == list[k].1);
                    }
                }
                assert forall|k: int| 0 <= k < limit && k < n - 1 implies (
                #[trigger] before[k]).1 != item.1 by {
                    let i = choose|i: int| 0 <= i < n - 1 && (#[trigger] top[i]).1 == before[k].1;
                    assert(top[i].1 != top[n - 1].1);
                }
                assert forall|a: int, b: int| 0 <= a < b < limit && b < n implies (
                #[trigger] list[a]).1 != (#[trigger] list[b]).1 by {
                    if a != pos {
                        assert(list[a] == before[if a > pos {
                            a - 1
                        } else {
                            a
                        }]);
                    }
                    if b != pos {
                        assert(list[b] == before[if b > pos {
                            b - 1
                        } else {
                            b
                        }]);
                    }
                }
                assert forall|k: int| n <= k < limit implies (#[trigger] list[k]).0
                    == i64::MAX by {
                    assert(list[k] == before[k - 1]);
                }
            } else {
                assert(limit <= n - 1);
                assert forall|k: int| 0 <= k < limit implies exists|i: int|
                    0 <= i < n && (#[trigger] top[i]).1 == (#[trigger] list[k]).1 by {
                    let i = choose|i: int| 0 <= i < n - 1 && (#[trigger] top[i]).1 == before[k].1;
                    assert(top[i].1 == list[k].1);
                }
            }
        }
    }

    proof fn lemma_votes(&self, top: Seq<(u64, u32)>, voters: Seq<u32>, from: nat)
        requires
            from <= K <= top.len(),
            voters.len() == K,
            forall|k: int|
                0 <= k < K ==> (#[trigger] top[k]).0 != NO_DISTANCE && voters[k] == top[k].1,
        ensures
            frauds_among(self.labels@, voters, from) + votes(
                self.labels@,
                top,
                from as int,
                K as int,
            ) == frauds_among(self.labels@, voters, K as nat),
        decreases K - from,
    {
        if from < K {
            self.lemma_votes(top, voters, from + 1);
            assert(top[from as int].0 != NO_DISTANCE);
        }
    }

    proof fn lemma_refined_votes(&self, list: Seq<(i64, u32)>, voters: Seq<u32>, n: nat)
        requires
            forall|k: int| 0 <= k < n ==> voters[k] == (#[trigger] list[k]).1,
        ensures
            refined_votes(self.labels@, list, n) == frauds_among(self.labels@, voters, n),
        decreases n,
    {
        if n > 0 {
            self.lemma_refined_votes(list, voters, (n - 1) as nat);
            assert(voters[n - 1] == list[n - 1].1);
        }
    }

    /// What a search finds are vectors, each of them once.
    pub proof fn law_searched_differ(
        &self,
        q: Seq<int>,
        centroid_dist: Seq<Single>,
        bounds: Seq<Single>,
    )
        requires
            self.wf(),
            self.ordered(),
            are_different(
                nearest_centroids(centroid_dist, self.nprobe as int, self.n_clusters as nat),
                self.nprobe as int,
            ),
        ensures
            ({
                let top = self.searched(q, centroid_dist, bounds).top;
                &&& top.len() == TOP_C
                &&& is_sorted(top, TOP_C as int)
                &&& forall|k: int|
                    0 <= k < TOP_C && (#[trigger] top[k]).0 != NO_DISTANCE ==> top[k].1
                        < self.n_vecs
                &&& forall|a: int, b: int|
                    0 <= a < b < TOP_C && (#[trigger] top[a]).0 != NO_DISTANCE && (
                    #[trigger] top[b]).0 != NO_DISTANCE ==> top[a].1 != top[b].1
            }),
    {
        let n = self.n_clusters as nat;
        let probes = nearest_centroids(centroid_dist, self.nprobe as int, n);
        lemma_nearest_centroids(centroid_dist, self.nprobe as int, n, n as int);
        let seed = self.seeded(q, probes, self.nprobe as nat);
        self.law_seeded_nearest(q, probes, self.nprobe as nat);
        self.law_seeded_sorted(q, probes, self.nprobe as nat);
        let tau = seed.top[TOP_C - 1].0;
        self.law_expanded_nearest(q, bounds, tau, seed, n);
        self.law_expanded_sorted(q, bounds, tau, seed, n);
        let found = self.searched(q, centroid_dist, bounds);
        reveal(ExactIndex::holds_nearest);
        assert forall|k: int|
            0 <= k < TOP_C && (#[trigger] found.top[k]).0 != NO_DISTANCE implies found.top[k].1
            < self.n_vecs by {
            let place = choose|place: (int, int)| #[trigger]
                self.places_in(found.probed).contains(place) && found.top[k] == self.item(
                    q,
                    place,
                );
            assert(self.is_place(place));
            assert(self.boundary(0) <= self.boundary(place.0));
            assert(self.boundary(place.0 + 1) <= self.boundary(self.n_clusters as int));
        }
    }

    /// A query counts the frauds among five different vectors, once the search has filled the
    /// list of candidates ([`ExactIndex::law_list_fills`] says when it does) and its first
    /// clusters are different ones.
    pub proof fn law_voters_differ(
        &self,
        q: &QuantizedQuery,
        centroid_dist: Seq<Single>,
        bounds: Seq<Single>,
    )
        requires
            self.wf(),
            self.ordered(),
            self.n_vecs > 0,
            q.wf(),
            are_different(
                nearest_centroids(centroid_dist, self.nprobe as int, self.n_clusters as nat),
                self.nprobe as int,
            ),
            self.searched(q.coarse_vector(), centroid_dist, bounds).top[TOP_C - 1].0
                != NO_DISTANCE,
        ensures
            ({
                let top = self.searched(q.coarse_vector(), centroid_dist, bounds).top;
                let voters = self.voters(q.refined_vector(), top);
                &&& voters.len() == K
                &&& forall|k: int| 0 <= k < K ==> #[trigger] voters[k] < self.n_vecs
                &&& forall|a: int, b: int|
                    0 <= a < b < K ==> #[trigger] voters[a] != #[trigger] voters[b]
                &&& self.outcome(q, centroid_dist, bounds) == frauds_among(
                    self.labels@,
                    voters,
                    K as nat,
                )
            }),
    {
        let top = self.searched(q.coarse_vector(), centroid_dist, bounds).top;
        let voters = self.voters(q.refined_vector(), top);
        self.law_searched_differ(q.coarse_vector(), centroid_dist, bounds);
        assert forall|k: int| 0 <= k < TOP_C implies (#[trigger] top[k]).0 != NO_DISTANCE by {
            assert(top[k].0 <= top[TOP_C - 1].0);
        }
        if is_near_tie(top) {
            self.lemma_votes(top, voters, 0);
            assert forall|a: int, b: int| 0 <= a < b < K implies #[trigger] voters[a]
                != #[trigger] voters[b] by {
                assert(top[a].1 != top[b].1);
            }
            assert forall|k: int| 0 <= k < K implies #[trigger] voters[k] < self.n_vecs by {
                assert(top[k].1 < self.n_vecs);
            }
        } else {
            let list = self.refined(q.refined_vector(), top, TOP_C as nat);
            self.law_refined_differ(q, top, TOP_C as nat);
            self.lemma_refined_votes(list, voters, K as nat);
            assert forall|a: int, b: int| 0 <= a < b < K implies #[trigger] voters[a]
                != #[trigger] voters[b] by {
                assert(list[a].1 != list[b].1);
            }
            assert forall|k: int| 0 <= k < K implies #[trigger] voters[k] < self.n_vecs by {
                let i = choose|i: int| 0 <= i < TOP_C && (#[trigger] top[i]).1 == list[k].1;
                assert(top[i].1 < self.n_vecs);
            }
        }
    }

    /// A coarse distance is below that of an empty place.
    proof fn lemma_coarse_bound(&self, q: &QuantizedQuery, j: int, dims: nat, fused: bool)
        requires
            dims <= DIM,
        ensures
            squared_distance(q.coarse_vector(), self.vector(j), dims, fused) + 17_179_344_900
                <= 17_179_344_900 * pow2(dims),
        decreases dims,
    {
        lemma2_to64();
        if dims > 0 {
            let a = q.coarse_vector();
            let b = self.vector(j);
            self.lemma_coarse_bound(q, j, (dims - 1) as nat, fused);
            lemma_pow2_unfold(dims);
            let sum = squared_distance(a, b, (dims - 1) as nat, fused);
            let diff = a[dims - 1] - b[dims - 1];
            assert(0 <= diff * diff <= 65_535 * 65_535) by (nonlinear_arith)
                requires
                    -65_535 <= diff <= 65_535,
            ;
            let square = (diff * diff) as nat;
            lemma_rounded_bound(square);
            lemma_rounded_bound(sum + square);
            lemma_rounded_bound(sum + rounded(square));
        }
    }

    /// Every vector is in a cluster, from the one on that starts before it.
    proof fn lemma_has_place(&self, j: int, c: int)
        requires
            self.wf(),
            0 <= c < self.n_clusters,
            self.boundary(c) <= j < self.n_vecs,
        ensures
            exists|place: (int, int)| #[trigger]
                self.is_place(place) && self.boundary(place.0) + place.1 == j,
        decreases self.n_clusters - c,
    {
        if j < self.boundary(c + 1) {
            assert(self.is_place((c, j - self.boundary(c))));
        } else {
            self.lemma_has_place(j, c + 1);
        }
    }

    /// A search that goes on fills the list of candidates, if there are vectors enough.
    pub proof fn law_list_fills(
        &self,
        q: &QuantizedQuery,
        centroid_dist: Seq<Single>,
        bounds: Seq<Single>,
    )
        requires
            self.wf(),
            self.ordered(),
            self.n_vecs >= TOP_C,
            are_different(
                nearest_centroids(centroid_dist, self.nprobe as int, self.n_clusters as nat),
                self.nprobe as int,
            ),
            self.are_bounds(q.coarse_vector(), bounds),
            is_undecided(
                self.labels@,
                self.seeded(
                    q.coarse_vector(),
                    nearest_centroids(
                        centroid_dist,
                        self.nprobe as int,
                        self.n_clusters as nat,
                    ),
                    self.nprobe as nat,
                ).top,
            ),
        ensures
            self.searched(q.coarse_vector(), centroid_dist, bounds).top[TOP_C - 1].0
                != NO_DISTANCE,
    {
        let qv = q.coarse_vector();
        let top = self.searched(qv, centroid_dist, bounds).top;
        let all = Set::new(|place: (int, int)| self.is_place(place));
        self.law_expanded_search_is_exact(q, centroid_dist, bounds);
        reveal(ExactIndex::holds_nearest);
        if top[TOP_C - 1].0 == NO_DISTANCE {
            let held = Seq::new((TOP_C - 1) as nat, |k: int| top[k].1 as int);
            let needed = set_int_range(0, TOP_C as int);
            assert forall|j: int| needed.contains(j) implies held.to_set().contains(j) by {
                self.lemma_has_place(j, 0);
                let place = choose|place: (int, int)| #[trigger]
                    self.is_place(place) && self.boundary(place.0) + place.1 == j;
                assert(all.contains(place));
                let item = self.item(qv, place);
                let fused = self.is_fused(place.1, self.cluster_size(place.0));
                self.lemma_coarse_bound(q, j, DIM as nat, fused);
                lemma2_to64();
                assert(item.0 < NO_DISTANCE);
                assert(item.1 == j);
                let k = choose|k: int| 0 <= k < TOP_C && #[trigger] top[k] == item;
                assert(held[k] == j);
                assert(held.contains(j));
            }
            assert(needed.subset_of(held.to_set()));
            lemma_int_range(0, TOP_C as int);
            held.lemma_cardinality_of_set();
            seq_to_set_is_finite(held);
            lemma_len_subset(needed, held.to_set());
        }
    }
}

} // verus!
