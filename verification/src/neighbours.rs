//! What a query comes to, in terms of the vectors around it and their labels.
use vstd::arithmetic::div_mod::{
    lemma_div_multiples_vanish, lemma_fundamental_div_mod, lemma_mod_bound,
    lemma_mod_multiples_basic,
};
use vstd::arithmetic::power2::{lemma2_to64, lemma_pow2_adds, lemma_pow2_pos, pow2};
use vstd::prelude::*;

use crate::coarse::{
    accumulate, accumulated, law_rounded_exact, round24, rounded, spacing, squared_distance,
    FULL_SIGNIFICAND,
};
use crate::exactness::{are_finite, is_bound, law_finite_centroids_differ};
use crate::ieee::Single;
use crate::ivf_index::{ExactIndex, Kernel, K, MAX_NPROBE, TOP_C};
use crate::ranking::{
    at_least, farther, is_among, is_sorted, law_offered_from, law_offered_nearest,
    law_offered_place, law_offered_sorted, lemma_slot, ranking, Distance,
};
use crate::search::{
    count_top_frauds, held, insert_candidate, insert_probe, insert_refined,
    lemma_nearest_centroids, nearest_centroids, quant16, quant_refined, refined_votes, rules_out,
    votes, QuantizedQuery, QueryScratch,
};
use crate::types::DIM;
use crate::values::{lemma_units_increase, single_units};

verus! {

/// The value of the bound is no more than `n`; one below zero always is.
pub open spec fn is_at_most(bound: Single, n: int) -> bool {
    bound.bits >= 0x8000_0000 || (bound.bits < 0x7f80_0000 && single_units(bound.bits as int) <= n
        * pow2(149))
}

proof fn lemma_reaches_by_value(bound: Single, n: nat)
    requires
        bound.bits < 0x7f80_0000,
    ensures
        bound.reaches(n) <==> single_units(bound.bits as int) >= n * pow2(149),
{
    let m = bound.bits as int;
    let field = m / 0x80_0000;
    let s = bound.significand();
    let e = bound.exponent();
    lemma_pow2_pos(149);
    lemma_pow2_pos((e - 1) as nat);
    assert(bound.magnitude() == m);
    if field == 0 {
        lemma2_to64();
        assert(s == m % 0x80_0000 && e == 1);
        assert(s * 1 == s);
    } else {
        assert(s == 0x80_0000 + m % 0x80_0000 && e == field);
    }
    assert(single_units(m) == s * pow2((e - 1) as nat));
    let q = pow2(149) as int;
    if e >= 150 {
        let p = pow2((e - 150) as nat) as int;
        lemma_pow2_adds((e - 150) as nat, 149);
        assert(s * (p * q) == (s * p) * q) by (nonlinear_arith);
        assert((s * p) * q >= n * q <==> s * p >= n) by (nonlinear_arith)
            requires
                q > 0,
        ;
    } else {
        let p = pow2((150 - e) as nat) as int;
        let t = pow2((e - 1) as nat) as int;
        lemma_pow2_adds((150 - e) as nat, (e - 1) as nat);
        assert(n * (p * t) == (n * p) * t) by (nonlinear_arith);
        assert(s * t >= (n * p) * t <==> s >= n * p) by (nonlinear_arith)
            requires
                t > 0,
        ;
    }
}

/// A bound with a value rules a cluster out exactly where its value is no less than the
/// threshold; where there is no threshold yet, only infinity does.
pub proof fn law_ruled_out_by_value(bound: Single, tau: u64)
    requires
        bound.bits <= 0x7f80_0000,
    ensures
        tau < u64::MAX && bound.bits < 0x7f80_0000 ==> (rules_out(bound, tau) <==> single_units(
            bound.bits as int,
        ) >= tau * pow2(149)),
        tau == u64::MAX ==> (rules_out(bound, tau) <==> bound.bits == 0x7f80_0000),
        bound.bits == 0x7f80_0000 ==> rules_out(bound, tau),
{
    if bound.bits < 0x7f80_0000 {
        lemma_reaches_by_value(bound, tau as nat);
    }
}

/// A bound that is below zero or not a number rules out no threshold above zero.
pub proof fn law_not_ruled_out(bound: Single, tau: u64)
    requires
        bound.bits > 0x7f80_0000,
        tau > 0,
    ensures
        !rules_out(bound, tau),
{
    if bound.bits == 0x8000_0000 {
        let q = pow2(149) as int;
        lemma_pow2_pos(149);
        assert(bound.significand() == 0 && bound.exponent() == 1);
        assert(tau * q > 0) by (nonlinear_arith)
            requires
                tau > 0,
                q > 0,
        ;
    }
}

/// A bound whose value is no more than a distance rules out no threshold above that distance.
proof fn lemma_is_bound(bound: Single, dist: u64)
    requires
        is_at_most(bound, dist as int),
    ensures
        is_bound(bound, dist),
{
    assert forall|tau: u64| #[trigger] rules_out(bound, tau) implies dist >= tau by {
        if bound.bits < 0x8000_0000 {
            lemma_reaches_by_value(bound, tau as nat);
            let q = pow2(149) as int;
            lemma_pow2_pos(149);
            if tau != u64::MAX {
                assert(dist >= tau) by (nonlinear_arith)
                    requires
                        dist * q >= tau * q,
                        q > 0,
                ;
            }
        } else if bound.bits == 0x8000_0000 {
            let q = pow2(149) as int;
            lemma_pow2_pos(149);
            assert(bound.significand() == 0 && bound.exponent() == 1);
            assert(tau == 0) by (nonlinear_arith)
                requires
                    0 >= tau * q,
                    q > 0,
                    tau >= 0,
            ;
        }
    }
}

/// 1 for a vector that is labelled fraudulent, and 0 for another.
pub open spec fn fraud(labels: Seq<u8>, j: u32) -> int {
    if labels[j as int] != 0 {
        1
    } else {
        0
    }
}

/// How many of five vectors are labelled fraudulent.
pub open spec fn frauds_of_five(labels: Seq<u8>, a: u32, b: u32, c: u32, d: u32, e: u32) -> int {
    fraud(labels, a) + fraud(labels, b) + fraud(labels, c) + fraud(labels, d) + fraud(labels, e)
}

proof fn lemma_five_votes(labels: Seq<u8>, top: Seq<(u64, u32)>)
    requires
        top.len() == 16,
        forall|k: int| 0 <= k < 5 ==> (#[trigger] top[k]).0 != u64::MAX,
    ensures
        votes(labels, top, 0, 5) == frauds_of_five(
            labels,
            top[0].1,
            top[1].1,
            top[2].1,
            top[3].1,
            top[4].1,
        ),
{
    reveal_with_fuel(votes, 6);
    assert(top[0].0 != u64::MAX && top[1].0 != u64::MAX && top[2].0 != u64::MAX && top[3].0
        != u64::MAX && top[4].0 != u64::MAX);
}

/// A number times itself.
pub open spec fn square(n: int) -> int {
    n * n
}

impl<'a> ExactIndex<'a> {
    /// Every place that names a vector.
    pub open spec fn all_places(&self) -> Set<(int, int)> {
        Set::new(|place: (int, int)| self.is_place(place))
    }

    /// Every bound is no more than the distance of any vector of its cluster.
    pub open spec fn lie_below(&self, q: Seq<int>, bounds: Seq<Single>) -> bool {
        forall|place: (int, int)|
            self.is_place(place) ==> is_at_most(
                bounds[place.0],
                (#[trigger] self.item(q, place)).0 as int,
            )
    }

    /// The nearest vectors of the clusters that are probed first.
    pub open spec fn first_found(&self, q: Seq<int>, centroid_dist: Seq<Single>) -> Seq<
        (u64, u32),
    > {
        self.seeded(
            q,
            nearest_centroids(centroid_dist, self.nprobe as int, self.n_clusters as nat),
            self.nprobe as nat,
        ).top
    }

    /// Whenever the five nearest vectors of the clusters probed first carry both labels, or are
    /// fewer than five, the candidates that a query votes on are the nearest of all vectors of the
    /// index, given that the bounds lie below the distances.
    pub proof fn law_divided_is_exact(
        &self,
        q: &QuantizedQuery,
        centroid_dist: Seq<Single>,
        bounds: Seq<Single>,
    )
        requires
            self.wf(),
            self.ordered(),
            are_finite(centroid_dist, self.n_clusters as int),
            self.lie_below(q.coarse_vector(), bounds),
            ({
                let near = self.first_found(q.coarse_vector(), centroid_dist);
                near[4].0 == u64::MAX || exists|a: int, b: int|
                    0 <= a < 5 && 0 <= b < 5 && self.labels@[(#[trigger] near[a]).1 as int] == 0
                        && self.labels@[(#[trigger] near[b]).1 as int] != 0
            }),
        ensures
            self.holds_nearest(
                q.coarse_vector(),
                self.searched(q.coarse_vector(), centroid_dist, bounds).top,
                16,
                self.all_places(),
            ),
            self.holds_nearest(
                q.coarse_vector(),
                self.searched(q.coarse_vector(), centroid_dist, bounds).top,
                5,
                self.all_places(),
            ),
    {
        let qv = q.coarse_vector();
        let near = self.first_found(qv, centroid_dist);
        let probes = nearest_centroids(
            centroid_dist,
            self.nprobe as int,
            self.n_clusters as nat,
        );
        law_finite_centroids_differ(centroid_dist, self.nprobe as int, self.n_clusters as nat);
        self.law_seeded_sorted(qv, probes, self.nprobe as nat);
        assert forall|place: (int, int)| self.is_place(place) implies is_bound(
            bounds[place.0],
            (#[trigger] self.item(qv, place)).0,
        ) by {
            lemma_is_bound(bounds[place.0], self.item(qv, place).0);
        }
        if near[4].0 != u64::MAX {
            assert forall|k: int| 0 <= k < 5 implies (#[trigger] near[k]).0 != u64::MAX by {
                assert(near[k].0 <= near[4].0);
            }
            lemma_five_votes(self.labels@, near);
        }
        self.law_expanded_search_is_exact(q, centroid_dist, bounds);
    }

    /// Where the five nearest vectors of the clusters probed first carry one label, these are the
    /// clusters that are probed, and the vectors found there vote.
    pub proof fn law_agreeing_is_enough(
        &self,
        q: &QuantizedQuery,
        centroid_dist: Seq<Single>,
        bounds: Seq<Single>,
    )
        requires
            self.wf(),
            ({
                let near = self.first_found(q.coarse_vector(), centroid_dist);
                &&& near[4].0 != u64::MAX
                &&& (forall|k: int|
                    0 <= k < 5 ==> self.labels@[(#[trigger] near[k]).1 as int] == 0) || (forall|
                    k: int,
                |
                    0 <= k < 5 ==> self.labels@[(#[trigger] near[k]).1 as int] != 0)
            }),
        ensures
            self.searched(q.coarse_vector(), centroid_dist, bounds).top == self.first_found(
                q.coarse_vector(),
                centroid_dist,
            ),
            forall|c: int| #[trigger]
                self.searched(q.coarse_vector(), centroid_dist, bounds).probed.contains(c)
                    ==> exists|k: int|
                    0 <= k < self.nprobe && (#[trigger] nearest_centroids(
                        centroid_dist,
                        self.nprobe as int,
                        self.n_clusters as nat,
                    )[k]).1 == c,
    {
        let qv = q.coarse_vector();
        let near = self.first_found(qv, centroid_dist);
        let probes = nearest_centroids(
            centroid_dist,
            self.nprobe as int,
            self.n_clusters as nat,
        );
        self.law_seeded_sorted(qv, probes, self.nprobe as nat);
        assert forall|k: int| 0 <= k < 5 implies (#[trigger] near[k]).0 != u64::MAX by {
            assert(near[k].0 <= near[4].0);
        }
        lemma_five_votes(self.labels@, near);
        assert(fraud(self.labels@, near[0].1) == fraud(self.labels@, near[1].1));
        assert(fraud(self.labels@, near[0].1) == fraud(self.labels@, near[2].1));
        assert(fraud(self.labels@, near[0].1) == fraud(self.labels@, near[3].1));
        assert(fraud(self.labels@, near[0].1) == fraud(self.labels@, near[4].1));
        self.lemma_seeded_probed(qv, probes, self.nprobe as nat);
    }

    proof fn lemma_seeded_probed(&self, q: Seq<int>, probes: Seq<(Single, u32)>, n: nat)
        ensures
            forall|c: int| #[trigger]
                self.seeded(q, probes, n).probed.contains(c) <==> exists|k: int|
                    0 <= k < n && (#[trigger] probes[k]).1 == c,
        decreases n,
    {
        if n > 0 {
            let before = self.seeded(q, probes, (n - 1) as nat);
            self.lemma_seeded_probed(q, probes, (n - 1) as nat);
            assert forall|c: int| #[trigger]
                self.seeded(q, probes, n).probed.contains(c) <==> exists|k: int|
                0 <= k < n && (#[trigger] probes[k]).1 == c by {
                if before.probed.contains(c) {
                    let k = choose|k: int| 0 <= k < n - 1 && (#[trigger] probes[k]).1 == c;
                    assert(probes[k].1 == c);
                }
                if exists|k: int| 0 <= k < n && (#[trigger] probes[k]).1 == c {
                    let k = choose|k: int| 0 <= k < n && (#[trigger] probes[k]).1 == c;
                    if k < n - 1 {
                        assert(before.probed.contains(c));
                    }
                }
                assert(probes[n - 1].1 == probes[n - 1].1);
            }
        }
    }

    /// The clusters probed first yield the nearest of the vectors in them.
    pub proof fn law_first_found(&self, q: Seq<int>, centroid_dist: Seq<Single>)
        requires
            self.wf(),
            self.ordered(),
            are_finite(centroid_dist, self.n_clusters as int),
        ensures
            self.holds_nearest(
                q,
                self.first_found(q, centroid_dist),
                16,
                Set::new(
                    |place: (int, int)|
                        self.is_place(place) && exists|k: int|
                            0 <= k < self.nprobe && (#[trigger] nearest_centroids(
                                centroid_dist,
                                self.nprobe as int,
                                self.n_clusters as nat,
                            )[k]).1 == place.0,
                ),
            ),
    {
        let n = self.n_clusters as nat;
        let probes = nearest_centroids(centroid_dist, self.nprobe as int, n);
        law_finite_centroids_differ(centroid_dist, self.nprobe as int, n);
        lemma_nearest_centroids(centroid_dist, self.nprobe as int, n, n as int);
        self.law_seeded_nearest(q, probes, self.nprobe as nat);
        self.lemma_seeded_probed(q, probes, self.nprobe as nat);
        assert(self.places_in(self.seeded(q, probes, self.nprobe as nat).probed) =~= Set::new(
            |place: (int, int)|
                self.is_place(place) && exists|k: int|
                    0 <= k < self.nprobe && (#[trigger] probes[k]).1 == place.0,
        ));
    }

    /// A query counts the frauds among five of its candidates: the five nearest where the sixth is
    /// no more than 2048 farther than the fifth, and otherwise the five nearest by refined
    /// distance. An index without vectors makes it five.
    pub proof fn law_votes_counted(
        &self,
        q: &QuantizedQuery,
        centroid_dist: &[Single],
        bounds: &[Single],
        scratch: &mut QueryScratch,
        r: Option<usize>,
    )
        requires
            call_ensures(ExactIndex::try_query, (self, q, centroid_dist, bounds, scratch), r),
            self.wf(),
        ensures
            self.n_vecs == 0 ==> r == Some(5usize),
            self.n_vecs > 0 ==> {
                let top = self.searched(q.coarse_vector(), centroid_dist@, bounds@).top;
                let fine = self.refined(q.refined_vector(), top, 16);
                &&& r is Some && top[5].0 != u64::MAX && top[5].0 <= top[4].0 + 2048 ==> r->0
                    == frauds_of_five(
                    self.labels@,
                    top[0].1,
                    top[1].1,
                    top[2].1,
                    top[3].1,
                    top[4].1,
                )
                &&& r is Some && (top[5].0 == u64::MAX || top[5].0 > top[4].0 + 2048) ==> r->0
                    == frauds_of_five(
                    self.labels@,
                    fine[0].1,
                    fine[1].1,
                    fine[2].1,
                    fine[3].1,
                    fine[4].1,
                )
            },
    {
        if self.n_vecs > 0 {
            let qv = q.coarse_vector();
            let found = self.searched(qv, centroid_dist@, bounds@);
            let top = found.top;
            let fine = self.refined(q.refined_vector(), top, 16);
            let probes = nearest_centroids(
                centroid_dist@,
                self.nprobe as int,
                self.n_clusters as nat,
            );
            let seed = self.seeded(qv, probes, self.nprobe as nat);
            self.law_seeded_sorted(qv, probes, self.nprobe as nat);
            self.law_expanded_sorted(
                qv,
                bounds@,
                seed.top[TOP_C - 1].0,
                seed,
                self.n_clusters as nat,
            );
            assert forall|k: int| 0 <= k < 5 implies (#[trigger] top[k]).0 <= top[4].0 && top[4].0
                <= top[5].0 by {}
            if top[5].0 != u64::MAX {
                lemma_five_votes(self.labels@, top);
            }
            reveal_with_fuel(refined_votes, 6);
        }
    }

    /// A query whose five nearest vectors in the clusters probed first carry both labels is decided
    /// by the nearest of all vectors of the index: by the labels of the five nearest where the
    /// sixth is hardly farther, and otherwise of the five of the sixteen that are nearest by
    /// refined distance.
    pub proof fn law_divided_query(
        &self,
        q: &QuantizedQuery,
        centroid_dist: &[Single],
        bounds: &[Single],
        scratch: &mut QueryScratch,
        r: Option<usize>,
    )
        requires
            call_ensures(ExactIndex::try_query, (self, q, centroid_dist, bounds, scratch), r),
            self.wf(),
            self.ordered(),
            self.n_vecs >= 16,
            are_finite(centroid_dist@, self.n_clusters as int),
            self.lie_below(q.coarse_vector(), bounds@),
            ({
                let near = self.first_found(q.coarse_vector(), centroid_dist@);
                exists|a: int, b: int|
                    0 <= a < 5 && 0 <= b < 5 && self.labels@[(#[trigger] near[a]).1 as int] == 0
                        && self.labels@[(#[trigger] near[b]).1 as int] != 0
            }),
        ensures
            exists|top: Seq<(u64, u32)>|
                {
                    let fine = self.refined(q.refined_vector(), top, 16);
                    &&& #[trigger] self.holds_nearest(
                        q.coarse_vector(),
                        top,
                        16,
                        self.all_places(),
                    )
                    &&& top[5].0 <= top[4].0 + 2048 ==> r == Some(
                        frauds_of_five(
                            self.labels@,
                            top[0].1,
                            top[1].1,
                            top[2].1,
                            top[3].1,
                            top[4].1,
                        ) as usize,
                    )
                    &&& top[5].0 > top[4].0 + 2048 ==> r == Some(
                        frauds_of_five(
                            self.labels@,
                            fine[0].1,
                            fine[1].1,
                            fine[2].1,
                            fine[3].1,
                            fine[4].1,
                        ) as usize,
                    )
                },
    {
        let qv = q.coarse_vector();
        let near = self.first_found(qv, centroid_dist@);
        let probes = nearest_centroids(
            centroid_dist@,
            self.nprobe as int,
            self.n_clusters as nat,
        );
        let top = self.searched(qv, centroid_dist@, bounds@).top;
        law_finite_centroids_differ(centroid_dist@, self.nprobe as int, self.n_clusters as nat);
        self.law_seeded_sorted(qv, probes, self.nprobe as nat);
        self.law_divided_is_exact(q, centroid_dist@, bounds@);
        self.law_votes_counted(q, centroid_dist, bounds, scratch, r);
        self.law_query_succeeds(q, centroid_dist, bounds, scratch, r);
        assert forall|place: (int, int)| self.is_place(place) implies is_bound(
            bounds@[place.0],
            (#[trigger] self.item(qv, place)).0,
        ) by {
            lemma_is_bound(bounds@[place.0], self.item(qv, place).0);
        }
        if near[4].0 != u64::MAX {
            assert forall|k: int| 0 <= k < 5 implies (#[trigger] near[k]).0 != u64::MAX by {
                assert(near[k].0 <= near[4].0);
            }
            lemma_five_votes(self.labels@, near);
        }
        self.law_list_fills(q, centroid_dist@, bounds@);
        self.law_searched_differ(qv, centroid_dist@, bounds@);
        assert(top[5].0 <= top[TOP_C - 1].0);
    }

    /// A query over an index whose clusters stand in order has an outcome.
    pub proof fn law_query_succeeds(
        &self,
        q: &QuantizedQuery,
        centroid_dist: &[Single],
        bounds: &[Single],
        scratch: &mut QueryScratch,
        r: Option<usize>,
    )
        requires
            call_ensures(ExactIndex::try_query, (self, q, centroid_dist, bounds, scratch), r),
            self.wf(),
            self.ordered(),
        ensures
            r matches Some(n) && n <= 5,
    {
        self.law_ordered_probes_soundly(q.coarse_vector(), centroid_dist@, bounds@);
    }

    /// A query has no outcome only where some cluster runs backwards or reaches past the last
    /// vector, and one that has an outcome has probed no such cluster.
    pub proof fn law_query_fails(
        &self,
        q: &QuantizedQuery,
        centroid_dist: &[Single],
        bounds: &[Single],
        scratch: &mut QueryScratch,
        r: Option<usize>,
    )
        requires
            call_ensures(ExactIndex::try_query, (self, q, centroid_dist, bounds, scratch), r),
            self.n_vecs > 0,
        ensures
            ({
                let probed = self.searched(q.coarse_vector(), centroid_dist@, bounds@).probed;
                r is None <==> exists|c: int| #[trigger]
                    probed.contains(c) && (self.boundary(c) > self.boundary(c + 1) || (
                    self.boundary(c) != self.boundary(c + 1) && self.boundary(c + 1)
                        > self.n_vecs))
            }),
            r is Some ==> final(scratch).marked() == self.searched(
                q.coarse_vector(),
                centroid_dist@,
                bounds@,
            ).probed,
    {
        let qv = q.coarse_vector();
        let probed = self.searched(qv, centroid_dist@, bounds@).probed;
        if r is None {
            let c = choose|c: int| #[trigger] probed.contains(c) && !self.is_sound(c);
            assert(probed.contains(c));
        }
        if r is Some {
            assert forall|c: int| #[trigger] probed.contains(c) implies self.is_sound(c) by {}
        }
    }

    /// The coarse coordinate of a vector is the signed number of its two bytes, the low one first;
    /// the bytes of each coordinate stand together, vector after vector.
    pub proof fn law_coordinate_bytes(&self, j: int, d: int)
        requires
            0 <= d < 14,
            0 <= j < self.n_vecs,
        ensures
            ({
                let at = 2 * (d * self.n_vecs + j);
                let (low, high) = (self.dims@[at], self.dims@[at + 1]);
                self.coordinate(j, d) == low + 256 * high - if high < 128 {
                    0int
                } else {
                    65_536
                }
            }),
            ({
                let residual = self.residuals@[d * self.n_vecs + j];
                self.refined_coordinate(j, d) == 128 * self.coordinate(j, d) + residual
                    - if residual < 128 {
                    0int
                } else {
                    256
                }
            }),
    {
    }

    /// A refined distance is the sum of the squared differences of all fourteen coordinates.
    pub proof fn law_refined_distance(&self, q: Seq<int>, j: int)
        requires
            q.len() == 14,
        ensures
            self.refined_distance(q, j, 14) == square(q[0] - self.refined_coordinate(j, 0))
                + square(q[1] - self.refined_coordinate(j, 1))
                + square(q[2] - self.refined_coordinate(j, 2))
                + square(q[3] - self.refined_coordinate(j, 3))
                + square(q[4] - self.refined_coordinate(j, 4))
                + square(q[5] - self.refined_coordinate(j, 5))
                + square(q[6] - self.refined_coordinate(j, 6))
                + square(q[7] - self.refined_coordinate(j, 7))
                + square(q[8] - self.refined_coordinate(j, 8))
                + square(q[9] - self.refined_coordinate(j, 9))
                + square(q[10] - self.refined_coordinate(j, 10))
                + square(q[11] - self.refined_coordinate(j, 11))
                + square(q[12] - self.refined_coordinate(j, 12))
                + square(q[13] - self.refined_coordinate(j, 13)),
    {
        reveal_with_fuel(ExactIndex::refined_distance, 15);
    }

    /// A fused kernel takes the vectors of a cluster in whole groups of eight.
    pub proof fn law_fused_groups(&self, i: int, n: int)
        requires
            0 <= i < n,
        ensures
            self.is_fused(i, n) <==> self.kernel == Kernel::Fused && (i / 8 + 1) * 8 <= n,
    {
    }
}

/// The value of a binary32 number, in units of two to the power of -149.
pub open spec fn single_value(v: Single) -> int {
    if v.bits >= 0x8000_0000 {
        -single_units(v.bits - 0x8000_0000)
    } else {
        single_units(v.bits as int)
    }
}

/// The number is neither infinite nor not a number.
pub open spec fn is_finite_single(v: Single) -> bool {
    (v.bits / 0x80_0000) % 256 != 255
}

/// Of two finite numbers the one with the lower value is less, and at least as far is what is not
/// less.
pub proof fn law_single_by_value(a: Single, b: Single)
    requires
        is_finite_single(a),
        is_finite_single(b),
    ensures
        a.less(b) <==> single_value(a) < single_value(b),
        a.no_less(b) <==> single_value(a) >= single_value(b),
        at_least(a, b) <==> single_value(a) >= single_value(b),
        farther(a, b) <==> single_value(a) > single_value(b),
        a.rank() <= b.rank() <==> single_value(a) <= single_value(b),
{
    let unit: int = 0x80_0000;
    assert(single_units(0) == 0);
    if a.magnitude() > 0 {
        lemma_units_increase(0, a.magnitude(), unit);
    }
    if b.magnitude() > 0 {
        lemma_units_increase(0, b.magnitude(), unit);
    }
    if a.magnitude() < b.magnitude() {
        lemma_units_increase(a.magnitude(), b.magnitude(), unit);
    } else if b.magnitude() < a.magnitude() {
        lemma_units_increase(b.magnitude(), a.magnitude(), unit);
    }
}

/// Preparing a search leaves no cluster marked, and a mark for every cluster.
pub proof fn law_prepared(scratch: &mut QueryScratch, n_clusters: usize, r: u32)
    requires
        call_ensures(QueryScratch::prepare, (scratch, n_clusters), r),
        old(scratch).wf(),
    ensures
        final(scratch).probed_epoch@.len() >= n_clusters,
        final(scratch).probed_epoch@.len() >= old(scratch).probed_epoch@.len(),
        forall|c: int|
            0 <= c < final(scratch).probed_epoch@.len() ==> r > #[trigger] final(scratch)
                .probed_epoch@[c],
        final(scratch).epoch == r,
{
    assert forall|c: int| 0 <= c < final(scratch).probed_epoch@.len() implies r
        > #[trigger] final(scratch).probed_epoch@[c] by {
        assert(!final(scratch).marked().contains(c));
    }
}

proof fn lemma_probes_nearest(centroid_dist: Seq<Single>, limit: int, n: nat)
    requires
        n <= u32::MAX,
        0 < limit <= MAX_NPROBE,
        are_finite(centroid_dist, n as int),
    ensures
        ({
            let probes = nearest_centroids(centroid_dist, limit, n);
            &&& probes.len() == MAX_NPROBE
            &&& is_sorted(probes, limit)
            &&& forall|c: int|
                0 <= c < n ==> is_among(probes, limit, (#[trigger] centroid_dist[c], c as u32))
                    || centroid_dist[c].rank() >= probes[limit - 1].0.rank()
            &&& forall|k: int|
                0 <= k < limit ==> (#[trigger] probes[k]).0.bits == 0x7f80_0000 || (probes[k].1 < n
                    && probes[k].0 == centroid_dist[probes[k].1 as int])
        }),
    decreases n,
{
    if n > 0 {
        assert forall|c: int| 0 <= c < n - 1 implies !(#[trigger] centroid_dist[c]).nan()
            && centroid_dist[c].rank() < 0x7f80_0000 by {}
        lemma_probes_nearest(centroid_dist, limit, (n - 1) as nat);
        let before = nearest_centroids(centroid_dist, limit, (n - 1) as nat);
        let item = (centroid_dist[n - 1], (n - 1) as u32);
        let probes = nearest_centroids(centroid_dist, limit, n);
        law_offered_sorted(before, limit, item);
        law_offered_nearest(before, limit, item, item);
        lemma_slot(before, limit - 1, item.0);
        assert forall|c: int| 0 <= c < n implies is_among(
            probes,
            limit,
            (#[trigger] centroid_dist[c], c as u32),
        ) || centroid_dist[c].rank() >= probes[limit - 1].0.rank() by {
            let other = (centroid_dist[c], c as u32);
            if c < n - 1 && is_among(before, limit, other) {
                law_offered_nearest(before, limit, item, other);
            }
        }
        assert forall|k: int| 0 <= k < limit implies (#[trigger] probes[k]).0.bits == 0x7f80_0000
            || (probes[k].1 < n && probes[k].0 == centroid_dist[probes[k].1 as int]) by {
            assert(is_among(probes, limit, probes[k]));
            law_offered_from(before, limit, item, probes[k]);
            if probes[k] != item {
                let i = choose|i: int| 0 <= i < limit && #[trigger] before[i] == probes[k];
                assert(before[i].0.bits == 0x7f80_0000 || before[i].1 < n - 1);
            }
        }
    }
}

/// The clusters probed first are those whose centroids are nearest: a cluster that is not among
/// them has no nearer centroid than any of them.
pub proof fn law_probed_first(centroid_dist: Seq<Single>, limit: int, clusters: nat, c: int, k: int)
    requires
        0 < limit <= 24,
        limit <= clusters <= u32::MAX,
        forall|i: int| 0 <= i < clusters ==> (#[trigger] centroid_dist[i]).bits < 0x7f80_0000,
        0 <= c < clusters,
        0 <= k < limit,
        forall|i: int|
            0 <= i < limit ==> (#[trigger] nearest_centroids(centroid_dist, limit, clusters)[i]).1
                != c,
    ensures
        ({
            let near = nearest_centroids(centroid_dist, limit, clusters)[k].1 as int;
            &&& near < clusters
            &&& single_units(centroid_dist[near].bits as int) <= single_units(
                centroid_dist[c].bits as int,
            )
        }),
{
    let probes = nearest_centroids(centroid_dist, limit, clusters);
    lemma_probes_nearest(centroid_dist, limit, clusters);
    assert(is_among(probes, limit, (centroid_dist[c], c as u32)) || centroid_dist[c].rank()
        >= probes[limit - 1].0.rank());
    if is_among(probes, limit, (centroid_dist[c], c as u32)) {
        let i = choose|i: int|
            0 <= i < limit && #[trigger] probes[i] == (centroid_dist[c], c as u32);
        assert(probes[i].1 != c);
    }
    assert(probes[k].0.key() <= probes[limit - 1].0.key());
    assert(probes[k].0.rank() <= centroid_dist[c].rank());
    assert(probes[k].0.bits != 0x7f80_0000);
    let near = probes[k].1 as int;
    assert(probes[k].0 == centroid_dist[near]);
    law_single_by_value(centroid_dist[near], centroid_dist[c]);
}

/// The sum of the squared differences of two vectors.
pub open spec fn sum_of_squares(a: Seq<int>, b: Seq<int>) -> int {
    square(a[0] - b[0])
        + square(a[1] - b[1])
        + square(a[2] - b[2])
        + square(a[3] - b[3])
        + square(a[4] - b[4])
        + square(a[5] - b[5])
        + square(a[6] - b[6])
        + square(a[7] - b[7])
        + square(a[8] - b[8])
        + square(a[9] - b[9])
        + square(a[10] - b[10])
        + square(a[11] - b[11])
        + square(a[12] - b[12])
        + square(a[13] - b[13])
}

proof fn lemma_exact_so_far(a: Seq<int>, b: Seq<int>, dims: nat, sum: int, fused: bool)
    requires
        squared_distance(a, b, dims, fused) == sum,
        sum + square(a[dims as int] - b[dims as int]) <= 0x100_0000,
        0 <= sum,
    ensures
        squared_distance(a, b, dims + 1, fused) == sum + square(a[dims as int] - b[dims as int]),
{
    let diff = a[dims as int] - b[dims as int];
    assert(diff * diff >= 0) by (nonlinear_arith);
    law_rounded_exact((diff * diff) as nat);
    law_rounded_exact((sum + diff * diff) as nat);
}

proof fn lemma_square(n: int)
    ensures
        square(n) >= 0,
{
    assert(n * n >= 0) by (nonlinear_arith);
}

/// A coarse distance is the sum of the squared differences of all fourteen coordinates, as long as
/// that fits 24 bits, whatever the kernel.
pub proof fn law_coarse_distance(a: Seq<int>, b: Seq<int>, fused: bool)
    requires
        sum_of_squares(a, b) <= 0x100_0000,
    ensures
        squared_distance(a, b, 14, fused) == sum_of_squares(a, b),
{
    lemma_square(a[0] - b[0]);
    lemma_square(a[1] - b[1]);
    lemma_square(a[2] - b[2]);
    lemma_square(a[3] - b[3]);
    lemma_square(a[4] - b[4]);
    lemma_square(a[5] - b[5]);
    lemma_square(a[6] - b[6]);
    lemma_square(a[7] - b[7]);
    lemma_square(a[8] - b[8]);
    lemma_square(a[9] - b[9]);
    lemma_square(a[10] - b[10]);
    lemma_square(a[11] - b[11]);
    lemma_square(a[12] - b[12]);
    lemma_square(a[13] - b[13]);
    assert(squared_distance(a, b, 0, fused) == 0);
    let s0 = 0int;
    lemma_exact_so_far(a, b, 0, s0, fused);
    let s1 = s0 + square(a[0] - b[0]);
    lemma_exact_so_far(a, b, 1, s1, fused);
    let s2 = s1 + square(a[1] - b[1]);
    lemma_exact_so_far(a, b, 2, s2, fused);
    let s3 = s2 + square(a[2] - b[2]);
    lemma_exact_so_far(a, b, 3, s3, fused);
    let s4 = s3 + square(a[3] - b[3]);
    lemma_exact_so_far(a, b, 4, s4, fused);
    let s5 = s4 + square(a[4] - b[4]);
    lemma_exact_so_far(a, b, 5, s5, fused);
    let s6 = s5 + square(a[5] - b[5]);
    lemma_exact_so_far(a, b, 6, s6, fused);
    let s7 = s6 + square(a[6] - b[6]);
    lemma_exact_so_far(a, b, 7, s7, fused);
    let s8 = s7 + square(a[7] - b[7]);
    lemma_exact_so_far(a, b, 8, s8, fused);
    let s9 = s8 + square(a[8] - b[8]);
    lemma_exact_so_far(a, b, 9, s9, fused);
    let s10 = s9 + square(a[9] - b[9]);
    lemma_exact_so_far(a, b, 10, s10, fused);
    let s11 = s10 + square(a[10] - b[10]);
    lemma_exact_so_far(a, b, 11, s11, fused);
    let s12 = s11 + square(a[11] - b[11]);
    lemma_exact_so_far(a, b, 12, s12, fused);
    let s13 = s12 + square(a[12] - b[12]);
    lemma_exact_so_far(a, b, 13, s13, fused);
    let s14 = s13 + square(a[13] - b[13]);
}

/// A squared difference added to a sum of 24 significant bits: rounded by itself before, unless the
/// kernel is fused.
pub open spec fn added(sum: nat, diff: int, fused: bool) -> nat {
    rounded(
        sum + if fused {
            square(diff) as nat
        } else {
            rounded(square(diff) as nat)
        },
    )
}

/// A coarse distance adds up the squared differences of the fourteen coordinates in their order,
/// from zero on, and rounds at every step.
pub proof fn law_coarse_steps(a: Seq<int>, b: Seq<int>, fused: bool)
    ensures
        squared_distance(a, b, 14, fused) == ({
            let s0: nat = 0;
            let s1 = added(s0, a[0] - b[0], fused);
            let s2 = added(s1, a[1] - b[1], fused);
            let s3 = added(s2, a[2] - b[2], fused);
            let s4 = added(s3, a[3] - b[3], fused);
            let s5 = added(s4, a[4] - b[4], fused);
            let s6 = added(s5, a[5] - b[5], fused);
            let s7 = added(s6, a[6] - b[6], fused);
            let s8 = added(s7, a[7] - b[7], fused);
            let s9 = added(s8, a[8] - b[8], fused);
            let s10 = added(s9, a[9] - b[9], fused);
            let s11 = added(s10, a[10] - b[10], fused);
            let s12 = added(s11, a[11] - b[11], fused);
            let s13 = added(s12, a[12] - b[12], fused);
            let s14 = added(s13, a[13] - b[13], fused);
            s14
        }),
{
    reveal_with_fuel(squared_distance, 15);
}

impl<'a> ExactIndex<'a> {
    /// A candidate is named by its place in the index, and its distance is that of its vector from
    /// the query, by a fused kernel only within whole groups of eight of its cluster.
    pub proof fn law_candidate(&self, q: &QuantizedQuery, place: (int, int))
        requires
            self.wf(),
            self.ordered(),
            self.is_place(place),
        ensures
            ({
                let j = self.boundary(place.0) + place.1;
                let size = self.boundary(place.0 + 1) - self.boundary(place.0);
                let fused = self.kernel == Kernel::Fused && (place.1 / 8 + 1) * 8 <= size;
                &&& self.item(q.coarse_vector(), place).1 == j
                &&& 0 <= j < self.n_vecs
                &&& self.item(q.coarse_vector(), place).0 == squared_distance(
                    q.coarse_vector(),
                    self.vector(j),
                    14,
                    fused,
                ) as u64
            }),
    {
        assert(self.boundary(place.0 + 1) <= self.boundary(self.n_clusters as int));
        assert(self.boundary(0) <= self.boundary(place.0));
        self.law_fused_groups(place.1, self.cluster_size(place.0));
    }

    /// A candidate is a vector of the index with its distance from the query.
    pub proof fn law_item(&self, q: &QuantizedQuery, place: (int, int))
        requires
            self.wf(),
            self.ordered(),
            self.is_place(place),
            sum_of_squares(
                q.coarse_vector(),
                self.vector(self.boundary(place.0) + place.1),
            ) <= 0x100_0000,
        ensures
            self.item(q.coarse_vector(), place).0 == sum_of_squares(
                q.coarse_vector(),
                self.vector(self.boundary(place.0) + place.1),
            ),
            self.item(q.coarse_vector(), place).1 == self.boundary(place.0) + place.1,
    {
        let j = self.boundary(place.0) + place.1;
        assert(self.boundary(place.0 + 1) <= self.boundary(self.n_clusters as int));
        assert(self.boundary(0) <= self.boundary(place.0));
        let fused = self.is_fused(place.1, self.cluster_size(place.0));
        law_coarse_distance(q.coarse_vector(), self.vector(j), fused);
    }
}

proof fn lemma_spacing(n: nat)
    requires
        n >= FULL_SIGNIFICAND,
    ensures
        spacing(n) >= 2,
        spacing(n) % 2 == 0,
        spacing(n) * 0x80_0000 <= n < spacing(n) * 0x100_0000,
        exists|e: nat| spacing(n) == #[trigger] pow2(e),
    decreases n,
{
    if n / 2 >= FULL_SIGNIFICAND {
        lemma_spacing(n / 2);
        let e = choose|e: nat| spacing(n / 2) == #[trigger] pow2(e);
        lemma_pow2_adds(1, e);
        lemma2_to64();
        assert(spacing(n) == pow2(e + 1));
    } else {
        assert(spacing(n / 2) == 1);
        lemma2_to64();
        assert(spacing(n) == pow2(1));
    }
}

/// Rounding gives the nearest number of 24 significant bits, and the even one of two equally near:
/// above those that fit, the multiples of a power of two.
pub proof fn law_rounded_nearest(n: nat)
    ensures
        n <= 0x100_0000 ==> rounded(n) == n,
        n > 0x100_0000 ==> exists|e: nat|
            {
                let unit = #[trigger] pow2(e) as int;
                let r = rounded(n) as int;
                &&& unit * 0x80_0000 <= n < unit * 0x100_0000
                &&& r % unit == 0
                &&& -unit <= 2 * (r - n) <= unit
                &&& 2 * (r - n) == unit || 2 * (r - n) == -unit ==> (r / unit) % 2 == 0
            },
{
    if n <= 0x100_0000 {
        law_rounded_exact(n);
    } else {
        lemma_spacing(n);
        let unit = spacing(n) as int;
        let e = choose|e: nat| spacing(n) == #[trigger] pow2(e);
        let below = n as int / unit;
        let rest = n as int % unit;
        lemma_fundamental_div_mod(n as int, unit);
        lemma_mod_bound(n as int, unit);
        assert(below * unit == unit * below) by (nonlinear_arith);
        assert((below + 1) * unit == unit * below + unit) by (nonlinear_arith);
        assert(spacing(n) * (n / spacing(n)) == unit * below);
        let up = if 2 * rest < unit || (2 * rest == unit && below % 2 == 0) {
            below
        } else {
            below + 1
        };
        assert(rounded(n) == up * unit);
        lemma_mod_multiples_basic(up, unit);
        lemma_div_multiples_vanish(up, unit);
        assert(up * unit == unit * up) by (nonlinear_arith);
        assert(pow2(e) == unit);
    }
}

/// Each squared difference goes into the sum unrounded where the kernel is fused, and rounded
/// where it is not; the sum is rounded either way.
pub proof fn law_accumulated(sum: nat, diff: int)
    ensures
        accumulated(sum, diff, true) == rounded((sum + square(diff)) as nat),
        accumulated(sum, diff, false) == rounded(sum + rounded(square(diff) as nat)),
        accumulated(sum, diff, true) == accumulated(sum, -diff, true),
        accumulated(sum, diff, false) == accumulated(sum, -diff, false),
{
    lemma_square(diff);
    assert(diff * diff == (-diff) * (-diff)) by (nonlinear_arith);
}

/// A coordinate of a query that lies in the range of its scale is kept, and one that does not
/// becomes the nearest that does.
pub proof fn law_query_coordinates(
    scaled: &[i64; DIM],
    scaled_refined: &[i64; DIM],
    r: QuantizedQuery,
    d: int,
)
    requires
        call_ensures(QuantizedQuery::new, (scaled, scaled_refined), r),
        0 <= d < 14,
    ensures
        -32_767 <= scaled@[d] <= 32_767 ==> r.coarse_vector()[d] == scaled@[d],
        scaled@[d] > 32_767 ==> r.coarse_vector()[d] == 32_767,
        scaled@[d] < -32_767 ==> r.coarse_vector()[d] == -32_767,
        -4_194_176 <= scaled_refined@[d] <= 4_194_176 ==> r.refined_vector()[d]
            == scaled_refined@[d],
        scaled_refined@[d] > 4_194_176 ==> r.refined_vector()[d] == 4_194_176,
        scaled_refined@[d] < -4_194_176 ==> r.refined_vector()[d] == -4_194_176,
{
    assert(r.coarse@[d] == held(scaled@[d] as int, 32_767));
    assert(r.refined@[d] == held(scaled_refined@[d] as int, 4_194_176));
}

/// The quantizers of one coordinate agree with those of a query.
pub proof fn law_quantizers(scaled: i64, coarse: i32, refined: i32)
    requires
        call_ensures(quant16, (scaled,), coarse),
        call_ensures(quant_refined, (scaled,), refined),
    ensures
        -32_767 <= coarse <= 32_767,
        -32_767 <= scaled <= 32_767 ==> coarse == scaled,
        scaled >= 0 ==> 0 <= coarse <= scaled,
        scaled <= 0 ==> scaled <= coarse <= 0,
        scaled > 32_767 ==> coarse == 32_767,
        scaled < -32_767 ==> coarse == -32_767,
        -4_194_176 <= refined <= 4_194_176,
        -4_194_176 <= scaled <= 4_194_176 ==> refined == scaled,
        scaled > 4_194_176 ==> refined == 4_194_176,
        scaled < -4_194_176 ==> refined == -4_194_176,
{
}

/// Rounding and adding come to what they say.
pub proof fn law_sums(n: u64, r: u64, sum: u64, diff: i32, fused: bool, next: u64)
    requires
        call_ensures(round24, (n,), r),
        call_ensures(accumulate, (sum, diff, fused), next),
    ensures
        r == rounded(n as nat),
        next == added(sum as nat, diff as int, fused),
{
    lemma_square(diff as int);
}

/// The count of frauds starts at none, goes up by one with each fraudulent candidate, and stops at
/// the first place without one.
pub proof fn law_frauds_counted(
    labels: &[u8],
    dist: &[u64; TOP_C],
    idx: &[u32; TOP_C],
    limit: usize,
    fewer: usize,
    more: usize,
)
    requires
        limit < 16,
        call_ensures(count_top_frauds, (labels, dist, idx, limit), fewer),
        call_ensures(count_top_frauds, (labels, dist, idx, (limit + 1) as usize), more),
    ensures
        limit == 0 ==> fewer == 0,
        (forall|k: int| 0 <= k <= limit ==> #[trigger] dist@[k] != u64::MAX) ==> more == fewer
            + fraud(labels@, idx@[limit as int]),
        (exists|k: int| 0 <= k <= limit && #[trigger] dist@[k] == u64::MAX) ==> more == fewer,
{
    let top = ranking(dist@, idx@);
    lemma_one_more(labels@, top, 0, limit as int);
    assert forall|k: int| 0 <= k <= limit implies (#[trigger] top[k]).0 == dist@[k] by {}
    if exists|k: int| 0 <= k <= limit && #[trigger] dist@[k] == u64::MAX {
        let k = choose|k: int| 0 <= k <= limit && #[trigger] dist@[k] == u64::MAX;
        assert(top[k].0 == u64::MAX);
    }
}

proof fn lemma_one_more(labels: Seq<u8>, top: Seq<(u64, u32)>, from: int, limit: int)
    requires
        0 <= from <= limit < top.len(),
    ensures
        ({
            let full = forall|k: int| from <= k <= limit ==> (#[trigger] top[k]).0 != u64::MAX;
            votes(labels, top, from, limit + 1) == votes(labels, top, from, limit) + if full {
                fraud(labels, top[limit].1)
            } else {
                0
            }
        }),
    decreases limit - from,
{
    reveal_with_fuel(votes, 2);
    if from < limit && top[from].0 != u64::MAX {
        lemma_one_more(labels, top, from + 1, limit);
    }
    if top[from].0 != u64::MAX {
        assert((forall|k: int| from <= k <= limit ==> (#[trigger] top[k]).0 != u64::MAX) == (
        forall|k: int| from + 1 <= k <= limit ==> (#[trigger] top[k]).0 != u64::MAX));
    }
}

impl<'a> ExactIndex<'a> {
    /// A refined coordinate is 128 times the coarse one, and the residual.
    pub proof fn law_refined_coordinate(&self, j: usize, d: usize, r: i32)
        requires
            call_ensures(ExactIndex::ref_refined, (self, j, d), r),
            j < self.n_vecs,
            d < 14,
        ensures
            ({
                let residual = self.residuals@[d * self.n_vecs + j];
                r == 128 * self.coordinate(j as int, d as int) + residual - if residual < 128 {
                    0int
                } else {
                    256
                }
            }),
    {
    }

    /// A query has the outcome that it is tried for.
    pub proof fn law_query_is_tried(
        &self,
        q: &QuantizedQuery,
        centroid_dist: &[Single],
        bounds: &[Single],
        a: &mut QueryScratch,
        b: &mut QueryScratch,
        r: usize,
        tried: Option<usize>,
    )
        requires
            call_ensures(ExactIndex::query, (self, q, centroid_dist, bounds, a), r),
            call_ensures(ExactIndex::try_query, (self, q, centroid_dist, bounds, b), tried),
        ensures
            tried matches Some(n) ==> n == r,
    {
    }

    proof fn lemma_scanned(
        &self,
        q: Seq<int>,
        start: int,
        n: int,
        i: nat,
        top: Seq<(u64, u32)>,
        other: (u64, u32),
    )
        requires
            top.len() == 16,
            is_sorted(top, 16),
        ensures
            ({
                let new = self.after_scan(q, start, n, i, top);
                &&& new.len() == 16
                &&& is_sorted(new, 16)
                &&& new[15].0 <= top[15].0
                &&& forall|k: int|
                    0 <= k < i ==> is_among(new, 16, #[trigger] self.candidate(q, start, n, k))
                        || self.candidate(q, start, n, k).0 >= new[15].0
                &&& is_among(top, 16, other) ==> is_among(new, 16, other) || other.0 >= new[15].0
                &&& is_among(new, 16, other) ==> is_among(top, 16, other) || exists|k: int|
                    0 <= k < i && other == #[trigger] self.candidate(q, start, n, k)
            }),
        decreases i,
    {
        if i > 0 {
            let before = self.after_scan(q, start, n, (i - 1) as nat, top);
            let item = self.candidate(q, start, n, i - 1);
            let new = self.after_scan(q, start, n, i, top);
            self.lemma_scanned(q, start, n, (i - 1) as nat, top, other);
            law_offered_sorted(before, 16, item);
            law_offered_nearest(before, 16, item, item);
            lemma_slot(before, 15, item.0);
            assert forall|k: int| 0 <= k < i implies is_among(
                new,
                16,
                #[trigger] self.candidate(q, start, n, k),
            ) || self.candidate(q, start, n, k).0 >= new[15].0 by {
                let held = self.candidate(q, start, n, k);
                if k < i - 1 && is_among(before, 16, held) {
                    law_offered_nearest(before, 16, item, held);
                }
            }
            if is_among(before, 16, other) {
                law_offered_nearest(before, 16, item, other);
            }
            if is_among(new, 16, other) {
                law_offered_from(before, 16, item, other);
                if other == item {
                    assert(other == self.candidate(q, start, n, i - 1));
                }
            }
        }
    }

    /// Scanning vectors leaves the nearest of those and of what was there: none that is missing is
    /// nearer than the last, and nothing else comes in.
    pub proof fn law_scanned(
        &self,
        q: &[i16; DIM],
        start: usize,
        end: usize,
        top_dist: &mut [u64; TOP_C],
        top_idx: &mut [u32; TOP_C],
        other: (u64, u32),
    )
        requires
            call_ensures(ExactIndex::scan_range, (self, q, start, end, top_dist, top_idx), ()),
            start <= end,
            is_sorted(ranking(old(top_dist)@, old(top_idx)@), 16),
        ensures
            ({
                let qv = Seq::new(DIM as nat, |d: int| q@[d] as int);
                let before = ranking(old(top_dist)@, old(top_idx)@);
                let after = ranking(final(top_dist)@, final(top_idx)@);
                let n = end - start;
                &&& is_sorted(after, 16)
                &&& forall|k: int|
                    0 <= k < n ==> is_among(
                        after,
                        16,
                        #[trigger] self.candidate(qv, start as int, n, k),
                    ) || self.candidate(qv, start as int, n, k).0 >= after[15].0
                &&& is_among(before, 16, other) ==> is_among(after, 16, other) || other.0
                    >= after[15].0
                &&& is_among(after, 16, other) ==> is_among(before, 16, other) || exists|k: int|
                    0 <= k < n && other == #[trigger] self.candidate(qv, start as int, n, k)
            }),
    {
        let qv = Seq::new(DIM as nat, |d: int| q@[d] as int);
        let before = ranking(old(top_dist)@, old(top_idx)@);
        let n = end - start;
        self.lemma_scanned(qv, start as int, n, n as nat, before, other);
    }
}

/// A candidate takes its place behind those that are no farther.
pub proof fn law_inserted(
    top_dist: &mut [u64; TOP_C],
    top_idx: &mut [u32; TOP_C],
    idx: u32,
    dist: u64,
    i: int,
)
    requires
        call_ensures(insert_candidate, (top_dist, top_idx, idx, dist), ()),
        is_sorted(ranking(old(top_dist)@, old(top_idx)@), 16),
        0 <= i < 16,
    ensures
        ({
            let before = ranking(old(top_dist)@, old(top_idx)@);
            let after = ranking(final(top_dist)@, final(top_idx)@);
            &&& before[i].0 <= dist ==> after[i] == before[i]
            &&& before[i].0 > dist && i < 15 ==> after[i + 1] == before[i]
            &&& before[i].0 > dist && (i == 0 || before[i - 1].0 <= dist) ==> after[i] == (
                dist,
                idx,
            )
        }),
{
    law_offered_place(ranking(old(top_dist)@, old(top_idx)@), 16, (dist, idx), i);
}

/// A vector takes its place by refined distance behind those that are no farther.
pub proof fn law_inserted_refined(
    top_dist: &mut [i64; K],
    top_idx: &mut [u32; K],
    idx: u32,
    dist: i64,
    i: int,
)
    requires
        call_ensures(insert_refined, (top_dist, top_idx, idx, dist), ()),
        is_sorted(ranking(old(top_dist)@, old(top_idx)@), 5),
        0 <= i < 5,
    ensures
        ({
            let before = ranking(old(top_dist)@, old(top_idx)@);
            let after = ranking(final(top_dist)@, final(top_idx)@);
            &&& before[i].0 <= dist ==> after[i] == before[i]
            &&& before[i].0 > dist && i < 4 ==> after[i + 1] == before[i]
            &&& before[i].0 > dist && (i == 0 || before[i - 1].0 <= dist) ==> after[i] == (
                dist,
                idx,
            )
        }),
{
    law_offered_place(ranking(old(top_dist)@, old(top_idx)@), 5, (dist, idx), i);
}

/// A cluster takes its place among the first `limit` behind those whose centroids are no farther.
pub proof fn law_inserted_probe(
    top_dist: &mut [Single; MAX_NPROBE],
    top_idx: &mut [u32; MAX_NPROBE],
    limit: usize,
    idx: u32,
    dist: Single,
    i: int,
)
    requires
        call_ensures(insert_probe, (top_dist, top_idx, limit, idx, dist), ()),
        0 < limit <= 24,
        is_sorted(ranking(old(top_dist)@, old(top_idx)@), limit as int),
        is_finite_single(dist),
        0 <= i < limit,
    ensures
        ({
            let before = ranking(old(top_dist)@, old(top_idx)@);
            let after = ranking(final(top_dist)@, final(top_idx)@);
            &&& before[i].0.rank() <= dist.rank() ==> after[i] == before[i]
            &&& before[i].0.rank() > dist.rank() && i + 1 < limit ==> after[i + 1] == before[i]
            &&& before[i].0.rank() > dist.rank() && (i == 0 || before[i - 1].0.rank()
                <= dist.rank()) ==> after[i] == (dist, idx)
        }),
{
    law_offered_place(ranking(old(top_dist)@, old(top_idx)@), limit as int, (dist, idx), i);
}

/// What the comparisons of binary32 numbers tell.
pub proof fn law_singles_compared(
    a: Single,
    b: Single,
    nan: bool,
    lower: bool,
    no_lower: bool,
    n: u64,
    reached: bool,
)
    requires
        call_ensures(Single::is_nan, (a,), nan),
        call_ensures(Single::lt, (a, b), lower),
        call_ensures(Single::ge, (a, b), no_lower),
        call_ensures(Single::at_least, (a, n), reached),
    ensures
        nan <==> !is_finite_single(a) && a.bits % 0x80_0000 != 0,
        is_finite_single(a) && is_finite_single(b) ==> (lower <==> single_value(a) < single_value(
            b,
        )) && (no_lower <==> single_value(a) >= single_value(b)),
        nan ==> !lower && !no_lower,
        a.bits < 0x7f80_0000 ==> (reached <==> single_units(a.bits as int) >= n * pow2(149)),
        a.bits == 0x7f80_0000 ==> reached,
{
    if is_finite_single(a) && is_finite_single(b) {
        law_single_by_value(a, b);
    }
    if a.bits < 0x7f80_0000 {
        lemma_reaches_by_value(a, n as nat);
    }
}

} // verus!
