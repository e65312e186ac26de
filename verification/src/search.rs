//! The search for the reference vectors nearest to a query, and their vote.
//!
//! A search probes the clusters with the nearest centroids. If the five nearest vectors
//! found there do not agree, it goes on to every cluster that may hold a nearer one. The
//! candidates are then told apart by refined distances, unless the coarse ones show a near
//! tie at the edge of the vote.
use vstd::arithmetic::power2::{lemma2_to64, lemma_pow2_strictly_increases, lemma_pow2_unfold, pow2};
use vstd::prelude::*;

use crate::coarse::{accumulate, squared_distance};
use crate::ieee::{Single, SINGLE_INFINITY};
use crate::ivf_index::{
    cell, ExactIndex, Kernel, COARSE_TIE_GAP, K, MAX_NPROBE, NO_DISTANCE, REFINE_MAX, REFINE_STEP,
    SIMD_LANES, TOP_C,
};
use crate::mapped::{i16_at, i8_of, load_i16, load_u32, signed_byte};
use crate::ranking::{lemma_slot, offer, offered, Distance, ranking};
use crate::types::DIM;

verus! {

/// A query in quantized coordinates.
pub struct QuantizedQuery {
    pub coarse: [i16; DIM],
    pub refined: [i32; DIM],
}

impl QuantizedQuery {
    /// Every refined coordinate is within the range of the quantizer.
    pub open spec fn wf(&self) -> bool {
        forall|d: int|
            0 <= d < DIM ==> -REFINE_MAX <= #[trigger] self.refined@[d] <= REFINE_MAX
    }

    pub open spec fn coarse_vector(&self) -> Seq<int> {
        Seq::new(DIM as nat, |d: int| self.coarse@[d] as int)
    }

    pub open spec fn refined_vector(&self) -> Seq<int> {
        Seq::new(DIM as nat, |d: int| self.refined@[d] as int)
    }
}

/// The clusters probed so far and the nearest vectors found in them.
pub struct Found {
    pub top: Seq<(u64, u32)>,
    pub probed: Set<int>,
}

/// A list of candidates with no candidate in it.
pub open spec fn no_candidates() -> Seq<(u64, u32)> {
    Seq::new(TOP_C as nat, |i: int| (NO_DISTANCE, 0u32))
}

/// The clusters with the nearest centroids among the first `n`, `limit` of them at most.
pub open spec fn nearest_centroids(centroid_dist: Seq<Single>, limit: int, n: nat) -> Seq<
    (Single, u32),
>
    decreases n,
{
    if n == 0 {
        Seq::new(MAX_NPROBE as nat, |i: int| (Single { bits: SINGLE_INFINITY }, 0u32))
    } else {
        offered(
            nearest_centroids(centroid_dist, limit, (n - 1) as nat),
            limit,
            (centroid_dist[n - 1], (n - 1) as u32),
        )
    }
}

/// A lower bound on the distances in a cluster rules it out: it is no nearer than `tau`.
pub open spec fn rules_out(bound: Single, tau: u64) -> bool {
    if tau == NO_DISTANCE {
        bound.bits == SINGLE_INFINITY
    } else {
        bound.reaches(tau as nat)
    }
}

/// How many of the first `limit` candidates are labelled fraudulent, from place `from` on
/// and up to the first place without a candidate.
pub open spec fn votes(labels: Seq<u8>, top: Seq<(u64, u32)>, from: int, limit: int) -> int
    decreases limit - from,
{
    if from >= limit || top[from].0 == NO_DISTANCE {
        0
    } else {
        (if labels[top[from].1 as int] != 0 {
            1int
        } else {
            0
        }) + votes(labels, top, from + 1, limit)
    }
}

/// How many of the first `limit` items are labelled fraudulent.
pub open spec fn refined_votes(labels: Seq<u8>, top: Seq<(i64, u32)>, limit: nat) -> int
    decreases limit,
{
    if limit == 0 {
        0
    } else {
        refined_votes(labels, top, (limit - 1) as nat) + if labels[top[limit - 1].1 as int] != 0 {
            1int
        } else {
            0
        }
    }
}

/// The votes in the neighbourhood do not agree, or there are too few to tell.
pub open spec fn is_undecided(labels: Seq<u8>, top: Seq<(u64, u32)>) -> bool {
    top[K - 1].0 == NO_DISTANCE || 0 < votes(labels, top, 0, K as int) < K
}

/// The candidate behind the last that votes is hardly farther away than that one.
pub open spec fn is_near_tie(top: Seq<(u64, u32)>) -> bool {
    top[K as int].0 != NO_DISTANCE && top[K as int].0 - top[K - 1].0 <= COARSE_TIE_GAP
}

impl<'a> ExactIndex<'a> {
    pub open spec fn coordinate(&self, j: int, d: int) -> int {
        i16_at(self.dims@, 2 * cell(d, j, self.n_vecs as int))
    }

    pub open spec fn vector(&self, j: int) -> Seq<int> {
        Seq::new(DIM as nat, |d: int| self.coordinate(j, d))
    }

    /// A coordinate with its residual.
    pub open spec fn refined_coordinate(&self, j: int, d: int) -> int {
        self.coordinate(j, d) * REFINE_STEP + i8_of(
            self.residuals@[cell(d, j, self.n_vecs as int)],
        )
    }

    /// The `i`-th of `n` vectors scanned together is accumulated by a fused kernel.
    pub open spec fn is_fused(&self, i: int, n: int) -> bool {
        self.kernel == Kernel::Fused && i < n - n % SIMD_LANES as int
    }

    /// The `i`-th of the `n` vectors from `start` on, as a candidate.
    pub open spec fn candidate(&self, q: Seq<int>, start: int, n: int, i: int) -> (u64, u32) {
        (
            squared_distance(q, self.vector(start + i), DIM as nat, self.is_fused(i, n)) as u64,
            (start + i) as u32,
        )
    }

    /// The candidates after the first `i` of the `n` vectors from `start` on were offered.
    pub open spec fn after_scan(
        &self,
        q: Seq<int>,
        start: int,
        n: int,
        i: nat,
        top: Seq<(u64, u32)>,
    ) -> Seq<(u64, u32)>
        decreases i,
    {
        if i == 0 {
            top
        } else {
            offered(
                self.after_scan(q, start, n, (i - 1) as nat, top),
                TOP_C as int,
                self.candidate(q, start, n, i - 1),
            )
        }
    }

    /// A cluster is probed: all its vectors are offered.
    pub open spec fn after_cluster(&self, q: Seq<int>, cluster: int, found: Found) -> Found {
        let start = self.boundary(cluster);
        let n = self.boundary(cluster + 1) - start;
        Found {
            top: self.after_scan(q, start, n, n as nat, found.top),
            probed: found.probed.insert(cluster),
        }
    }

    /// What the clusters in the first `n` places of `probes` yield.
    pub open spec fn seeded(&self, q: Seq<int>, probes: Seq<(Single, u32)>, n: nat) -> Found
        decreases n,
    {
        if n == 0 {
            Found { top: no_candidates(), probed: Set::empty() }
        } else {
            self.after_cluster(
                q,
                probes[n - 1].1 as int,
                self.seeded(q, probes, (n - 1) as nat),
            )
        }
    }

    /// What is found when, besides, every cluster of the first `n` is probed that was not
    /// yet and that its bound does not rule out.
    pub open spec fn expanded(
        &self,
        q: Seq<int>,
        bounds: Seq<Single>,
        tau: u64,
        found: Found,
        n: nat,
    ) -> Found
        decreases n,
    {
        if n == 0 {
            found
        } else {
            let before = self.expanded(q, bounds, tau, found, (n - 1) as nat);
            if before.probed.contains(n - 1) || rules_out(bounds[n - 1], tau) {
                before
            } else {
                self.after_cluster(q, n - 1, before)
            }
        }
    }

    /// What a search finds.
    pub open spec fn searched(
        &self,
        q: Seq<int>,
        centroid_dist: Seq<Single>,
        bounds: Seq<Single>,
    ) -> Found {
        let probes = nearest_centroids(
            centroid_dist,
            self.nprobe as int,
            self.n_clusters as nat,
        );
        let seed = self.seeded(q, probes, self.nprobe as nat);
        if is_undecided(self.labels@, seed.top) {
            self.expanded(q, bounds, seed.top[TOP_C - 1].0, seed, self.n_clusters as nat)
        } else {
            seed
        }
    }

    /// A cluster can be scanned: it does not run backwards, and what it holds are vectors.
    pub open spec fn is_sound(&self, cluster: int) -> bool {
        &&& self.boundary(cluster) <= self.boundary(cluster + 1)
        &&& self.boundary(cluster) == self.boundary(cluster + 1) || self.boundary(cluster + 1)
            <= self.n_vecs
    }

    /// Every cluster that a search probes can be scanned.
    pub open spec fn probes_soundly(
        &self,
        q: Seq<int>,
        centroid_dist: Seq<Single>,
        bounds: Seq<Single>,
    ) -> bool {
        forall|c: int| #[trigger]
            self.searched(q, centroid_dist, bounds).probed.contains(c) ==> self.is_sound(c)
    }

    /// The squared distance of refined coordinates over the first `dims` of them.
    pub open spec fn refined_distance(&self, q: Seq<int>, j: int, dims: nat) -> int
        decreases dims,
    {
        if dims == 0 {
            0
        } else {
            let diff = q[dims - 1] - self.refined_coordinate(j, dims - 1);
            self.refined_distance(q, j, (dims - 1) as nat) + diff * diff
        }
    }

    /// The nearest by refined distance of the first `n` candidates.
    pub open spec fn refined(&self, q: Seq<int>, top: Seq<(u64, u32)>, n: nat) -> Seq<(i64, u32)>
        decreases n,
    {
        if n == 0 {
            Seq::new(K as nat, |i: int| (i64::MAX, 0u32))
        } else {
            let j = top[n - 1].1;
            offered(
                self.refined(q, top, (n - 1) as nat),
                K as int,
                (self.refined_distance(q, j as int, DIM as nat) as i64, j),
            )
        }
    }

    /// How many of the nearest vectors are labelled fraudulent.
    pub open spec fn verdict(&self, refined: Seq<int>, top: Seq<(u64, u32)>) -> int {
        if is_near_tie(top) {
            votes(self.labels@, top, 0, K as int)
        } else {
            refined_votes(self.labels@, self.refined(refined, top, TOP_C as nat), K as nat)
        }
    }

    /// The outcome of a query. Without vectors everything counts as fraudulent.
    pub open spec fn outcome(
        &self,
        q: &QuantizedQuery,
        centroid_dist: Seq<Single>,
        bounds: Seq<Single>,
    ) -> int {
        if self.n_vecs == 0 {
            5
        } else {
            self.verdict(
                q.refined_vector(),
                self.searched(q.coarse_vector(), centroid_dist, bounds).top,
            )
        }
    }
}

/// Every item of a list points into a table of `n`.
pub open spec fn points_into<D>(top: Seq<(D, u32)>, n: int) -> bool {
    forall|k: int| 0 <= k < top.len() ==> (#[trigger] top[k]).1 < n
}

proof fn lemma_offered_points_into<D: Distance>(
    top: Seq<(D, u32)>,
    limit: int,
    item: (D, u32),
    n: int,
)
    requires
        points_into(top, n),
        item.1 < n,
        0 < limit <= top.len(),
    ensures
        points_into(offered(top, limit, item), n),
        offered(top, limit, item).len() == top.len(),
{
    lemma_slot(top, limit - 1, item.0);
}

/// The clusters to probe are clusters.
pub proof fn lemma_nearest_centroids(centroid_dist: Seq<Single>, limit: int, n: nat, clusters: int)
    requires
        n <= clusters <= u32::MAX,
        0 < clusters,
        0 < limit <= MAX_NPROBE,
    ensures
        points_into(nearest_centroids(centroid_dist, limit, n), clusters),
        nearest_centroids(centroid_dist, limit, n).len() == MAX_NPROBE,
    decreases n,
{
    if n > 0 {
        lemma_nearest_centroids(centroid_dist, limit, (n - 1) as nat, clusters);
        lemma_offered_points_into(
            nearest_centroids(centroid_dist, limit, (n - 1) as nat),
            limit,
            (centroid_dist[n - 1], (n - 1) as u32),
            clusters,
        );
    }
}

/// Marks for the clusters that a query has probed, kept from query to query.
pub struct QueryScratch {
    pub probed_epoch: Vec<u32>,
    pub epoch: u32,
}

impl QueryScratch {
    /// No mark is ahead of the current epoch.
    pub open spec fn wf(&self) -> bool {
        forall|i: int|
            0 <= i < self.probed_epoch@.len() ==> #[trigger] self.probed_epoch@[i] <= self.epoch
    }

    /// The clusters that bear the mark of the current epoch.
    pub open spec fn marked(&self) -> Set<int> {
        Set::new(
            |c: int| 0 <= c < self.probed_epoch@.len() && self.probed_epoch@[c] == self.epoch,
        )
    }

    pub fn new() -> (r: Self)
        ensures
            r.wf(),
            r.epoch == 0,
            r.probed_epoch@.len() == 0,
    {
        QueryScratch { probed_epoch: Vec::new(), epoch: 0 }
    }

    /// Starts a new epoch, in which no cluster is marked.
    pub fn prepare(&mut self, n_clusters: usize) -> (r: u32)
        requires
            old(self).wf(),
        ensures
            final(self).wf(),
            final(self).marked() == Set::<int>::empty(),
            final(self).probed_epoch@.len() == if old(self).probed_epoch@.len() < n_clusters {
                n_clusters as nat
            } else {
                old(self).probed_epoch@.len()
            },
            final(self).epoch == if old(self).epoch == u32::MAX {
                1
            } else {
                old(self).epoch + 1
            },
            r == final(self).epoch,
    {
        while self.probed_epoch.len() < n_clusters
            invariant
                self.wf(),
                self.epoch == old(self).epoch,
                self.probed_epoch@.len() >= old(self).probed_epoch@.len(),
                self.probed_epoch@.len() <= n_clusters || self.probed_epoch@.len() == old(
                    self,
                ).probed_epoch@.len(),
            decreases n_clusters - self.probed_epoch@.len(),
        {
            self.probed_epoch.push(0);
        }
        if self.epoch == u32::MAX {
            let len: usize = self.probed_epoch.len();
            let mut i: usize = 0;
            while i < len
                invariant
                    i <= len,
                    self.probed_epoch@.len() == len,
                    forall|k: int| 0 <= k < i ==> self.probed_epoch@[k] == 0,
                decreases len - i,
            {
                self.probed_epoch[i] = 0;
                i += 1;
            }
            self.epoch = 1;
        } else {
            self.epoch = self.epoch + 1;
        }
        assert(self.marked() =~= Set::empty());
        self.epoch
    }
}

/// Offers a candidate to the list of the nearest.
pub fn insert_candidate(
    top_dist: &mut [u64; TOP_C],
    top_idx: &mut [u32; TOP_C],
    idx: u32,
    dist: u64,
)
    ensures
        ranking(final(top_dist)@, final(top_idx)@) == offered(
            ranking(old(top_dist)@, old(top_idx)@),
            TOP_C as int,
            (dist, idx),
        ),
{
    offer(top_dist, top_idx, TOP_C, idx, dist)
}

/// Offers a cluster to the first `limit` places of the list of those to probe.
pub fn insert_probe(
    top_dist: &mut [Single; MAX_NPROBE],
    top_idx: &mut [u32; MAX_NPROBE],
    limit: usize,
    idx: u32,
    dist: Single,
)
    requires
        0 < limit <= MAX_NPROBE,
    ensures
        ranking(final(top_dist)@, final(top_idx)@) == offered(
            ranking(old(top_dist)@, old(top_idx)@),
            limit as int,
            (dist, idx),
        ),
{
    offer(top_dist, top_idx, limit, idx, dist)
}

/// Offers a vector to the list of the nearest by refined distance.
pub fn insert_refined(top_dist: &mut [i64; K], top_idx: &mut [u32; K], idx: u32, dist: i64)
    ensures
        ranking(final(top_dist)@, final(top_idx)@) == offered(
            ranking(old(top_dist)@, old(top_idx)@),
            K as int,
            (dist, idx),
        ),
{
    offer(top_dist, top_idx, K, idx, dist)
}

/// How many of the first `limit` candidates are labelled fraudulent.
pub fn count_top_frauds(
    labels: &[u8],
    top_dist: &[u64; TOP_C],
    top_idx: &[u32; TOP_C],
    limit: usize,
) -> (r: usize)
    requires
        limit <= TOP_C,
        forall|k: int|
            0 <= k < limit && top_dist@[k] != NO_DISTANCE ==> #[trigger] top_idx@[k]
                < labels@.len(),
    ensures
        r == votes(labels@, ranking(top_dist@, top_idx@), 0, limit as int),
        r <= limit,
{
    let ghost top = ranking(top_dist@, top_idx@);
    let mut count: usize = 0;
    let mut i: usize = 0;
    while i < limit
        invariant
            i <= limit <= TOP_C,
            count <= i,
            top == ranking(top_dist@, top_idx@),
            count + votes(labels@, top, i as int, limit as int) == votes(
                labels@,
                top,
                0,
                limit as int,
            ),
            forall|k: int|
                0 <= k < limit && top_dist@[k] != NO_DISTANCE ==> #[trigger] top_idx@[k]
                    < labels@.len(),
        decreases limit - i,
    {
        assert(top[i as int] == (top_dist@[i as int], top_idx@[i as int]));
        if top_dist[i] == NO_DISTANCE {
            return count;
        }
        if labels[top_idx[i] as usize] != 0 {
            count += 1;
        }
        i += 1;
    }
    count
}

proof fn lemma_distance_cap(d: nat)
    requires
        d <= 13,
    ensures
        17_179_344_900 * pow2(d) <= 0x7fff_ffff_ffff,
{
    lemma2_to64();
    if d < 13 {
        lemma_pow2_strictly_increases(d, 13);
    }
    let p = pow2(d) as int;
    assert(17_179_344_900 * p <= 17_179_344_900 * 8192) by (nonlinear_arith)
        requires
            p <= 8192,
    ;
}

impl<'a> ExactIndex<'a> {
    proof fn lemma_element(&self, j: int, d: int)
        requires
            self.wf(),
            0 <= j < self.n_vecs,
            0 <= d < DIM,
        ensures
            0 <= cell(d, j, self.n_vecs as int) < DIM * self.n_vecs,
            2 * cell(d, j, self.n_vecs as int) + 2 <= self.dims@.len(),
            cell(d, j, self.n_vecs as int) < self.residuals@.len(),
            0 <= d * self.n_vecs <= DIM * self.n_vecs,
    {
        let n = self.n_vecs as int;
        assert(0 <= d * n && d * n + j < 14 * n) by (nonlinear_arith)
            requires
                0 <= d <= 13,
                0 <= j < n,
        ;
        assert(self.dims@.len() == 28 * n);
    }

    /// A coarse coordinate of a vector.
    fn coarse_coordinate(&self, j: usize, d: usize) -> (r: i16)
        requires
            self.wf(),
            j < self.n_vecs,
            d < DIM,
        ensures
            r == self.coordinate(j as int, d as int),
    {
        proof {
            self.lemma_element(j as int, d as int);
        }
        let len: usize = self.dims.len();
        assert(2 * cell(d as int, j as int, self.n_vecs as int) + 2 <= len);
        load_i16(self.dims, 2 * (d * self.n_vecs + j))
    }

    /// A refined coordinate of a vector.
    pub fn ref_refined(&self, j: usize, d: usize) -> (r: i32)
        requires
            self.wf(),
            j < self.n_vecs,
            d < DIM,
        ensures
            r == self.refined_coordinate(j as int, d as int),
            -4_194_432 <= r <= 4_194_303,
    {
        proof {
            self.lemma_element(j as int, d as int);
        }
        let high: i32 = self.coarse_coordinate(j, d) as i32;
        let len: usize = self.dims.len();
        assert(2 * cell(d as int, j as int, self.n_vecs as int) + 2 <= len);
        let residual: i32 = signed_byte(self.residuals[d * self.n_vecs + j]);
        high * REFINE_STEP + residual
    }

    /// The coarse distance of a vector.
    fn coarse_distance(&self, q: &[i16; DIM], j: usize, fused: bool) -> (r: u64)
        requires
            self.wf(),
            j < self.n_vecs,
        ensures
            r == squared_distance(
                Seq::new(DIM as nat, |d: int| q@[d] as int),
                self.vector(j as int),
                DIM as nat,
                fused,
            ),
            r < NO_DISTANCE,
    {
        let ghost a = Seq::new(DIM as nat, |d: int| q@[d] as int);
        let ghost b = self.vector(j as int);
        let mut sum: u64 = 0;
        let mut d: usize = 0;
        proof {
            lemma2_to64();
        }
        while d < DIM
            invariant
                d <= DIM,
                self.wf(),
                j < self.n_vecs,
                a == Seq::new(DIM as nat, |d: int| q@[d] as int),
                b == self.vector(j as int),
                sum == squared_distance(a, b, d as nat, fused),
                sum + 17_179_344_900 <= 17_179_344_900 * pow2(d as nat),
            decreases DIM - d,
        {
            let v: i32 = self.coarse_coordinate(j, d) as i32;
            let diff: i32 = q[d] as i32 - v;
            proof {
                lemma_distance_cap(d as nat);
                lemma_pow2_unfold((d + 1) as nat);
                assert(a[d as int] - b[d as int] == diff);
            }
            sum = accumulate(sum, diff, fused);
            d += 1;
        }
        assert(pow2(14) == 16_384) by {
            lemma2_to64();
        }
        sum
    }

    /// Offers the vectors `start..end` as candidates.
    pub fn scan_range(
        &self,
        q: &[i16; DIM],
        start: usize,
        end: usize,
        top_dist: &mut [u64; TOP_C],
        top_idx: &mut [u32; TOP_C],
    )
        requires
            self.wf(),
            start <= end <= self.n_vecs,
        ensures
            ranking(final(top_dist)@, final(top_idx)@) == self.after_scan(
                Seq::new(DIM as nat, |d: int| q@[d] as int),
                start as int,
                end - start,
                (end - start) as nat,
                ranking(old(top_dist)@, old(top_idx)@),
            ),
            points_into(ranking(old(top_dist)@, old(top_idx)@), self.n_vecs as int) ==> points_into(
                ranking(final(top_dist)@, final(top_idx)@),
                self.n_vecs as int,
            ),
    {
        let n: usize = end - start;
        let grouped: usize = match self.kernel {
            Kernel::Fused => n - n % SIMD_LANES,
            Kernel::Plain => 0,
        };
        let ghost qv = Seq::new(DIM as nat, |d: int| q@[d] as int);
        let ghost top0 = ranking(top_dist@, top_idx@);
        let mut i: usize = 0;
        while i < n
            invariant
                self.wf(),
                start <= end <= self.n_vecs,
                n == end - start,
                i <= n,
                qv == Seq::new(DIM as nat, |d: int| q@[d] as int),
                forall|k: int| 0 <= k < n ==> (k < grouped) == #[trigger] self.is_fused(
                    k,
                    n as int,
                ),
                ranking(top_dist@, top_idx@) == self.after_scan(
                    qv,
                    start as int,
                    n as int,
                    i as nat,
                    top0,
                ),
                points_into(top0, self.n_vecs as int) ==> points_into(
                    ranking(top_dist@, top_idx@),
                    self.n_vecs as int,
                ),
            decreases n - i,
        {
            assert((i < grouped) == self.is_fused(i as int, n as int));
            let dist: u64 = self.coarse_distance(q, start + i, i < grouped);
            proof {
                if points_into(top0, self.n_vecs as int) {
                    lemma_offered_points_into(
                        ranking(top_dist@, top_idx@),
                        TOP_C as int,
                        (dist, (start + i) as u32),
                        self.n_vecs as int,
                    );
                }
            }
            insert_candidate(top_dist, top_idx, (start + i) as u32, dist);
            i += 1;
        }
    }
}

/// An integer held between `-limit` and `limit`.
pub open spec fn held(v: int, limit: int) -> int {
    if v < -limit {
        -limit
    } else if v > limit {
        limit
    } else {
        v
    }
}

/// A coarse coordinate, out of the query's coordinate times 32767, rounded to an integer.
pub fn quant16(scaled: i64) -> (r: i32)
    ensures
        r == held(scaled as int, 32_767),
{
    if scaled < -32_767 {
        -32_767
    } else if scaled > 32_767 {
        32_767
    } else {
        scaled as i32
    }
}

/// A refined coordinate, out of the query's coordinate times [`REFINE_MAX`], rounded to an
/// integer.
pub fn quant_refined(scaled: i64) -> (r: i32)
    ensures
        r == held(scaled as int, REFINE_MAX as int),
{
    if scaled < -(REFINE_MAX as i64) {
        -REFINE_MAX
    } else if scaled > REFINE_MAX as i64 {
        REFINE_MAX
    } else {
        scaled as i32
    }
}

impl QuantizedQuery {
    /// A query out of its coordinates at both scales, rounded to integers.
    pub fn new(scaled: &[i64; DIM], scaled_refined: &[i64; DIM]) -> (r: Self)
        ensures
            r.wf(),
            forall|d: int|
                0 <= d < DIM ==> #[trigger] r.coarse@[d] == held(scaled@[d] as int, 32_767),
            forall|d: int|
                0 <= d < DIM ==> #[trigger] r.refined@[d] == held(
                    scaled_refined@[d] as int,
                    REFINE_MAX as int,
                ),
    {
        let mut coarse: [i16; DIM] = [0i16;DIM];
        let mut refined: [i32; DIM] = [0i32;DIM];
        let mut d: usize = 0;
        while d < DIM
            invariant
                d <= DIM,
                forall|k: int|
                    0 <= k < d ==> #[trigger] coarse@[k] == held(scaled@[k] as int, 32_767),
                forall|k: int|
                    0 <= k < d ==> #[trigger] refined@[k] == held(
                        scaled_refined@[k] as int,
                        REFINE_MAX as int,
                    ),
            decreases DIM - d,
        {
            coarse[d] = quant16(scaled[d]) as i16;
            refined[d] = quant_refined(scaled_refined[d]);
            d += 1;
        }
        QuantizedQuery { coarse, refined }
    }
}

/// Whether a bound rules a cluster out.
fn is_ruled_out(bound: Single, tau: u64) -> (r: bool)
    ensures
        r == rules_out(bound, tau),
{
    if tau == NO_DISTANCE {
        bound.bits == SINGLE_INFINITY
    } else {
        bound.at_least(tau)
    }
}

impl<'a> ExactIndex<'a> {
    /// The first vector of a cluster.
    fn cluster_start(&self, cluster: usize) -> (r: usize)
        requires
            self.wf(),
            cluster <= self.n_clusters,
        ensures
            r == self.boundary(cluster as int),
    {
        load_u32(self.boundaries, 4 * cluster) as usize
    }

    /// The clusters to probe first.
    fn probes(&self, centroid_dist: &[Single]) -> (r: [u32; MAX_NPROBE])
        requires
            self.wf(),
            centroid_dist@.len() >= self.n_clusters,
        ensures
            forall|k: int|
                0 <= k < self.nprobe ==> #[trigger] r@[k] == nearest_centroids(
                    centroid_dist@,
                    self.nprobe as int,
                    self.n_clusters as nat,
                )[k].1 && r@[k] < self.n_clusters,
    {
        let far = Single { bits: SINGLE_INFINITY };
        let mut probe_dist: [Single; MAX_NPROBE] = [far;MAX_NPROBE];
        let mut probe_idx: [u32; MAX_NPROBE] = [0u32;MAX_NPROBE];
        let mut c: usize = 0;
        assert(ranking(probe_dist@, probe_idx@) =~= nearest_centroids(
            centroid_dist@,
            self.nprobe as int,
            0,
        ));
        while c < self.n_clusters
            invariant
                self.wf(),
                centroid_dist@.len() >= self.n_clusters,
                c <= self.n_clusters,
                ranking(probe_dist@, probe_idx@) == nearest_centroids(
                    centroid_dist@,
                    self.nprobe as int,
                    c as nat,
                ),
            decreases self.n_clusters - c,
        {
            insert_probe(
                &mut probe_dist,
                &mut probe_idx,
                self.nprobe,
                c as u32,
                centroid_dist[c],
            );
            c += 1;
        }
        proof {
            lemma_nearest_centroids(
                centroid_dist@,
                self.nprobe as int,
                self.n_clusters as nat,
                self.n_clusters as int,
            );
            assert forall|k: int| 0 <= k < self.nprobe implies #[trigger] probe_idx@[k]
                == nearest_centroids(
                centroid_dist@,
                self.nprobe as int,
                self.n_clusters as nat,
            )[k].1 && probe_idx@[k] < self.n_clusters by {
                assert(ranking(probe_dist@, probe_idx@)[k] == (probe_dist@[k], probe_idx@[k]));
            }
        }
        probe_idx
    }

    /// Probes one cluster and marks it, and says whether it could be scanned.
    fn scan_cluster(
        &self,
        q: &QuantizedQuery,
        cluster: usize,
        top_dist: &mut [u64; TOP_C],
        top_idx: &mut [u32; TOP_C],
        scratch: &mut QueryScratch,
        Ghost(found): Ghost<Found>,
    ) -> (r: bool)
        requires
            self.wf(),
            cluster < self.n_clusters,
            points_into(ranking(old(top_dist)@, old(top_idx)@), self.n_vecs as int),
            ranking(old(top_dist)@, old(top_idx)@) == found.top,
            old(scratch).wf(),
            old(scratch).marked() == found.probed,
            old(scratch).probed_epoch@.len() >= self.n_clusters,
        ensures
            r == self.is_sound(cluster as int),
            r ==> ranking(final(top_dist)@, final(top_idx)@) == self.after_cluster(
                q.coarse_vector(),
                cluster as int,
                found,
            ).top,
            points_into(ranking(final(top_dist)@, final(top_idx)@), self.n_vecs as int),
            final(scratch).wf(),
            final(scratch).marked() == self.after_cluster(
                q.coarse_vector(),
                cluster as int,
                found,
            ).probed,
            final(scratch).probed_epoch@.len() == old(scratch).probed_epoch@.len(),
            final(scratch).epoch == old(scratch).epoch,
    {
        scratch.probed_epoch[cluster] = scratch.epoch;
        assert(scratch.marked() =~= found.probed.insert(cluster as int));
        let start: usize = self.cluster_start(cluster);
        let end: usize = self.cluster_start(cluster + 1);
        if start > end || (start < end && end > self.n_vecs) {
            return false;
        }
        if start < end {
            self.scan_range(&q.coarse, start, end, top_dist, top_idx);
        }
        true
    }

    /// The squared distance of refined coordinates.
    fn refined_dist(&self, q: &[i32; DIM], j: usize) -> (r: i64)
        requires
            self.wf(),
            j < self.n_vecs,
            forall|d: int| 0 <= d < DIM ==> -REFINE_MAX <= #[trigger] q@[d] <= REFINE_MAX,
        ensures
            r == self.refined_distance(
                Seq::new(DIM as nat, |d: int| q@[d] as int),
                j as int,
                DIM as nat,
            ),
    {
        let ghost qv = Seq::new(DIM as nat, |d: int| q@[d] as int);
        let mut sum: i64 = 0;
        let mut d: usize = 0;
        while d < DIM
            invariant
                d <= DIM,
                self.wf(),
                j < self.n_vecs,
                forall|k: int| 0 <= k < DIM ==> -REFINE_MAX <= #[trigger] q@[k] <= REFINE_MAX,
                qv == Seq::new(DIM as nat, |d: int| q@[d] as int),
                sum == self.refined_distance(qv, j as int, d as nat),
                0 <= sum <= d * 0x4000_0000_0000,
            decreases DIM - d,
        {
            let diff: i64 = q[d] as i64 - self.ref_refined(j, d) as i64;
            assert(0 <= diff * diff <= 0x4000_0000_0000) by (nonlinear_arith)
                requires
                    -0x80_0000 <= diff <= 0x80_0000,
            ;
            sum = sum + diff * diff;
            d += 1;
        }
        sum
    }

    /// The votes of the nearest by refined distance.
    fn refine(&self, q: &QuantizedQuery, top_idx: &[u32; TOP_C], Ghost(top): Ghost<Seq<(u64, u32)>>)
        -> (r: usize)
        requires
            self.wf(),
            q.wf(),
            self.n_vecs > 0,
            top.len() == TOP_C,
            points_into(top, self.n_vecs as int),
            forall|k: int| 0 <= k < TOP_C ==> #[trigger] top_idx@[k] == top[k].1,
        ensures
            r == refined_votes(
                self.labels@,
                self.refined(q.refined_vector(), top, TOP_C as nat),
                K as nat,
            ),
            r <= K,
    {
        let mut refined_dist: [i64; K] = [i64::MAX;K];
        let mut refined_idx: [u32; K] = [0u32;K];
        let mut i: usize = 0;
        assert(ranking(refined_dist@, refined_idx@) =~= self.refined(q.refined_vector(), top, 0));
        while i < TOP_C
            invariant
                i <= TOP_C,
                self.wf(),
                q.wf(),
                self.n_vecs > 0,
                top.len() == TOP_C,
                points_into(top, self.n_vecs as int),
                forall|k: int| 0 <= k < TOP_C ==> #[trigger] top_idx@[k] == top[k].1,
                ranking(refined_dist@, refined_idx@) == self.refined(
                    q.refined_vector(),
                    top,
                    i as nat,
                ),
                points_into(ranking(refined_dist@, refined_idx@), self.n_vecs as int),
            decreases TOP_C - i,
        {
            assert(top_idx@[i as int] == top[i as int].1);
            let j: usize = top_idx[i] as usize;
            let dist: i64 = self.refined_dist(&q.refined, j);
            proof {
                lemma_offered_points_into(
                    ranking(refined_dist@, refined_idx@),
                    K as int,
                    (dist, j as u32),
                    self.n_vecs as int,
                );
            }
            insert_refined(&mut refined_dist, &mut refined_idx, j as u32, dist);
            i += 1;
        }
        let ghost list = ranking(refined_dist@, refined_idx@);
        let mut count: usize = 0;
        let mut k: usize = 0;
        while k < K
            invariant
                k <= K,
                count <= k,
                self.wf(),
                list == ranking(refined_dist@, refined_idx@),
                points_into(list, self.n_vecs as int),
                count == refined_votes(self.labels@, list, k as nat),
            decreases K - k,
        {
            assert(list[k as int] == (refined_dist@[k as int], refined_idx@[k as int]));
            if self.labels[refined_idx[k] as usize] != 0 {
                count += 1;
            }
            k += 1;
        }
        count
    }

    proof fn lemma_seeded_grows(&self, q: Seq<int>, probes: Seq<(Single, u32)>, k: nat, n: nat)
        requires
            k <= n,
        ensures
            self.seeded(q, probes, k).probed.subset_of(self.seeded(q, probes, n).probed),
        decreases n,
    {
        if k < n {
            self.lemma_seeded_grows(q, probes, k, (n - 1) as nat);
        }
    }

    proof fn lemma_expanded_grows(
        &self,
        q: Seq<int>,
        bounds: Seq<Single>,
        tau: u64,
        found: Found,
        k: nat,
        n: nat,
    )
        requires
            k <= n,
        ensures
            self.expanded(q, bounds, tau, found, k).probed.subset_of(
                self.expanded(q, bounds, tau, found, n).probed,
            ),
        decreases n,
    {
        if k < n {
            self.lemma_expanded_grows(q, bounds, tau, found, k, (n - 1) as nat);
        }
    }

    /// What is probed first stays probed.
    proof fn lemma_searched_grows(
        &self,
        q: Seq<int>,
        centroid_dist: Seq<Single>,
        bounds: Seq<Single>,
    )
        ensures
            self.seeded(
                q,
                nearest_centroids(centroid_dist, self.nprobe as int, self.n_clusters as nat),
                self.nprobe as nat,
            ).probed.subset_of(self.searched(q, centroid_dist, bounds).probed),
    {
        let probes = nearest_centroids(
            centroid_dist,
            self.nprobe as int,
            self.n_clusters as nat,
        );
        let seed = self.seeded(q, probes, self.nprobe as nat);
        self.lemma_expanded_grows(
            q,
            bounds,
            seed.top[TOP_C - 1].0,
            seed,
            0,
            self.n_clusters as nat,
        );
    }

    /// How many of the nearest vectors are labelled fraudulent.
    ///
    /// `centroid_dist` holds the query's squared distance to each centroid, and
    /// `lower_bound` a bound below its squared distance to every vector of each cluster.
    pub fn query(
        &self,
        q: &QuantizedQuery,
        centroid_dist: &[Single],
        lower_bound: &[Single],
        scratch: &mut QueryScratch,
    ) -> (r: usize)
        requires
            self.wf(),
            q.wf(),
            centroid_dist@.len() >= self.n_clusters,
            lower_bound@.len() >= self.n_clusters,
            old(scratch).wf(),
            self.n_vecs > 0 ==> self.probes_soundly(
                q.coarse_vector(),
                centroid_dist@,
                lower_bound@,
            ),
        ensures
            r == self.outcome(q, centroid_dist@, lower_bound@),
            r <= K,
            final(scratch).wf(),
            self.n_vecs > 0 ==> final(scratch).marked() == self.searched(
                q.coarse_vector(),
                centroid_dist@,
                lower_bound@,
            ).probed,
    {
        self.try_query(q, centroid_dist, lower_bound, scratch).unwrap()
    }

    /// How many of the nearest vectors are labelled fraudulent, unless the search comes to a
    /// cluster that cannot be scanned.
    ///
    /// A search that goes on goes through the clusters once: a second round would find none
    /// left to probe ([`ExactIndex::law_one_round_suffices`]).
    pub fn try_query(
        &self,
        q: &QuantizedQuery,
        centroid_dist: &[Single],
        lower_bound: &[Single],
        scratch: &mut QueryScratch,
    ) -> (r: Option<usize>)
        requires
            self.wf(),
            q.wf(),
            centroid_dist@.len() >= self.n_clusters,
            lower_bound@.len() >= self.n_clusters,
            old(scratch).wf(),
        ensures
            match r {
                Some(votes) => {
                    &&& self.n_vecs > 0 ==> self.probes_soundly(
                        q.coarse_vector(),
                        centroid_dist@,
                        lower_bound@,
                    )
                    &&& votes == self.outcome(q, centroid_dist@, lower_bound@)
                    &&& votes <= K
                    &&& self.n_vecs > 0 ==> final(scratch).marked() == self.searched(
                        q.coarse_vector(),
                        centroid_dist@,
                        lower_bound@,
                    ).probed
                },
                None => self.n_vecs > 0 && !self.probes_soundly(
                    q.coarse_vector(),
                    centroid_dist@,
                    lower_bound@,
                ),
            },
            final(scratch).wf(),
    {
        if self.n_vecs == 0 {
            return Some(5);
        }
        let _epoch: u32 = scratch.prepare(self.n_clusters);
        let ghost qv = q.coarse_vector();
        let ghost near = nearest_centroids(
            centroid_dist@,
            self.nprobe as int,
            self.n_clusters as nat,
        );
        let probe_idx: [u32; MAX_NPROBE] = self.probes(centroid_dist);
        let mut top_dist: [u64; TOP_C] = [NO_DISTANCE;TOP_C];
        let mut top_idx: [u32; TOP_C] = [0u32;TOP_C];
        assert(ranking(top_dist@, top_idx@) =~= no_candidates());
        let mut k: usize = 0;
        while k < self.nprobe
            invariant
                self.wf(),
                self.n_vecs > 0,
                forall|c: int| #[trigger]
                    self.seeded(qv, near, k as nat).probed.contains(c) ==> self.is_sound(c),
                qv == q.coarse_vector(),
                near == nearest_centroids(
                    centroid_dist@,
                    self.nprobe as int,
                    self.n_clusters as nat,
                ),
                forall|i: int|
                    0 <= i < self.nprobe ==> #[trigger] probe_idx@[i] == near[i].1 && probe_idx@[i]
                        < self.n_clusters,
                k <= self.nprobe <= MAX_NPROBE,
                ranking(top_dist@, top_idx@) == self.seeded(qv, near, k as nat).top,
                points_into(ranking(top_dist@, top_idx@), self.n_vecs as int),
                scratch.wf(),
                scratch.marked() == self.seeded(qv, near, k as nat).probed,
                scratch.probed_epoch@.len() >= self.n_clusters,
            decreases self.nprobe - k,
        {
            let cluster: usize = probe_idx[k] as usize;
            let ghost found = self.seeded(qv, near, k as nat);
            proof {
                self.lemma_seeded_grows(qv, near, (k + 1) as nat, self.nprobe as nat);
                self.lemma_searched_grows(qv, centroid_dist@, lower_bound@);
                assert(self.seeded(qv, near, (k + 1) as nat).probed.contains(cluster as int));
            }
            if !self.scan_cluster(
                q,
                cluster,
                &mut top_dist,
                &mut top_idx,
                scratch,
                Ghost(found),
            ) {
                return None;
            }
            k += 1;
        }
        let ghost seed = self.seeded(qv, near, self.nprobe as nat);
        proof {
            assert forall|i: int| 0 <= i < TOP_C implies #[trigger] top_idx@[i] < self.n_vecs by {
                assert(ranking(top_dist@, top_idx@)[i] == (top_dist@[i], top_idx@[i]));
            }
        }
        let seed_frauds: usize = count_top_frauds(self.labels, &top_dist, &top_idx, K);
        assert(ranking(top_dist@, top_idx@)[K - 1].0 == top_dist@[K - 1]);
        let undecided: bool = top_dist[K - 1] == NO_DISTANCE || (seed_frauds != 0 && seed_frauds
            != K);
        if undecided {
            let tau: u64 = top_dist[TOP_C - 1];
            assert(seed.top[TOP_C - 1].0 == tau);
            let mut c: usize = 0;
            while c < self.n_clusters
                invariant
                    self.wf(),
                    self.n_vecs > 0,
                    forall|x: int| #[trigger]
                        self.expanded(qv, lower_bound@, tau, seed, c as nat).probed.contains(x)
                            ==> self.is_sound(x),
                    self.searched(qv, centroid_dist@, lower_bound@) == self.expanded(
                        qv,
                        lower_bound@,
                        tau,
                        seed,
                        self.n_clusters as nat,
                    ),
                    qv == q.coarse_vector(),
                    lower_bound@.len() >= self.n_clusters,
                    c <= self.n_clusters,
                    ranking(top_dist@, top_idx@) == self.expanded(
                        qv,
                        lower_bound@,
                        tau,
                        seed,
                        c as nat,
                    ).top,
                    points_into(ranking(top_dist@, top_idx@), self.n_vecs as int),
                    scratch.wf(),
                    scratch.marked() == self.expanded(
                        qv,
                        lower_bound@,
                        tau,
                        seed,
                        c as nat,
                    ).probed,
                    scratch.probed_epoch@.len() >= self.n_clusters,
                decreases self.n_clusters - c,
            {
                assert(scratch.marked().contains(c as int) == (scratch.probed_epoch@[c as int]
                    == scratch.epoch));
                if scratch.probed_epoch[c] != scratch.epoch && !is_ruled_out(lower_bound[c], tau) {
                    let ghost found = self.expanded(qv, lower_bound@, tau, seed, c as nat);
                    proof {
                        self.lemma_expanded_grows(
                            qv,
                            lower_bound@,
                            tau,
                            seed,
                            (c + 1) as nat,
                            self.n_clusters as nat,
                        );
                        assert(self.expanded(
                            qv,
                            lower_bound@,
                            tau,
                            seed,
                            (c + 1) as nat,
                        ).probed.contains(c as int));
                    }
                    if !self.scan_cluster(
                        q,
                        c,
                        &mut top_dist,
                        &mut top_idx,
                        scratch,
                        Ghost(found),
                    ) {
                        return None;
                    }
                }
                c += 1;
            }
        }
        let ghost top = ranking(top_dist@, top_idx@);
        proof {
            assert(top == self.searched(qv, centroid_dist@, lower_bound@).top);
            assert forall|i: int| 0 <= i < TOP_C implies #[trigger] top_idx@[i] < self.n_vecs
                && top_idx@[i] == top[i].1 by {
                assert(top[i] == (top_dist@[i], top_idx@[i]));
            }
            assert(top[K as int].0 == top_dist@[K as int] && top[K - 1].0 == top_dist@[K - 1]);
        }
        if top_dist[K] != NO_DISTANCE && (top_dist[K] <= top_dist[K - 1] || top_dist[K]
            - top_dist[K - 1] <= COARSE_TIE_GAP) {
            return Some(count_top_frauds(self.labels, &top_dist, &top_idx, K));
        }
        Some(self.refine(q, &top_idx, Ghost(top)))
    }

    /// Where no cluster starts before the one in front of it, every search probes soundly.
    pub proof fn law_ordered_probes_soundly(
        &self,
        q: Seq<int>,
        centroid_dist: Seq<Single>,
        bounds: Seq<Single>,
    )
        requires
            self.wf(),
            self.ordered(),
        ensures
            self.probes_soundly(q, centroid_dist, bounds),
    {
        let n = self.n_clusters as nat;
        let probes = nearest_centroids(centroid_dist, self.nprobe as int, n);
        lemma_nearest_centroids(centroid_dist, self.nprobe as int, n, n as int);
        self.lemma_seeded_clusters(q, probes, self.nprobe as nat);
        let seed = self.seeded(q, probes, self.nprobe as nat);
        self.lemma_expanded_clusters(q, bounds, seed.top[TOP_C - 1].0, seed, n);
        assert forall|c: int| #[trigger]
            self.searched(q, centroid_dist, bounds).probed.contains(c) implies self.is_sound(c) by {
            assert(self.boundary(c) <= self.boundary(c + 1));
            assert(self.boundary(c + 1) <= self.boundary(n as int));
        }
    }

    proof fn lemma_seeded_clusters(&self, q: Seq<int>, probes: Seq<(Single, u32)>, k: nat)
        requires
            k <= probes.len(),
            points_into(probes, self.n_clusters as int),
        ensures
            forall|c: int| #[trigger]
                self.seeded(q, probes, k).probed.contains(c) ==> 0 <= c < self.n_clusters,
        decreases k,
    {
        if k > 0 {
            self.lemma_seeded_clusters(q, probes, (k - 1) as nat);
            assert(probes[k - 1].1 < self.n_clusters);
            let before = self.seeded(q, probes, (k - 1) as nat).probed;
            assert forall|c: int| #[trigger]
                self.seeded(q, probes, k).probed.contains(c) implies 0 <= c < self.n_clusters by {
                assert(c == probes[k - 1].1 || before.contains(c));
            }
        }
    }

    proof fn lemma_expanded_clusters(
        &self,
        q: Seq<int>,
        bounds: Seq<Single>,
        tau: u64,
        found: Found,
        k: nat,
    )
        requires
            k <= self.n_clusters,
            forall|c: int| #[trigger] found.probed.contains(c) ==> 0 <= c < self.n_clusters,
        ensures
            forall|c: int| #[trigger]
                self.expanded(q, bounds, tau, found, k).probed.contains(c) ==> 0 <= c
                    < self.n_clusters,
        decreases k,
    {
        if k > 0 {
            self.lemma_expanded_clusters(q, bounds, tau, found, (k - 1) as nat);
            let before = self.expanded(q, bounds, tau, found, (k - 1) as nat).probed;
            assert forall|c: int| #[trigger]
                self.expanded(q, bounds, tau, found, k).probed.contains(c) implies 0 <= c
                < self.n_clusters by {
                assert(c == k - 1 || before.contains(c));
            }
        }
    }
}

} // verus!
