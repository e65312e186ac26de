use rinha_rust_api::coarse::accumulate;
use rinha_rust_api::ieee::Single;
use rinha_rust_api::ivf_index::{ExactIndex, Kernel};
use rinha_rust_api::mapped::IndexError;
use rinha_rust_api::search::{quant16, quant_refined, QuantizedQuery, QueryScratch};

const DIM: usize = 14;

fn single(v: f32) -> Single {
    Single { bits: v.to_bits() }
}

/// Index files for vectors in clusters, each vector with its label.
struct Files {
    labels: Vec<u8>,
    vectors: Vec<u8>,
    residuals: Vec<u8>,
    ivf: Vec<u8>,
}

type Cluster = Vec<([i16; DIM], u8)>;

fn files(clusters: &[Cluster], nprobe: u32) -> Files {
    let all: Vec<([i16; DIM], u8)> = clusters.iter().flatten().copied().collect();
    let mut vectors = Vec::new();
    for d in 0..DIM {
        for (v, _) in &all {
            vectors.extend_from_slice(&v[d].to_le_bytes());
        }
    }
    let mut ivf = b"RIVF2026".to_vec();
    for n in [DIM as u32, clusters.len() as u32, nprobe, all.len() as u32, 0] {
        ivf.extend_from_slice(&n.to_le_bytes());
    }
    for cluster in clusters {
        for d in 0..DIM {
            let c = cluster.first().map_or(0, |(v, _)| v[d]);
            ivf.extend_from_slice(&f32::from(c).to_le_bytes());
        }
    }
    for _ in clusters {
        ivf.extend_from_slice(&1.0f32.to_le_bytes());
    }
    let mut at = 0u32;
    ivf.extend_from_slice(&at.to_le_bytes());
    for cluster in clusters {
        at += cluster.len() as u32;
        ivf.extend_from_slice(&at.to_le_bytes());
    }
    Files {
        labels: all.iter().map(|(_, l)| *l).collect(),
        residuals: vec![0; DIM * all.len()],
        vectors,
        ivf,
    }
}

fn load(f: &Files) -> Result<ExactIndex<'_>, IndexError> {
    ExactIndex::load(&f.labels, &f.vectors, &f.residuals, &f.ivf, Kernel::Plain)
}

fn refusal(f: &Files) -> IndexError {
    match load(f) {
        Ok(_) => panic!("loaded"),
        Err(e) => e,
    }
}

fn at(x: i16) -> [i16; DIM] {
    let mut v = [0; DIM];
    v[0] = x;
    v
}

fn query_at(x: i64) -> QuantizedQuery {
    let mut coarse = [0i64; DIM];
    let mut refined = [0i64; DIM];
    coarse[0] = x;
    refined[0] = x * 128;
    QuantizedQuery::new(&coarse, &refined)
}

/// The squared distance to each centroid and a bound for each cluster, both exact.
fn distances(
    index: &ExactIndex<'_>,
    clusters: &[Cluster],
    q: &QuantizedQuery,
) -> (Vec<Single>, Vec<Single>) {
    let to = |v: &[i16; DIM]| {
        let mut sum = 0.0f32;
        for d in 0..DIM {
            let diff = f32::from(q.coarse[d]) - f32::from(v[d]);
            sum += diff * diff;
        }
        sum
    };
    assert_eq!(index.n_clusters, clusters.len());
    let centroid = clusters
        .iter()
        .map(|c| single(c.first().map_or(0.0, |(v, _)| to(v))))
        .collect();
    let bound = clusters
        .iter()
        .map(|c| single(c.iter().map(|(v, _)| to(v)).fold(f32::INFINITY, f32::min)))
        .collect();
    (centroid, bound)
}

fn ask(clusters: &[Cluster], nprobe: u32, x: i64) -> usize {
    let f = files(clusters, nprobe);
    let index = load(&f).unwrap();
    let q = query_at(x);
    let (centroid, bound) = distances(&index, clusters, &q);
    let mut scratch = QueryScratch::new();
    let first = index.try_query(&q, &centroid, &bound, &mut scratch).unwrap();
    // What a query leaves behind does not change the next one.
    assert_eq!(index.query(&q, &centroid, &bound, &mut scratch), first);
    first
}

fn line(from: i16, n: i16, step: i16, label: u8) -> Cluster {
    (0..n).map(|i| (at(from + i * step), label)).collect()
}

#[test]
fn good_files_are_loaded() {
    let f = files(&[line(0, 6, 1_000, 0), line(20_000, 4, 1_000, 1)], 1);
    let index = load(&f).unwrap();
    assert_eq!(index.n_vecs, 10);
    assert_eq!(index.n_clusters, 2);
    assert_eq!(index.nprobe, 1);
    assert_eq!(index.n_clusters_padded, 8);
    assert_eq!(index.centroids_soa.len(), 8 * DIM);
    assert_eq!(index.centroids_soa[1], 20_000.0f32.to_bits());
    assert_eq!(index.centroids_soa[2], 0);
    assert_eq!(index.labels, &[0, 0, 0, 0, 0, 0, 1, 1, 1, 1]);
    assert_eq!(index.ref_refined(3, 0), 3_000 * 128);
}

#[test]
fn residuals_refine_coordinates() {
    let mut f = files(&[line(5, 6, 1, 0)], 1);
    f.residuals[1] = 0xff;
    f.residuals[2] = 0x7f;
    let index = load(&f).unwrap();
    assert_eq!(index.ref_refined(0, 0), 640);
    assert_eq!(index.ref_refined(1, 0), 6 * 128 - 1);
    assert_eq!(index.ref_refined(2, 0), 7 * 128 + 127);
}

#[test]
fn files_that_do_not_go_together_are_refused() {
    let good = || files(&[line(0, 6, 1_000, 0), line(20_000, 4, 1_000, 1)], 1);
    let mut f = good();
    f.labels.clear();
    assert_eq!(refusal(&f), IndexError::EmptyLabels);
    let mut f = good();
    f.vectors.pop();
    assert_eq!(refusal(&f), IndexError::OddLength);
    let mut f = good();
    f.vectors.pop();
    f.vectors.pop();
    assert_eq!(refusal(&f), IndexError::VectorsMismatch { found: 139, labels: 10 });
    let mut f = good();
    f.residuals.pop();
    assert_eq!(refusal(&f), IndexError::ResidualsMismatch { found: 139, labels: 10 });
}

#[test]
fn bad_clusters_are_refused() {
    let good = || files(&[line(0, 6, 1_000, 0), line(20_000, 4, 1_000, 1)], 1);
    let mut f = good();
    f.ivf[0] = b'X';
    assert_eq!(refusal(&f), IndexError::BadHeader);
    let mut f = good();
    f.ivf.truncate(27);
    assert_eq!(refusal(&f), IndexError::BadHeader);
    for (at, value) in [(8usize, 13u8), (12, 0), (20, 9)] {
        let mut f = good();
        f.ivf[at] = value;
        assert_eq!(refusal(&f), IndexError::BadDimensions);
    }
    let mut f = good();
    f.ivf[13] = 0x20;
    assert_eq!(refusal(&f), IndexError::BadDimensions);
    for nprobe in [0u8, 3, 25] {
        let mut f = good();
        f.ivf[16] = nprobe;
        assert_eq!(refusal(&f), IndexError::BadNprobe);
    }
    let mut f = good();
    f.ivf.pop();
    assert_eq!(refusal(&f), IndexError::SliceTruncated);
    let mut f = good();
    f.ivf.push(0);
    assert_eq!(refusal(&f), IndexError::BadPayload);
    let mut f = good();
    let n = f.ivf.len();
    f.ivf[n - 12] = 1;
    assert_eq!(refusal(&f), IndexError::BadPayload);
    let mut f = good();
    let n = f.ivf.len();
    f.ivf[n - 4] = 9;
    assert_eq!(refusal(&f), IndexError::BadPayload);
}

#[test]
fn only_a_search_that_scans_a_bad_cluster_fails() {
    // Three clusters, of which the second runs past the last vector and the third backwards.
    let clusters = [line(0, 16, 10, 0), line(15_000, 2, 10, 1), line(30_000, 2, 10, 1)];
    let mut f = files(&clusters, 1);
    let n = f.ivf.len();
    f.ivf[n - 8] = 30;
    let index = load(&f).unwrap();
    let mut scratch = QueryScratch::new();
    let q = query_at(0);
    let (centroid, bound) = distances(&index, &clusters, &q);
    assert_eq!(index.try_query(&q, &centroid, &bound, &mut scratch), Some(0));
    for x in [15_000, 30_000] {
        let q = query_at(x);
        let (centroid, bound) = distances(&index, &clusters, &q);
        assert_eq!(index.try_query(&q, &centroid, &bound, &mut scratch), None);
    }
    let q = query_at(0);
    assert_eq!(index.try_query(&q, &centroid, &bound, &mut scratch), Some(0));
}

#[test]
fn a_neighbourhood_that_agrees_settles_the_vote() {
    let clusters = [line(0, 6, 1_000, 0), line(20_000, 6, 1_000, 1)];
    assert_eq!(ask(&clusters, 1, 0), 0);
    assert_eq!(ask(&clusters, 1, 25_000), 5);
}

#[test]
fn a_divided_neighbourhood_looks_further() {
    // The probed cluster alone would give two votes.
    let mut mixed = line(0, 3, 100, 0);
    mixed.extend(line(10_000, 3, 100, 1));
    let clusters = [mixed, line(1_000, 10, 10, 1)];
    assert_eq!(ask(&clusters, 1, 900), 5);
    assert_eq!(ask(&clusters, 2, 900), 5);
    assert_eq!(ask(&clusters, 1, 0), 2);
}

#[test]
fn too_few_neighbours_look_further() {
    let clusters = [line(0, 2, 10, 0), line(5_000, 14, 500, 1)];
    assert_eq!(ask(&clusters, 1, 0), 3);
}

#[test]
fn with_bounds_the_search_finds_what_a_full_scan_finds() {
    let mut seed = 12_345u32;
    let mut next = || {
        seed = seed.wrapping_mul(1_664_525).wrapping_add(1_013_904_223);
        seed >> 8
    };
    let mut compared = 0;
    for round in 0..20 {
        let mut clusters: Vec<Cluster> = Vec::new();
        for c in 0..6i16 {
            let mut cluster = Vec::new();
            for _ in 0..12 {
                let mut v = [0i16; DIM];
                for slot in v.iter_mut() {
                    *slot = (next() % 4_000) as i16 + c * 2_000;
                }
                cluster.push((v, (next() % 2) as u8));
            }
            clusters.push(cluster);
        }
        let mut coarse = [0i64; DIM];
        let mut refined = [0i64; DIM];
        for d in 0..DIM {
            coarse[d] = i64::from(next() % 16_000);
            refined[d] = coarse[d] * 128;
        }
        let q = QuantizedQuery::new(&coarse, &refined);
        let narrow = files(&clusters, 1);
        let wide = files(&clusters, 6);
        let narrow_index = load(&narrow).unwrap();
        let wide_index = load(&wide).unwrap();
        let (centroid, bound) = distances(&narrow_index, &clusters, &q);
        let mut scratch = QueryScratch::new();
        let full = wide_index.query(&q, &centroid, &bound, &mut scratch);
        let nearest = centroid
            .iter()
            .enumerate()
            .min_by(|a, b| f32::from_bits(a.1.bits).total_cmp(&f32::from_bits(b.1.bits)))
            .unwrap()
            .0;
        let mut first: Vec<(u64, u8)> = clusters[nearest]
            .iter()
            .map(|(v, l)| {
                let mut sum = 0;
                for d in 0..DIM {
                    sum = accumulate(sum, i32::from(q.coarse[d]) - i32::from(v[d]), false);
                }
                (sum, *l)
            })
            .collect();
        first.sort_by_key(|p| p.0);
        let votes = first[..5].iter().filter(|p| p.1 != 0).count();
        let found = narrow_index.query(&q, &centroid, &bound, &mut scratch);
        if votes != 0 && votes != 5 {
            assert_eq!(found, full, "round {round}");
            compared += 1;
        }
    }
    assert!(compared > 10);
}

#[test]
fn near_ties_are_settled_by_coarse_distance() {
    // Five fraudulent vectors at distance zero and a legitimate one just behind: by coarse
    // distance the five vote, though residuals would put the sixth in front.
    let mut cluster: Cluster = (0..5).map(|_| (at(100), 1)).collect();
    cluster.push((at(140), 0));
    let mut f = files(&[cluster.clone()], 1);
    for r in f.residuals[..5].iter_mut() {
        *r = 0x7f;
    }
    let index = load(&f).unwrap();
    let q = query_at(100);
    let zero = [single(0.0)];
    let mut scratch = QueryScratch::new();
    assert_eq!(index.query(&q, &zero, &zero, &mut scratch), 5);
}

#[test]
fn refined_distances_settle_clear_gaps() {
    // All six are equally far in refined coordinates but for the residuals.
    let mut cluster: Cluster = (0..5).map(|_| (at(100), 1)).collect();
    cluster.push((at(200), 0));
    let f = files(&[cluster], 1);
    let index = load(&f).unwrap();
    let q = {
        let mut coarse = [0i64; DIM];
        let mut refined = [0i64; DIM];
        coarse[0] = 100;
        // The refined query lies nearer to the sixth vector.
        refined[0] = 190 * 128;
        QuantizedQuery::new(&coarse, &refined)
    };
    let zero = [single(0.0)];
    let mut scratch = QueryScratch::new();
    assert_eq!(index.query(&q, &zero, &zero, &mut scratch), 4);
}

#[test]
fn empty_places_stand_for_the_first_vector() {
    // With two vectors the rest of the list points at the first one.
    let clusters = [vec![(at(0), 1), (at(50), 0)]];
    assert_eq!(ask(&clusters, 1, 0), 5);
    let clusters = [vec![(at(0), 0), (at(50), 1)]];
    assert_eq!(ask(&clusters, 1, 0), 0);
}

#[test]
fn an_index_without_vectors_gives_all_votes() {
    let f = files(&[line(0, 6, 1, 0)], 1);
    let mut index = load(&f).unwrap();
    index.n_vecs = 0;
    index.labels = &[];
    index.dims = &[];
    index.residuals = &[];
    index.boundaries = &[0; 8];
    let zero = [single(0.0)];
    let mut scratch = QueryScratch::new();
    assert_eq!(index.query(&query_at(0), &zero, &zero, &mut scratch), 5);
}

#[test]
fn coordinates_are_held_to_their_range() {
    assert_eq!(quant16(40_000), 32_767);
    assert_eq!(quant16(-40_000), -32_767);
    assert_eq!(quant16(-32_767), -32_767);
    assert_eq!(quant16(12), 12);
    assert_eq!(quant_refined(i64::MAX), 4_194_176);
    assert_eq!(quant_refined(i64::MIN), -4_194_176);
    assert_eq!(quant_refined(-5), -5);
    let q = QuantizedQuery::new(&[i64::MIN; DIM], &[i64::MAX; DIM]);
    assert_eq!(q.coarse, [-32_767; DIM]);
    assert_eq!(q.refined, [4_194_176; DIM]);
}

#[test]
fn a_new_epoch_has_no_marks() {
    let mut scratch = QueryScratch::new();
    assert_eq!(scratch.prepare(3), 1);
    assert_eq!(scratch.probed_epoch, vec![0, 0, 0]);
    scratch.probed_epoch[1] = 1;
    assert_eq!(scratch.prepare(2), 2);
    assert_eq!(scratch.probed_epoch, vec![0, 1, 0]);
    scratch.epoch = u32::MAX;
    scratch.probed_epoch[2] = u32::MAX;
    assert_eq!(scratch.prepare(4), 1);
    assert_eq!(scratch.probed_epoch, vec![0, 0, 0, 0]);
}

#[test]
fn five_different_vectors_vote() {
    // The nearest vector alone is fraudulent: however near it is, it votes once.
    let mut cluster = line(0, 1, 1, 1);
    cluster.extend(line(2_000, 19, 500, 0));
    assert_eq!(ask(&[cluster.clone()], 1, 0), 1);
    // The same where coarse distances nearly tie.
    let mut cluster = line(0, 1, 1, 1);
    cluster.extend(line(10, 19, 1, 0));
    assert_eq!(ask(&[cluster], 1, 0), 1);
}
