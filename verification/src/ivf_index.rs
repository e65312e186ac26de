//! The inverted-file index: reference vectors in clusters, their labels, and the search for
//! the nearest of them.
use vstd::prelude::*;
use vstd::string::StringSliceAdditionalSpecFns;

use crate::bytes::{occurs, occurs_at};
use crate::mapped::{load_u32, read_mapped_slice, read_u32, typed_slice, u32_at, IndexError};
use crate::types::DIM;

verus! {

/// How many nearest vectors vote.
pub const K: usize = 5;

/// How many candidates the coarse search keeps.
pub const TOP_C: usize = 16;

pub const MAX_NPROBE: usize = 24;

pub const MAX_CLUSTERS: usize = 8192;

pub const IVF_MAGIC: &'static str = "RIVF2026";

/// The bytes of an index file before its first centroid.
pub const IVF_HEADER: usize = 28;

/// A refined coordinate is a coarse one times this, plus a residual.
pub const REFINE_STEP: i32 = 128;

pub const REFINE_MAX: i32 = 4_194_176;

/// Coarse distances no farther apart than this are told apart by the votes alone.
pub const COARSE_TIE_GAP: u64 = 2048;

/// How many vectors a fused kernel takes at a time.
pub const SIMD_LANES: usize = 8;

/// The coarse distance of a place that holds no candidate.
pub const NO_DISTANCE: u64 = u64::MAX;

/// Why an index file does not go with `n_vecs` vectors.
pub open spec fn ivf_error(bytes: Seq<u8>, n_vecs: int) -> Option<IndexError> {
    let n_clusters = u32_at(bytes, 12);
    let nprobe = u32_at(bytes, 16);
    let end = IVF_HEADER + n_clusters * DIM * 4 + n_clusters * 4 + (n_clusters + 1) * 4;
    if bytes.len() < IVF_HEADER || !occurs_at(bytes, IVF_MAGIC.spec_bytes(), 0) {
        Some(IndexError::BadHeader)
    } else if u32_at(bytes, 8) != DIM || u32_at(bytes, 20) != n_vecs || n_clusters == 0
        || n_clusters > MAX_CLUSTERS {
        Some(IndexError::BadDimensions)
    } else if nprobe == 0 || nprobe > MAX_NPROBE || nprobe > n_clusters {
        Some(IndexError::BadNprobe)
    } else if end > bytes.len() {
        Some(IndexError::SliceTruncated)
    } else if end != bytes.len() || u32_at(bytes, end - 4 * (n_clusters + 1)) != 0 || u32_at(
        bytes,
        end - 4,
    ) != n_vecs {
        Some(IndexError::BadPayload)
    } else {
        None
    }
}

/// The parts of an index file.
pub struct ParsedIvf<'a> {
    pub n_clusters: usize,
    pub nprobe: usize,
    /// The centroids, one after the other, each as bit patterns of its coordinates.
    pub centroids: &'a [u8],
    /// The radius of each cluster, as a bit pattern.
    pub radii: &'a [u8],
    /// Where each cluster's vectors start, and where the last one's end.
    pub boundaries: &'a [u8],
}

impl<'a> ParsedIvf<'a> {
    /// These are the parts of the file.
    pub open spec fn of(&self, bytes: Seq<u8>) -> bool {
        let radii = IVF_HEADER + self.n_clusters * DIM * 4;
        let boundaries = radii + self.n_clusters * 4;
        &&& self.n_clusters == u32_at(bytes, 12)
        &&& self.nprobe == u32_at(bytes, 16)
        &&& self.centroids@ == bytes.subrange(IVF_HEADER as int, radii)
        &&& self.radii@ == bytes.subrange(radii, boundaries)
        &&& self.boundaries@ == bytes.subrange(boundaries, bytes.len() as int)
    }

    /// Takes an index file apart.
    pub fn parse(bytes: &'a [u8], n_vecs: usize) -> (r: Result<ParsedIvf<'a>, IndexError>)
        ensures
            match r {
                Ok(parsed) => ivf_error(bytes@, n_vecs as int) is None && parsed.of(bytes@),
                Err(e) => ivf_error(bytes@, n_vecs as int) == Some(e),
            },
    {
        proof {
            reveal_strlit("RIVF2026");
            assert(IVF_MAGIC.is_ascii());
        }
        if bytes.len() < IVF_HEADER || !occurs(bytes, IVF_MAGIC.as_bytes(), 0) {
            return Err(IndexError::BadHeader);
        }
        let mut off: usize = 8;
        let dim: usize = match read_u32(bytes, &mut off) {
            Ok(v) => v as usize,
            Err(e) => return Err(e),
        };
        let n_clusters: usize = match read_u32(bytes, &mut off) {
            Ok(v) => v as usize,
            Err(e) => return Err(e),
        };
        let nprobe: usize = match read_u32(bytes, &mut off) {
            Ok(v) => v as usize,
            Err(e) => return Err(e),
        };
        let index_n: usize = match read_u32(bytes, &mut off) {
            Ok(v) => v as usize,
            Err(e) => return Err(e),
        };
        match read_u32(bytes, &mut off) {
            Ok(_) => {},
            Err(e) => return Err(e),
        }
        if dim != DIM || index_n != n_vecs || n_clusters == 0 || n_clusters > MAX_CLUSTERS {
            return Err(IndexError::BadDimensions);
        }
        if nprobe == 0 || nprobe > MAX_NPROBE || nprobe > n_clusters {
            return Err(IndexError::BadNprobe);
        }
        let centroids = match read_mapped_slice(bytes, &mut off, n_clusters * DIM, 4, 4) {
            Ok(part) => part,
            Err(e) => return Err(e),
        };
        let radii = match read_mapped_slice(bytes, &mut off, n_clusters, 4, 4) {
            Ok(part) => part,
            Err(e) => return Err(e),
        };
        let boundaries = match read_mapped_slice(bytes, &mut off, n_clusters + 1, 4, 4) {
            Ok(part) => part,
            Err(e) => return Err(e),
        };
        if off != bytes.len() {
            return Err(IndexError::BadPayload);
        }
        let first: u32 = load_u32(boundaries, 0);
        let last: u32 = load_u32(boundaries, n_clusters * 4);
        if first != 0 || last as usize != n_vecs {
            return Err(IndexError::BadPayload);
        }
        Ok(ParsedIvf { n_clusters, nprobe, centroids, radii, boundaries })
    }
}

/// How coarse distances are accumulated.
#[derive(Clone, Copy, Debug, PartialEq, Eq, Structural)]
pub enum Kernel {
    /// Each square is rounded before it is added.
    Plain,
    /// Squares are added unrounded in groups of [`SIMD_LANES`] vectors, as a fused
    /// multiply-add does; what is left of a cluster goes as in a plain kernel.
    Fused,
}

/// The place of row `row`, column `column` in a table of rows of `width`.
pub open spec fn cell(row: int, column: int, width: int) -> int {
    row * width + column
}

proof fn lemma_cell(row: int, column: int, width: int, rows: int)
    requires
        0 <= row < rows,
        0 <= column < width,
    ensures
        0 <= cell(row, column, width) < rows * width,
        cell(row, column, width) < (row + 1) * width,
        (row + 1) * width == row * width + width,
{
    assert(row * width + column < (row + 1) * width && 0 <= row * width) by (nonlinear_arith)
        requires
            0 <= row,
            0 <= column < width,
    ;
    assert((row + 1) * width <= rows * width) by (nonlinear_arith)
        requires
            row + 1 <= rows,
            0 < width,
    ;
    assert((row + 1) * width == row * width + width) by (nonlinear_arith);
}

/// The least multiple of [`SIMD_LANES`] that is no less than `n`.
pub open spec fn padded(n: int) -> int {
    (n + SIMD_LANES - 1) / SIMD_LANES as int * SIMD_LANES
}

/// The bit pattern of a coordinate of a centroid, or 0 where there is no such cluster.
pub open spec fn centroid_bits(
    centroids: Seq<u8>,
    n_clusters: int,
    cluster: int,
    dim: int,
) -> int {
    if cluster < n_clusters {
        u32_at(centroids, 4 * cell(cluster, dim, DIM as int))
    } else {
        0
    }
}

/// `table` holds the centroids by coordinate, each row padded with zeros to `width`.
pub open spec fn is_transposed(
    table: Seq<u32>,
    centroids: Seq<u8>,
    n_clusters: int,
    width: int,
) -> bool {
    &&& table.len() == DIM * width
    &&& forall|dim: int, cluster: int|
        0 <= dim < DIM && 0 <= cluster < width ==> table[#[trigger] cell(dim, cluster, width)]
            == centroid_bits(centroids, n_clusters, cluster, dim)
}

/// The centroids by coordinate.
fn transpose_centroids(centroids: &[u8], n_clusters: usize, width: usize) -> (r: Vec<u32>)
    requires
        n_clusters <= width <= 2 * MAX_CLUSTERS,
        centroids@.len() == n_clusters * DIM * 4,
    ensures
        is_transposed(r@, centroids@, n_clusters as int, width as int),
{
    let mut table: Vec<u32> = Vec::with_capacity(DIM * width);
    let mut dim: usize = 0;
    while dim < DIM
        invariant
            dim <= DIM,
            n_clusters <= width <= 2 * MAX_CLUSTERS,
            centroids@.len() == n_clusters * DIM * 4,
            table@.len() == dim * width,
            forall|d: int, c: int|
                0 <= d < dim && 0 <= c < width ==> table@[#[trigger] cell(d, c, width as int)]
                    == centroid_bits(centroids@, n_clusters as int, c, d),
        decreases DIM - dim,
    {
        let mut cluster: usize = 0;
        while cluster < width
            invariant
                dim < DIM,
                cluster <= width,
                n_clusters <= width <= 2 * MAX_CLUSTERS,
                centroids@.len() == n_clusters * DIM * 4,
                table@.len() == dim * width + cluster,
                forall|d: int, c: int|
                    0 <= d <= dim && 0 <= c < width && (d == dim ==> c < cluster)
                        ==> table@[#[trigger] cell(d, c, width as int)] == centroid_bits(
                        centroids@,
                        n_clusters as int,
                        c,
                        d,
                    ),
            decreases width - cluster,
        {
            let bits: u32 = if cluster < n_clusters {
                load_u32(centroids, 4 * (cluster * DIM + dim))
            } else {
                0
            };
            let ghost before = table@;
            table.push(bits);
            proof {
                assert forall|d: int, c: int|
                    0 <= d <= dim && 0 <= c < width && (d == dim ==> c < cluster + 1) implies
                    table@[#[trigger] cell(d, c, width as int)] == centroid_bits(
                    centroids@,
                    n_clusters as int,
                    c,
                    d,
                ) by {
                    lemma_cell(d, c, width as int, DIM as int);
                    if d < dim {
                        assert((d + 1) * width <= dim * width) by (nonlinear_arith)
                            requires
                                d + 1 <= dim,
                        ;
                        assert(cell(d, c, width as int) < before.len());
                    } else if c < cluster {
                        assert(cell(d, c, width as int) < before.len());
                    }
                }
            }
            cluster += 1;
        }
        proof {
            assert((dim + 1) * width == dim * width + width) by (nonlinear_arith);
        }
        dim += 1;
    }
    table
}

/// Why the index files cannot be used, in the order in which they are looked at.
pub open spec fn load_error(
    labels: Seq<u8>,
    vectors: Seq<u8>,
    residuals: Seq<u8>,
    ivf: Seq<u8>,
) -> Option<IndexError> {
    let n_vecs = labels.len() as int;
    if n_vecs == 0 {
        Some(IndexError::EmptyLabels)
    } else if vectors.len() % 2 != 0 {
        Some(IndexError::OddLength)
    } else if vectors.len() / 2 != DIM * n_vecs {
        Some(
            IndexError::VectorsMismatch {
                found: (vectors.len() / 2) as usize,
                labels: n_vecs as usize,
            },
        )
    } else if residuals.len() != DIM * n_vecs {
        Some(
            IndexError::ResidualsMismatch {
                found: residuals.len() as usize,
                labels: n_vecs as usize,
            },
        )
    } else {
        ivf_error(ivf, n_vecs)
    }
}

/// Whether there is a label at all.
pub fn check_labels(labels: &[u8]) -> (r: Result<(), IndexError>)
    ensures
        match r {
            Ok(_) => labels@.len() > 0,
            Err(e) => labels@.len() == 0 && e == IndexError::EmptyLabels,
        },
{
    if labels.len() == 0 {
        Err(IndexError::EmptyLabels)
    } else {
        Ok(())
    }
}

/// The file as 16-bit elements.
pub fn map_i16_file<'a>(file: &'a [u8]) -> (r: Result<&'a [u8], IndexError>)
    ensures
        match r {
            Ok(bytes) => file@.len() % 2 == 0 && bytes@ == file@,
            Err(e) => file@.len() % 2 != 0 && e == IndexError::OddLength,
        },
{
    let len: usize = file.len();
    if len % 2 != 0 {
        return Err(IndexError::OddLength);
    }
    let r = typed_slice(file, 0, len / 2, 2, 2);
    assert(file@.subrange(0, len as int) =~= file@);
    r
}

/// Whether `found` elements are [`DIM`] for each of `n_vecs` vectors.
fn fits_vectors(found: usize, n_vecs: usize) -> (r: bool)
    ensures
        r == (found == DIM * n_vecs),
{
    found % DIM == 0 && found / DIM == n_vecs
}

/// Whether the vectors go with the labels.
pub fn check_vectors(vectors: &[u8], n_vecs: usize) -> (r: Result<(), IndexError>)
    ensures
        match r {
            Ok(_) => vectors@.len() % 2 == 0 && vectors@.len() / 2 == DIM * n_vecs,
            Err(e) => if vectors@.len() % 2 != 0 {
                e == IndexError::OddLength
            } else {
                vectors@.len() / 2 != DIM * n_vecs && e == (IndexError::VectorsMismatch {
                    found: (vectors@.len() / 2) as usize,
                    labels: n_vecs,
                })
            },
        },
{
    let elements: usize = match map_i16_file(vectors) {
        Ok(bytes) => bytes.len() / 2,
        Err(e) => return Err(e),
    };
    if !fits_vectors(elements, n_vecs) {
        return Err(IndexError::VectorsMismatch { found: elements, labels: n_vecs });
    }
    Ok(())
}

/// Whether the residuals go with the labels.
pub fn check_residuals(residuals: &[u8], n_vecs: usize) -> (r: Result<(), IndexError>)
    ensures
        match r {
            Ok(_) => residuals@.len() == DIM * n_vecs,
            Err(e) => residuals@.len() != DIM * n_vecs && e == (IndexError::ResidualsMismatch {
                found: residuals@.len() as usize,
                labels: n_vecs,
            }),
        },
{
    let found: usize = residuals.len();
    if !fits_vectors(found, n_vecs) {
        return Err(IndexError::ResidualsMismatch { found, labels: n_vecs });
    }
    Ok(())
}

/// The reference vectors, by coordinate, with what is needed to search them.
pub struct ExactIndex<'a> {
    pub n_vecs: usize,
    pub n_clusters: usize,
    pub nprobe: usize,
    pub kernel: Kernel,
    /// The coarse coordinates: all the first ones, then all the second ones, and so on.
    pub dims: &'a [u8],
    /// What a refined coordinate adds, in the same order.
    pub residuals: &'a [u8],
    pub labels: &'a [u8],
    pub centroids: &'a [u8],
    /// The centroids by coordinate, as bit patterns.
    pub centroids_soa: Vec<u32>,
    pub n_clusters_padded: usize,
    pub radii: &'a [u8],
    pub boundaries: &'a [u8],
}

impl<'a> ExactIndex<'a> {
    /// The parts of the index go together.
    pub open spec fn wf(&self) -> bool {
        &&& self.n_vecs <= u32::MAX
        &&& self.labels@.len() == self.n_vecs
        &&& self.dims@.len() == 2 * DIM * self.n_vecs
        &&& self.residuals@.len() == DIM * self.n_vecs
        &&& 0 < self.nprobe <= MAX_NPROBE
        &&& self.nprobe <= self.n_clusters <= MAX_CLUSTERS
        &&& self.centroids@.len() == self.n_clusters * DIM * 4
        &&& self.radii@.len() == self.n_clusters * 4
        &&& self.boundaries@.len() == (self.n_clusters + 1) * 4
        &&& self.boundary(0) == 0
        &&& self.boundary(self.n_clusters as int) == self.n_vecs
        &&& self.n_clusters_padded == padded(self.n_clusters as int)
        &&& is_transposed(
            self.centroids_soa@,
            self.centroids@,
            self.n_clusters as int,
            self.n_clusters_padded as int,
        )
    }

    /// The first vector of a cluster; behind the last cluster, the number of vectors.
    pub open spec fn boundary(&self, cluster: int) -> int {
        u32_at(self.boundaries@, 4 * cluster)
    }

    /// No cluster starts before the one in front of it.
    pub open spec fn ordered(&self) -> bool {
        forall|a: int, b: int|
            0 <= a <= b <= self.n_clusters ==> #[trigger] self.boundary(a)
                <= #[trigger] self.boundary(b)
    }

    /// The index in four files: labels, vectors, residuals, and clusters.
    pub fn load(
        labels: &'a [u8],
        vectors: &'a [u8],
        residuals: &'a [u8],
        ivf: &'a [u8],
        kernel: Kernel,
    ) -> (r: Result<ExactIndex<'a>, IndexError>)
        ensures
            match r {
                Ok(index) => {
                    &&& load_error(labels@, vectors@, residuals@, ivf@) is None
                    &&& index.wf()
                    &&& index.n_vecs > 0
                    &&& index.labels@ == labels@
                    &&& index.dims@ == vectors@
                    &&& index.residuals@ == residuals@
                    &&& index.kernel == kernel
                    &&& (ParsedIvf {
                        n_clusters: index.n_clusters,
                        nprobe: index.nprobe,
                        centroids: index.centroids,
                        radii: index.radii,
                        boundaries: index.boundaries,
                    }).of(ivf@)
                },
                Err(e) => load_error(labels@, vectors@, residuals@, ivf@) == Some(e),
            },
    {
        match check_labels(labels) {
            Ok(_) => {},
            Err(e) => return Err(e),
        }
        let n_vecs: usize = labels.len();
        match check_vectors(vectors, n_vecs) {
            Ok(_) => {},
            Err(e) => return Err(e),
        }
        match check_residuals(residuals, n_vecs) {
            Ok(_) => {},
            Err(e) => return Err(e),
        }
        let parsed = match ParsedIvf::parse(ivf, n_vecs) {
            Ok(parsed) => parsed,
            Err(e) => return Err(e),
        };
        let n_clusters_padded: usize = (parsed.n_clusters + SIMD_LANES - 1) / SIMD_LANES
            * SIMD_LANES;
        let centroids_soa = transpose_centroids(
            parsed.centroids,
            parsed.n_clusters,
            n_clusters_padded,
        );
        let index = ExactIndex {
            n_vecs,
            n_clusters: parsed.n_clusters,
            nprobe: parsed.nprobe,
            kernel,
            dims: vectors,
            residuals,
            labels,
            centroids: parsed.centroids,
            centroids_soa,
            n_clusters_padded,
            radii: parsed.radii,
            boundaries: parsed.boundaries,
        };
        Ok(index)
    }
}

} // verus!
