//! Index files as they are written, and that what is written in them is what is loaded.
use vstd::prelude::*;
use vstd::string::StringSliceAdditionalSpecFns;

use crate::bytes::occurs_at;
use crate::decimal::decimal;
use crate::ivf_index::{
    cell, check_labels, check_residuals, check_vectors, map_i16_file, ExactIndex, Kernel,
    ParsedIvf,
};
use crate::mapped::{
    load_i16, load_u32, read_mapped_slice, read_u32, signed_byte, typed_slice, u32_at, IndexError,
};
use crate::resolve::decimal_digits;
use crate::types::DIM;

verus! {

/// A number in four bytes, the low one first.
pub open spec fn four_bytes(n: int) -> Seq<u8> {
    seq![
        (n % 256) as u8,
        (n / 256 % 256) as u8,
        (n / 65_536 % 256) as u8,
        (n / 16_777_216) as u8,
    ]
}

/// A number is loaded as it was written.
pub proof fn law_number_loaded(bytes: &[u8], at: usize, r: u32, n: int)
    requires
        call_ensures(load_u32, (bytes, at), r),
        0 <= n < 0x1_0000_0000,
        at + 4 <= bytes@.len(),
        bytes@.subrange(at as int, at + 4) == four_bytes(n),
    ensures
        r == n,
{
    lemma_number(bytes@, at as int, n);
}

proof fn lemma_number(bytes: Seq<u8>, at: int, n: int)
    requires
        0 <= n < 0x1_0000_0000,
        0 <= at,
        at + 4 <= bytes.len(),
        bytes.subrange(at, at + 4) == four_bytes(n),
    ensures
        u32_at(bytes, at) == n,
{
    let part = bytes.subrange(at, at + 4);
    assert(part[0] == bytes[at]);
    assert(part[1] == bytes[at + 1]);
    assert(part[2] == bytes[at + 2]);
    assert(part[3] == bytes[at + 3]);
    assert(n == n % 256 + 256 * (n / 256 % 256) + 65_536 * (n / 65_536 % 256) + 16_777_216 * (n
        / 16_777_216));
}

/// A signed number of two bytes is the low byte and 256 times the high one, less 65 536 where the
/// high one has its top bit; a signed byte is the byte, less 256 where it has its top bit.
pub proof fn law_signed_loaded(bytes: &[u8], at: usize, r: i16, b: u8, small: i32)
    requires
        call_ensures(load_i16, (bytes, at), r),
        call_ensures(signed_byte, (b,), small),
        at + 2 <= bytes@.len(),
    ensures
        bytes@[at + 1] < 128 ==> r == bytes@[at as int] + 256 * bytes@[at + 1],
        bytes@[at + 1] >= 128 ==> r == bytes@[at as int] + 256 * bytes@[at + 1] - 65_536,
        b < 128 ==> small == b,
        b >= 128 ==> small == b - 256,
{
}

/// The result is that error.
pub open spec fn is_refused<T>(r: Result<T, IndexError>, e: IndexError) -> bool {
    r matches Err(own) && own == e
}

/// The parts of an index file.
pub struct IndexFile {
    pub dimensions: int,
    pub clusters: int,
    pub probes: int,
    pub vectors: int,
    pub reserved: int,
    pub centroids: Seq<u8>,
    pub radii: Seq<u8>,
    pub boundaries: Seq<u8>,
}

/// `RIVF2026`.
pub open spec fn magic() -> Seq<u8> {
    seq![0x52u8, 0x49, 0x56, 0x46, 0x32, 0x30, 0x32, 0x36]
}

impl IndexFile {
    /// Every number fits its four bytes.
    pub open spec fn has_numbers(self) -> bool {
        &&& 0 <= self.dimensions < 0x1_0000_0000
        &&& 0 <= self.clusters < 0x1_0000_0000
        &&& 0 <= self.probes < 0x1_0000_0000
        &&& 0 <= self.vectors < 0x1_0000_0000
        &&& 0 <= self.reserved < 0x1_0000_0000
    }

    /// And every table is as long as the number of clusters says.
    pub open spec fn wf(self) -> bool {
        &&& self.has_numbers()
        &&& self.centroids.len() == 56 * self.clusters
        &&& self.radii.len() == 4 * self.clusters
        &&& self.boundaries.len() == 4 * self.clusters + 4
    }

    pub open spec fn header(self) -> Seq<u8> {
        magic() + four_bytes(self.dimensions) + four_bytes(self.clusters) + four_bytes(self.probes)
            + four_bytes(self.vectors) + four_bytes(self.reserved)
    }

    pub open spec fn text(self) -> Seq<u8> {
        self.header() + self.centroids + self.radii + self.boundaries
    }

    /// The numbers are within their limits: fourteen dimensions, at most 8192 clusters, of which
    /// at most 24 are probed first.
    pub open spec fn is_sized(self, n_vecs: int) -> bool {
        self.dimensions == 14 && self.vectors == n_vecs && 1 <= self.clusters <= 8192
    }

    pub open spec fn probes_fit(self) -> bool {
        1 <= self.probes <= 24 && self.probes <= self.clusters
    }

    /// The first cluster starts at the first vector, and the last one ends behind the last.
    pub open spec fn covers(self) -> bool {
        &&& self.boundaries.take(4) == four_bytes(0)
        &&& self.boundaries.skip(4 * self.clusters) == four_bytes(self.vectors)
    }
}

proof fn lemma_magic()
    ensures
        "RIVF2026".spec_bytes() == magic(),
{
    reveal_strlit("RIVF2026");
    assert("RIVF2026".is_ascii());
    assert("RIVF2026".spec_bytes() =~= magic());
}

proof fn lemma_header(f: IndexFile)
    requires
        f.wf(),
    ensures
        f.text().len() == 28 + f.centroids.len() as int + f.radii.len() + f.boundaries.len(),
        occurs_at(f.text(), magic(), 0),
        u32_at(f.text(), 8) == f.dimensions,
        u32_at(f.text(), 12) == f.clusters,
        u32_at(f.text(), 16) == f.probes,
        u32_at(f.text(), 20) == f.vectors,
        f.text().subrange(28, 28 + f.centroids.len() as int) == f.centroids,
        f.text().subrange(
            28 + f.centroids.len() as int,
            28 + f.centroids.len() as int + f.radii.len(),
        ) == f.radii,
        f.text().subrange(
            28 + f.centroids.len() as int + f.radii.len(),
            f.text().len() as int,
        ) == f.boundaries,
{
    let text = f.text();
    assert(text.subrange(0, 8) =~= magic());
    assert(text.subrange(8, 12) =~= four_bytes(f.dimensions));
    assert(text.subrange(12, 16) =~= four_bytes(f.clusters));
    assert(text.subrange(16, 20) =~= four_bytes(f.probes));
    assert(text.subrange(20, 24) =~= four_bytes(f.vectors));
    lemma_number(text, 8, f.dimensions);
    lemma_number(text, 12, f.clusters);
    lemma_number(text, 16, f.probes);
    lemma_number(text, 20, f.vectors);
    let at = 28 + f.centroids.len() as int;
    assert(text.subrange(28, at) =~= f.centroids);
    assert(text.subrange(at, at + f.radii.len()) =~= f.radii);
    assert(text.subrange(at + f.radii.len(), text.len() as int) =~= f.boundaries);
}

proof fn lemma_four_bytes(part: Seq<u8>, n: int)
    requires
        part.len() == 4,
        0 <= n < 0x1_0000_0000,
    ensures
        u32_at(part, 0) == n <==> part == four_bytes(n),
{
    if u32_at(part, 0) == n {
        let (a, b, c, d) = (part[0] as int, part[1] as int, part[2] as int, part[3] as int);
        assert(n == a + 256 * (b + 256 * (c + 256 * d)));
        assert(n % 256 == a && n / 256 == b + 256 * (c + 256 * d));
        assert(n / 256 % 256 == b);
        assert(n / 65_536 == c + 256 * d);
        assert(n / 65_536 % 256 == c);
        assert(n / 16_777_216 == d);
        assert(part =~= four_bytes(n));
    } else if part == four_bytes(n) {
        assert(part.subrange(0, 4) =~= part);
        lemma_number(part, 0, n);
    }
}

/// An index file is taken apart into what it was written from. One whose numbers are out of their
/// limits is refused for its dimensions, then for its probes, and one whose clusters do not cover
/// the vectors for its payload.
pub proof fn law_index_read(
    f: IndexFile,
    bytes: &[u8],
    n_vecs: usize,
    r: Result<ParsedIvf<'_>, IndexError>,
)
    requires
        call_ensures(ParsedIvf::parse, (bytes, n_vecs), r),
        f.wf(),
        bytes@ == f.text(),
    ensures
        !f.is_sized(n_vecs as int) ==> is_refused(r, IndexError::BadDimensions),
        f.is_sized(n_vecs as int) && !f.probes_fit() ==> is_refused(r, IndexError::BadNprobe),
        f.is_sized(n_vecs as int) && f.probes_fit() && !f.covers() ==> is_refused(
            r,
            IndexError::BadPayload,
        ),
        f.is_sized(n_vecs as int) && f.probes_fit() && f.covers() ==> (r matches Ok(parsed) && {
            &&& parsed.n_clusters == f.clusters
            &&& parsed.nprobe == f.probes
            &&& parsed.centroids@ == f.centroids
            &&& parsed.radii@ == f.radii
            &&& parsed.boundaries@ == f.boundaries
        }),
{
    lemma_magic();
    lemma_header(f);
    let text = f.text();
    let end = text.len() as int;
    let first = end - 4 * (f.clusters + 1);
    let start = f.boundaries.take(4);
    let stop = f.boundaries.skip(4 * f.clusters);
    let table = text.subrange(first, end);
    assert(table == f.boundaries);
    assert forall|k: int| 0 <= k < table.len() implies table[k] == #[trigger] text[first + k] by {}
    assert(u32_at(text, first) == u32_at(start, 0)) by {
        assert(start[0] == table[0] && start[1] == table[1] && start[2] == table[2] && start[3]
            == table[3]);
        assert(text[first + 0] == table[0] && text[first + 1] == table[1] && text[first + 2]
            == table[2] && text[first + 3] == table[3]);
    }
    let last = 4 * f.clusters;
    assert(u32_at(text, end - 4) == u32_at(stop, 0)) by {
        assert(stop[0] == table[last] && stop[1] == table[last + 1] && stop[2] == table[last + 2]
            && stop[3] == table[last + 3]);
        assert(text[first + last] == table[last] && text[first + (last + 1)] == table[last + 1]
            && text[first + (last + 2)] == table[last + 2] && text[first + (last + 3)]
            == table[last + 3]);
    }
    lemma_four_bytes(start, 0);
    lemma_four_bytes(stop, f.vectors);
}

/// The numbers of a header decide before anything behind it is looked at: whatever follows, a file
/// is refused for its dimensions, and then for its probes.
pub proof fn law_header_decides(
    f: IndexFile,
    bytes: &[u8],
    n_vecs: usize,
    r: Result<ParsedIvf<'_>, IndexError>,
    behind: Seq<u8>,
)
    requires
        call_ensures(ParsedIvf::parse, (bytes, n_vecs), r),
        f.has_numbers(),
        bytes@ == f.header() + behind,
    ensures
        !f.is_sized(n_vecs as int) ==> is_refused(r, IndexError::BadDimensions),
        f.is_sized(n_vecs as int) && !f.probes_fit() ==> is_refused(r, IndexError::BadNprobe),
{
    lemma_magic();
    let text = bytes@;
    assert(text.subrange(0, 8) =~= magic());
    assert(text.subrange(8, 12) =~= four_bytes(f.dimensions));
    assert(text.subrange(12, 16) =~= four_bytes(f.clusters));
    assert(text.subrange(16, 20) =~= four_bytes(f.probes));
    assert(text.subrange(20, 24) =~= four_bytes(f.vectors));
    lemma_number(text, 8, f.dimensions);
    lemma_number(text, 12, f.clusters);
    lemma_number(text, 16, f.probes);
    lemma_number(text, 20, f.vectors);
}

/// A file without the magic word, or too short for a header, is refused for its header.
pub proof fn law_header_required(
    bytes: &[u8],
    n_vecs: usize,
    r: Result<ParsedIvf<'_>, IndexError>,
)
    requires
        call_ensures(ParsedIvf::parse, (bytes, n_vecs), r),
        bytes@.len() < 28 || bytes@.take(8) != magic(),
    ensures
        is_refused(r, IndexError::BadHeader),
{
    lemma_magic();
    if bytes@.len() >= 28 {
        assert(bytes@.take(8) =~= bytes@.subrange(0, 8));
    }
}

/// A file that ends within its tables is refused as cut short, and one that goes on behind them
/// for its payload.
pub proof fn law_length_required(
    f: IndexFile,
    bytes: &[u8],
    n_vecs: usize,
    r: Result<ParsedIvf<'_>, IndexError>,
    cut: int,
    more: Seq<u8>,
)
    requires
        call_ensures(ParsedIvf::parse, (bytes, n_vecs), r),
        f.wf(),
        f.is_sized(n_vecs as int),
        f.probes_fit(),
        28 <= cut <= f.text().len(),
        more.len() == 0 || cut == f.text().len(),
        bytes@ == f.text().take(cut) + more,
    ensures
        cut < f.text().len() ==> is_refused(r, IndexError::SliceTruncated),
        more.len() > 0 ==> is_refused(r, IndexError::BadPayload),
{
    lemma_magic();
    lemma_header(f);
    let text = bytes@;
    assert(text.subrange(0, 8) =~= f.text().subrange(0, 8));
    assert forall|k: int| 0 <= k < 28 implies #[trigger] text[k] == f.text()[k] by {}
}

/// The files of an index are refused without labels, with half an element, or with more or fewer
/// elements than fourteen for each label; otherwise it is what its cluster file was taken apart
/// into, with the other files as they are.
pub proof fn law_loaded(
    labels: &[u8],
    vectors: &[u8],
    residuals: &[u8],
    ivf: &[u8],
    kernel: Kernel,
    r: Result<ExactIndex<'_>, IndexError>,
    parsed: Result<ParsedIvf<'_>, IndexError>,
)
    requires
        call_ensures(ExactIndex::load, (labels, vectors, residuals, ivf, kernel), r),
        labels@.len() <= usize::MAX,
        call_ensures(ParsedIvf::parse, (ivf, labels@.len() as usize), parsed),
    ensures
        labels@.len() == 0 ==> is_refused(r, IndexError::EmptyLabels),
        labels@.len() > 0 && vectors@.len() % 2 == 1 ==> is_refused(r, IndexError::OddLength),
        labels@.len() > 0 && vectors@.len() % 2 == 0 && vectors@.len() != 28 * labels@.len()
            ==> is_refused(
            r,
            IndexError::VectorsMismatch {
                found: (vectors@.len() / 2) as usize,
                labels: labels@.len() as usize,
            },
        ),
        labels@.len() > 0 && vectors@.len() == 28 * labels@.len() && residuals@.len() != 14
            * labels@.len() ==> is_refused(
            r,
            IndexError::ResidualsMismatch {
                found: residuals@.len() as usize,
                labels: labels@.len() as usize,
            },
        ),
        labels@.len() > 0 && vectors@.len() == 28 * labels@.len() && residuals@.len() == 14
            * labels@.len() ==> match parsed {
            Err(e) => is_refused(r, e),
            Ok(parts) => r matches Ok(index) && {
                &&& index.n_vecs == labels@.len()
                &&& index.labels@ == labels@
                &&& index.dims@ == vectors@
                &&& index.residuals@ == residuals@
                &&& index.kernel == kernel
                &&& index.n_clusters == parts.n_clusters
                &&& index.nprobe == parts.nprobe
                &&& index.centroids@ == parts.centroids@
                &&& index.radii@ == parts.radii@
                &&& index.boundaries@ == parts.boundaries@
            },
        },
{
}

/// A part of a file is had exactly where it lies within the file and, unless it is empty, starts at
/// a multiple of its alignment; it is then the bytes from there on.
pub proof fn law_slice(
    file: &[u8],
    offset: usize,
    count: usize,
    size: usize,
    align: usize,
    r: Result<&[u8], IndexError>,
)
    requires
        call_ensures(typed_slice, (file, offset, count, size, align), r),
        size > 0,
        align > 0,
        file@.len() <= usize::MAX,
    ensures
        r is Ok <==> offset + count * size <= file@.len() && (count == 0 || offset % align == 0),
        r matches Ok(part) ==> part@.len() == count * size && forall|k: int|
            0 <= k < part@.len() ==> #[trigger] part@[k] == file@[offset + k],
        offset + count * size > usize::MAX ==> is_refused(r, IndexError::SliceTooLarge),
        file@.len() < offset + count * size <= usize::MAX ==> is_refused(
            r,
            IndexError::SliceTruncated,
        ),
        offset + count * size <= file@.len() && count > 0 && offset % align != 0 ==> is_refused(
            r,
            IndexError::SliceUnaligned,
        ),
{
    assert(count * size >= 0) by (nonlinear_arith)
        requires
            count >= 0,
            size >= 0,
    ;
}

/// Reading a part takes the bytes from where reading stands, and goes on behind them; what cannot
/// be had is told as for any part.
pub proof fn law_parts_read(
    file: &[u8],
    off: &mut usize,
    count: usize,
    size: usize,
    align: usize,
    r: Result<&[u8], IndexError>,
    part: Result<&[u8], IndexError>,
)
    requires
        call_ensures(read_mapped_slice, (file, off, count, size, align), r),
        call_ensures(typed_slice, (file, *old(off), count, size, align), part),
        size > 0,
        align > 0,
    ensures
        match r {
            Ok(bytes) => (part matches Ok(own) && own@ == bytes@) && *final(off) == *old(off)
                + bytes@.len(),
            Err(e) => is_refused(part, e) && *final(off) == *old(off),
        },
{
    assert(count * size >= 0) by (nonlinear_arith)
        requires
            count >= 0,
            size >= 0,
    ;
}

/// Reading goes on behind what was read, and stays where it was where nothing could be read.
pub proof fn law_reads_go_on(
    bytes: &[u8],
    off: &mut usize,
    r: Result<u32, IndexError>,
    n: int,
)
    requires
        call_ensures(read_u32, (bytes, off), r),
        *old(off) + 4 <= usize::MAX,
        0 <= n < 0x1_0000_0000,
    ensures
        *old(off) + 4 <= bytes@.len() && bytes@.subrange(*old(off) as int, *old(off) + 4)
            == four_bytes(n) ==> (r matches Ok(v) && v == n) && *final(off) == *old(off) + 4,
        *old(off) + 4 > bytes@.len() ==> is_refused(r, IndexError::TruncatedU32) && *final(off)
            == *old(off),
{
    if *old(off) + 4 <= bytes@.len() && bytes@.subrange(*old(off) as int, *old(off) + 4)
        == four_bytes(n) {
        lemma_number(bytes@, *old(off) as int, n);
    }
}

/// The files go together exactly where there is a label, and fourteen elements of two bytes and
/// fourteen bytes for each.
pub proof fn law_checks(
    labels: &[u8],
    vectors: &[u8],
    residuals: &[u8],
    n_vecs: usize,
    a: Result<(), IndexError>,
    b: Result<(), IndexError>,
    c: Result<(), IndexError>,
    whole: Result<&[u8], IndexError>,
)
    requires
        call_ensures(check_labels, (labels,), a),
        call_ensures(check_vectors, (vectors, n_vecs), b),
        call_ensures(check_residuals, (residuals, n_vecs), c),
        call_ensures(map_i16_file, (vectors,), whole),
    ensures
        whole is Ok <==> vectors@.len() % 2 == 0,
        whole matches Ok(bytes) ==> bytes@ == vectors@,
        whole matches Err(e) ==> e == IndexError::OddLength,
        a is Ok <==> labels@.len() > 0,
        b is Ok <==> vectors@.len() == 28 * n_vecs,
        c is Ok <==> residuals@.len() == 14 * n_vecs,
        vectors@.len() % 2 == 1 ==> is_refused(b, IndexError::OddLength),
{
}

/// The centroids by coordinate: under a coordinate the clusters stand side by side, with zeros
/// behind them up to a multiple of eight.
pub proof fn law_centroids_by_coordinate(index: &ExactIndex<'_>, cluster: int, d: int)
    requires
        index.wf(),
        0 <= d < 14,
        0 <= cluster < index.n_clusters_padded,
    ensures
        index.n_clusters_padded % 8 == 0,
        index.n_clusters <= index.n_clusters_padded < index.n_clusters + 8,
        ({
            let bits = index.centroids_soa@[d * index.n_clusters_padded + cluster];
            let at = 4 * (14 * cluster + d);
            &&& cluster < index.n_clusters ==> bits == index.centroids@[at] + 256
                * index.centroids@[at + 1] + 65_536 * index.centroids@[at + 2] + 16_777_216
                * index.centroids@[at + 3]
            &&& cluster >= index.n_clusters ==> bits == 0
        }),
{
    let width = index.n_clusters_padded as int;
    assert(cell(d, cluster, width) == d * width + cluster);
    assert(cell(cluster, d, DIM as int) == cluster * 14 + d);
}

/// The digits of a number are the same as text and as bytes.
pub proof fn law_decimal_alike(n: nat)
    ensures
        decimal(n).len() == decimal_digits(n).len(),
        forall|k: int|
            0 <= k < decimal(n).len() ==> #[trigger] decimal(n)[k] as int == decimal_digits(n)[k],
    decreases n,
{
    if n >= 10 {
        law_decimal_alike(n / 10);
        assert forall|k: int| 0 <= k < decimal(n).len() implies #[trigger] decimal(n)[k] as int
            == decimal_digits(n)[k] by {
            if k < decimal(n / 10).len() {
                assert(decimal(n)[k] == decimal(n / 10)[k]);
            }
        }
    }
}

/// What is said of each error.
pub proof fn law_messages(e: IndexError, path: &str, r: String)
    requires
        call_ensures(IndexError::message, (&e, path), r),
    ensures
        e is EmptyLabels ==> r@ == "empty labels.bin"@,
        e is OddLength ==> r@ == path@ + " has odd length"@,
        e matches IndexError::VectorsMismatch { found, labels } ==> r@
            == "vectors.bin size mismatch: got "@ + decimal(found as nat) + " i16s for "@ + decimal(
            labels as nat,
        ) + " labels"@,
        e matches IndexError::ResidualsMismatch { found, labels } ==> r@
            == "residuals.bin size mismatch: got "@ + decimal(found as nat) + " bytes for "@
            + decimal(labels as nat) + " labels"@,
        e is BadHeader ==> r@ == "bad ivf header"@,
        e is BadDimensions ==> r@ == "bad ivf dimensions"@,
        e is BadNprobe ==> r@ == "bad ivf nprobe"@,
        e is BadPayload ==> r@ == "bad ivf payload"@,
        e is TruncatedU32 ==> r@ == "truncated u32"@,
        e is SliceTooLarge ==> r@ == path@ + ": mapped slice too large"@,
        e is SliceTruncated ==> r@ == path@ + ": truncated mapped slice"@,
        e is SliceUnaligned ==> r@ == path@ + ": unaligned mapped slice"@,
{
    reveal_strlit("vectors.bin");
    reveal_strlit("residuals.bin");
    reveal_strlit(" size mismatch: got ");
    reveal_strlit("vectors.bin size mismatch: got ");
    reveal_strlit("residuals.bin size mismatch: got ");
    assert("vectors.bin"@ + " size mismatch: got "@ =~= "vectors.bin size mismatch: got "@);
    assert("residuals.bin"@ + " size mismatch: got "@ =~= "residuals.bin size mismatch: got "@);
}

} // verus!
