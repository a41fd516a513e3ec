//! What was written into an index is read back from it.
use vstd::prelude::*;

verus! {

use crate::index::{index_of, in_panels, sizes_at, tables_of, units_at, Index, INDEX_MAGIC};
use crate::preprocessing::{
    cluster_units, encoded, flattened, header, index_stream, label_of, label_offsets,
    labels_before, panel_offsets, sizes, units_before, vectors_before, Encoded, Reference, SCALE,
    WRITTEN_VERSION,
};
use crate::wire::{i16_stream, u32_at, u32_rows, u32_stream, u32s, DIM};

/// The encodings of clusters.
pub open spec fn all_encoded(clusters: Seq<Seq<Reference>>) -> Seq<Encoded> {
    Seq::new(clusters.len(), |c: int| encoded(clusters[c]))
}

/// How many vectors the first `c` clusters have.
pub open spec fn rows_before(clusters: Seq<Seq<Reference>>, c: nat) -> nat
    decreases c,
{
    if c == 0 {
        0
    } else {
        rows_before(clusters, (c - 1) as nat) + clusters[c - 1].len()
    }
}

/// The components of the first `c` clusters.
spec fn units_of(clusters: Seq<Seq<Reference>>, c: nat) -> Seq<i16>
    decreases c,
{
    if c == 0 {
        Seq::empty()
    } else {
        units_of(clusters, (c - 1) as nat) + cluster_units(clusters[c - 1])
    }
}

proof fn lemma_stream_concat(a: Seq<i16>, b: Seq<i16>)
    ensures
        i16_stream(a + b) == i16_stream(a) + i16_stream(b),
    decreases b.len(),
{
    if b.len() == 0 {
        assert(a + b =~= a);
        assert(i16_stream(a) + i16_stream(b) =~= i16_stream(a));
    } else {
        let fewer = b.drop_last();
        lemma_stream_concat(a, fewer);
        crate::wire::lemma_i16_stream_push(fewer, b.last());
        crate::wire::lemma_i16_stream_push(a + fewer, b.last());
        assert(b =~= fewer.push(b.last()));
        assert(a + b =~= (a + fewer).push(b.last()));
        assert(i16_stream(a + b) =~= i16_stream(a) + i16_stream(b));
    }
}

proof fn lemma_rows_grow(clusters: Seq<Seq<Reference>>, a: nat, b: nat)
    requires
        a <= b,
    ensures
        rows_before(clusters, a) <= rows_before(clusters, b),
    decreases b,
{
    if a < b {
        lemma_rows_grow(clusters, a, (b - 1) as nat);
    }
}

/// The parts of a stream have the lengths that the offsets give.
proof fn lemma_before(clusters: Seq<Seq<Reference>>, c: nat, n: nat)
    requires
        c <= n <= clusters.len(),
        14 * rows_before(clusters, n) <= u32::MAX,
    ensures
        labels_before(all_encoded(clusters), c).len() == rows_before(clusters, c),
        units_before(all_encoded(clusters), c) == 14 * rows_before(clusters, c),
        units_of(clusters, c).len() == 14 * rows_before(clusters, c),
        vectors_before(all_encoded(clusters), c) == i16_stream(units_of(clusters, c)),
    decreases c,
{
    lemma_rows_grow(clusters, c, n);
    if c > 0 {
        let b = (c - 1) as nat;
        lemma_before(clusters, b, n);
        lemma_stream_concat(units_of(clusters, b), cluster_units(clusters[b as int]));
        assert(all_encoded(clusters)[b as int] == encoded(clusters[b as int]));
    } else {
        assert(i16_stream(units_of(clusters, 0)) =~= Seq::empty());
    }
}

/// Where the components and labels of a cluster stand.
proof fn lemma_cluster_stands(clusters: Seq<Seq<Reference>>, c: int, n: nat, u: int, i: int)
    requires
        0 <= c < n <= clusters.len(),
        14 * rows_before(clusters, n) <= u32::MAX,
    ensures
        0 <= u < 14 * clusters[c].len() ==> units_of(clusters, n)[14 * rows_before(
            clusters,
            c as nat,
        ) + u] == cluster_units(clusters[c])[u],
        0 <= i < clusters[c].len() ==> labels_before(all_encoded(clusters), n)[rows_before(
            clusters,
            c as nat,
        ) + i] == label_of(clusters[c][i]),
    decreases n,
{
    let m = (n - 1) as nat;
    lemma_rows_grow(clusters, m, n);
    lemma_before(clusters, m, n);
    assert(all_encoded(clusters)[m as int] == encoded(clusters[m as int]));
    if c < m {
        lemma_cluster_stands(clusters, c, m, u, i);
        lemma_rows_grow(clusters, (c + 1) as nat, m);
    }
}

/// The parts of a stream of seven parts.
proof fn lemma_parts(
    a: Seq<u8>,
    b: Seq<u8>,
    c: Seq<u8>,
    d: Seq<u8>,
    e: Seq<u8>,
    f: Seq<u8>,
    g: Seq<u8>,
)
    ensures
        ({
            let data = a + b + c + d + e + f + g;
            let pb = a.len() as int;
            let pc = pb + b.len();
            let pd = pc + c.len();
            let pe = pd + d.len();
            let pf = pe + e.len();
            let pg = pf + f.len();
            &&& data.subrange(0, pb) == a
            &&& data.subrange(pb, pc) == b
            &&& data.subrange(pc, pd) == c
            &&& data.subrange(pd, pe) == d
            &&& data.subrange(pe, pf) == e
            &&& data.subrange(pf, pg) == f
            &&& data.subrange(pg, pg + g.len()) == g
            &&& data.len() == pg + g.len()
        }),
{
    let data = a + b + c + d + e + f + g;
    let pb = a.len() as int;
    let pc = pb + b.len();
    let pd = pc + c.len();
    let pe = pd + d.len();
    let pf = pe + e.len();
    let pg = pf + f.len();
    assert(data.subrange(0, pb) =~= a);
    assert(data.subrange(pb, pc) =~= b);
    assert(data.subrange(pc, pd) =~= c);
    assert(data.subrange(pd, pe) =~= d);
    assert(data.subrange(pe, pf) =~= e);
    assert(data.subrange(pf, pg) =~= f);
    assert(data.subrange(pg, pg + g.len()) =~= g);
}

/// The centroids of a stream.
proof fn lemma_centroids(data: Seq<u8>, centroids: Seq<Seq<u32>>)
    requires
        forall|c: int| 0 <= c < centroids.len() ==> (#[trigger] centroids[c]).len() == DIM,
        u32s(data, 32, 14 * centroids.len()) == flattened(centroids),
    ensures
        u32_rows(data, 32, centroids.len()) == centroids,
{
    let k = centroids.len();
    assert forall|i: int| 0 <= i < k implies #[trigger] u32_rows(data, 32, k)[i] == centroids[i] by {
        assert(centroids[i].len() == DIM);
        assert forall|j: int| 0 <= j < DIM implies u32_rows(data, 32, k)[i][j] == centroids[i][j] by {
            assert(u32s(data, 32, 14 * k)[14 * i + j] == flattened(centroids)[14 * i + j]);
            assert((14 * i + j) / 14 == i && (14 * i + j) % 14 == j);
        }
        assert(u32_rows(data, 32, k)[i] =~= centroids[i]);
    }
    assert(u32_rows(data, 32, k) =~= centroids);
}

/// The header of a stream.
proof fn lemma_header(data: Seq<u8>, n: nat, k: nat)
    requires
        data.len() >= 32,
        n <= u32::MAX,
        k <= u32::MAX,
        data.subrange(0, 32) == u32_stream(header(n, k)),
    ensures
        u32_at(data, 0) == INDEX_MAGIC,
        u32_at(data, 4) == WRITTEN_VERSION,
        u32_at(data, 8) == n,
        u32_at(data, 12) == DIM,
        u32_at(data, 16) == k,
        u32_at(data, 20) == SCALE,
{
    let fields = header(n, k);
    crate::wire::law_u32s_are_read_back(data, 0, fields);
    assert(u32s(data, 0, 8)[0] == fields[0]);
    assert(u32s(data, 0, 8)[1] == fields[1]);
    assert(u32s(data, 0, 8)[2] == fields[2]);
    assert(u32s(data, 0, 8)[3] == fields[3]);
    assert(u32s(data, 0, 8)[4] == fields[4]);
    assert(u32s(data, 0, 8)[5] == fields[5]);
}

/// What a written index must meet to be read back.
pub open spec fn writable(centroids: Seq<Seq<u32>>, clusters: Seq<Seq<Reference>>) -> bool {
    &&& centroids.len() == clusters.len()
    &&& 0 < clusters.len() <= u32::MAX
    &&& forall|c: int| 0 <= c < centroids.len() ==> (#[trigger] centroids[c]).len() == DIM
    &&& 0 < rows_before(clusters, clusters.len())
    &&& 14 * rows_before(clusters, clusters.len()) <= u32::MAX
}

/// The tables of a written index.
proof fn lemma_tables(centroids: Seq<Seq<u32>>, clusters: Seq<Seq<Reference>>)
    requires
        writable(centroids, clusters),
    ensures
        ({
            let k = clusters.len();
            let n = rows_before(clusters, k);
            let buffers = all_encoded(clusters);
            let data = index_stream(centroids, buffers);
            let start = units_at(WRITTEN_VERSION, k as int);
            let t = tables_of(data, 14 * n as int);
            &&& u32_at(data, 0) == INDEX_MAGIC
            &&& u32_at(data, 4) == WRITTEN_VERSION
            &&& u32_at(data, 8) == n
            &&& u32_at(data, 12) == DIM
            &&& u32_at(data, 16) == k
            &&& u32_at(data, start - 4) == 14 * n
            &&& data.len() == start + 28 * n + n
            &&& t.scale == SCALE
            &&& t.centroids == centroids
            &&& t.sizes == sizes(buffers)
            &&& t.offsets == label_offsets(buffers)
            &&& t.panels == panel_offsets(buffers)
            &&& t.units == units_of(clusters, k)
            &&& t.labels == labels_before(buffers, k)
        }),
{
    let k = clusters.len();
    let n = rows_before(clusters, k);
    let buffers = all_encoded(clusters);
    let data = index_stream(centroids, buffers);
    lemma_before(clusters, k, k);
    let labels = labels_before(buffers, k);
    let rows = flattened(centroids);
    let a = u32_stream(header(n, k));
    let b = u32_stream(rows);
    let c = u32_stream(sizes(buffers));
    let d = u32_stream(label_offsets(buffers));
    let e = u32_stream(panel_offsets(buffers));
    let f = vectors_before(buffers, k);
    assert(data == a + b + c + d + e + f + labels);
    lemma_parts(a, b, c, d, e, f, labels);
    let start = units_at(WRITTEN_VERSION, k as int);
    let at = sizes_at(WRITTEN_VERSION, k as int);
    let offsets = at + 4 * k;
    let panels = offsets + 4 * (k + 1);
    lemma_header(data, n, k);
    crate::wire::law_u32s_are_read_back(data, 32, rows);
    lemma_centroids(data, centroids);
    crate::wire::law_u32s_are_read_back(data, at, sizes(buffers));
    crate::wire::law_u32s_are_read_back(data, offsets, label_offsets(buffers));
    crate::wire::law_u32s_are_read_back(data, panels, panel_offsets(buffers));
    assert(u32s(data, panels, k + 1)[k as int] == panel_offsets(buffers)[k as int]);
    crate::wire::law_i16s_are_read_back(data, start, units_of(clusters, k));
}

/// The clusters of a written index are where its tables say.
proof fn lemma_layout(centroids: Seq<Seq<u32>>, clusters: Seq<Seq<Reference>>, c: int)
    requires
        writable(centroids, clusters),
        0 <= c < clusters.len(),
    ensures
        ({
            let t = tables_of(
                index_stream(centroids, all_encoded(clusters)),
                14 * rows_before(clusters, clusters.len()) as int,
            );
            &&& t.sizes[c] == clusters[c].len()
            &&& t.offsets[c] == rows_before(clusters, c as nat)
            &&& t.panels[c] == 14 * rows_before(clusters, c as nat)
            &&& t.holds(c)
        }),
{
    let k = clusters.len();
    lemma_tables(centroids, clusters);
    lemma_before(clusters, k, k);
    lemma_before(clusters, c as nat, k);
    lemma_rows_grow(clusters, (c + 1) as nat, k);
    assert(all_encoded(clusters)[c] == encoded(clusters[c]));
}

/// A vector of a written index.
proof fn lemma_vector(
    x: Index,
    clusters: Seq<Seq<Reference>>,
    c: int,
    i: int,
)
    requires
        0 <= c < clusters.len(),
        0 <= i < clusters[c].len(),
        14 * rows_before(clusters, clusters.len()) <= u32::MAX,
        x.sizes[c] == clusters[c].len(),
        x.panels[c] == 14 * rows_before(clusters, c as nat),
        x.units == units_of(clusters, clusters.len()),
    ensures
        x.vector(c, i) == clusters[c][i].vector@,
{
    let k = clusters.len();
    let full = in_panels(clusters[c].len() as int);
    assert(full <= clusters[c].len() < full + 8);
    assert forall|d: int| 0 <= d < DIM implies x.vector(c, i)[d] == clusters[c][i].vector@[d] by {
        let u = x.slot(c, i, d) - x.panels[c];
        lemma_cluster_stands(clusters, c, k, u, i);
        if i < full {
            assert(i / 8 * 8 + 8 <= full);
            assert(u == i / 8 * 112 + d * 8 + i % 8);
            assert(u / 112 == i / 8 && u % 8 == i % 8 && u % 112 / 8 == d);
        } else {
            assert(u == 14 * i + d);
            assert(u / 14 == i && u % 14 == d);
        }
    }
    assert(x.vector(c, i) =~= clusters[c][i].vector@);
}

/// An index that was written is read back with its centroids, its vectors and its labels,
/// cluster by cluster and in the same order. Its clusters are there, and the bounds that it
/// gets enclose them.
pub proof fn law_written_index_is_read_back(
    centroids: Seq<Seq<u32>>,
    clusters: Seq<Seq<Reference>>,
)
    requires
        writable(centroids, clusters),
    ensures
        index_of(index_stream(centroids, all_encoded(clusters))) matches Ok(x) && {
            &&& x.shaped()
            &&& x.laid_out()
            &&& x.encloses()
            &&& x.centroids == centroids
            &&& x.scale == 10_000
            &&& x.labels.len() == rows_before(clusters, clusters.len())
            &&& forall|c: int|
                0 <= c < clusters.len() ==> #[trigger] x.sizes[c] == clusters[c].len()
            &&& forall|c: int, i: int|
                0 <= c < clusters.len() && 0 <= i < clusters[c].len() ==> #[trigger] x.vector(c, i)
                    == clusters[c][i].vector@ && x.label(c, i) == label_of(clusters[c][i])
        },
{
    let k = clusters.len();
    let n = rows_before(clusters, k);
    let data = index_stream(centroids, all_encoded(clusters));
    let t = tables_of(data, 14 * n as int);
    lemma_tables(centroids, clusters);
    lemma_before(clusters, k, k);
    assert(t.offsets.last() == n);
    assert forall|c: int| 0 <= c < t.sizes.len() implies #[trigger] t.holds(c) by {
        lemma_layout(centroids, clusters, c);
    }
    let x = t.bounded();
    assert(index_of(data) == Ok::<Index, crate::index::IndexError>(x));
    crate::index::law_computed_bounds_enclose(data);
    crate::index::law_index_is_shaped(data);
    assert forall|c: int| 0 <= c < k implies #[trigger] x.sizes[c] == clusters[c].len() by {
        lemma_layout(centroids, clusters, c);
    }
    assert forall|c: int, i: int| 0 <= c < k && 0 <= i < clusters[c].len() implies #[trigger] x.vector(
        c,
        i,
    ) == clusters[c][i].vector@ && x.label(c, i) == label_of(clusters[c][i]) by {
        lemma_layout(centroids, clusters, c);
        lemma_cluster_stands(clusters, c, k, 0, i);
        lemma_vector(x, clusters, c, i);
    }
}

/// The label of a vector that was written is 1 where it is a fraud and 0 where it is not.
pub proof fn law_written_labels(
    centroids: Seq<Seq<u32>>,
    clusters: Seq<Seq<Reference>>,
    c: int,
    i: int,
)
    requires
        writable(centroids, clusters),
        0 <= c < clusters.len(),
        0 <= i < clusters[c].len(),
    ensures
        index_of(index_stream(centroids, all_encoded(clusters))) matches Ok(x) && {
            &&& clusters[c][i].is_fraud ==> x.labels[x.offsets[c] + i] == 1
            &&& !clusters[c][i].is_fraud ==> x.labels[x.offsets[c] + i] == 0
            &&& x.sizes[c] == clusters[c].len()
            &&& forall|d: int|
                0 <= d < 14 ==> #[trigger] x.vector(c, i)[d] == clusters[c][i].vector@[d]
        },
{
    law_written_index_is_read_back(centroids, clusters);
    let x = index_of(index_stream(centroids, all_encoded(clusters)))->Ok_0;
    assert(x.vector(c, i) == clusters[c][i].vector@);
    assert(x.label(c, i) == label_of(clusters[c][i]));
    assert(x.sizes[c] == clusters[c].len());
}

} // verus!
